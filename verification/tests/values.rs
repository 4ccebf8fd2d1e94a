//! Names, bodies and lines.

use mikall::messaging::{
    ChannelName, ChannelNameError, IrcSafeLine, MessageBody, Nickname, NicknameError,
};

#[test]
fn nickname_accepts_rfc2812_forms() {
    for ok in ["miku", "Miku-01", "[negi]", "`tail", "a"] {
        assert!(Nickname::parse(ok).is_ok(), "{ok}");
    }
}

#[test]
fn nickname_rejects_bad_forms() {
    assert_eq!(Nickname::parse("9bad"), Err(NicknameError::BadFirstChar));
    assert_eq!(Nickname::parse(""), Err(NicknameError::Empty));
    assert_eq!(
        Nickname::parse("seventeen-chars-x"),
        Err(NicknameError::TooLong)
    );
    assert_eq!(Nickname::parse("mi ku"), Err(NicknameError::BadChar));
    assert_eq!(Nickname::parse("mi,ku"), Err(NicknameError::BadChar));
}

#[test]
fn channel_name_is_canonically_lowercase() {
    assert_eq!(ChannelName::parse("#Stage").unwrap().as_str(), "#stage");
    assert_eq!(
        ChannelName::parse("stage"),
        Err(ChannelNameError::MissingHash)
    );
    assert_eq!(ChannelName::parse("#"), Err(ChannelNameError::BadLength));
    assert_eq!(
        ChannelName::parse("#has space"),
        Err(ChannelNameError::BadChar)
    );
    assert_eq!(ChannelName::parse("#a,b"), Err(ChannelNameError::BadChar));
}

#[test]
fn body_rejects_cr_and_nul() {
    assert!(MessageBody::parse("hi\r\nJOIN #evil").is_err());
    assert!(MessageBody::parse("hi\0").is_err());
    assert!(MessageBody::parse("line one\nline two").is_ok());
}

#[test]
fn irc_lines_split_and_chunk() {
    let body = MessageBody::parse(&format!("{}\nshort", "x".repeat(900))).unwrap();
    let lines = body.irc_lines();
    assert_eq!(lines.len(), 4); // 400 + 400 + 100 + "short"
    assert!(lines
        .iter()
        .all(|l| l.as_str().len() <= IrcSafeLine::MAX_BYTES));
    assert_eq!(lines[3].as_str(), "short");
}

#[test]
fn irc_lines_drop_empty_lines() {
    let body = MessageBody::parse("a\n\nb").unwrap();
    let lines = body.irc_lines();
    assert_eq!(lines.len(), 2);
}

#[test]
fn nickname_roundtrip() {
    for raw in ["a", "[negi]", "\\`_^{|}", "Miku-01", "_2345678901234-6"] {
        let nick = Nickname::parse(raw).unwrap();
        assert_eq!(nick.as_str(), raw);
        assert_eq!(Nickname::parse(nick.as_str()).unwrap(), nick);
    }
}

#[test]
fn body_never_panics() {
    for n in [0usize, 1, 399, 400, 4095, 4096, 4097, 5000] {
        for piece in ["x", "\u{7f}", "\u{e9}", "\u{3042}", "\u{1f3a4}", "\u{1}"] {
            let text = piece.repeat(n);
            let body = MessageBody::parse(&text);
            if let Ok(body) = body {
                assert_eq!(body.as_str(), text);
                body.irc_lines();
            }
        }
    }
}

#[test]
fn accepted_bodies_produce_safe_irc_lines() {
    for text in [
        format!("{}\n\n{}\n", "a b".repeat(300), "z".repeat(801)),
        format!("{}\u{3042}", "y".repeat(399)),
        "\n\n\nq".to_owned(),
    ] {
        let body = MessageBody::parse(&text).unwrap();
        for line in body.irc_lines() {
            assert!(!line.as_str().is_empty());
            assert!(line.as_str().len() <= IrcSafeLine::MAX_BYTES);
            assert!(!line.as_str().contains(['\r', '\n', '\0']));
        }
    }
}

#[test]
fn channel_name_parse_is_idempotent() {
    for raw in ["#a", "#Stage", "#A.B_c-9", &format!("#{}", "Z".repeat(49))] {
        let name = ChannelName::parse(raw).unwrap();
        assert_eq!(name.as_str(), raw.to_lowercase());
        assert_eq!(ChannelName::parse(name.as_str()).unwrap(), name);
    }
}

#[test]
fn a_channel_name_may_hold_another_hash() {
    assert_eq!(ChannelName::parse("#A#b").unwrap().as_str(), "#a#b");
    assert_eq!(ChannelName::parse("##").unwrap().as_str(), "##");
    assert_eq!(ChannelName::parse("#a:b"), Err(ChannelNameError::BadChar));
}

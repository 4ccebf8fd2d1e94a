//! IRC lines and timestamps.

use mikall::irc::proto::{parse_line, server_time, IrcMessage};

#[test]
fn parses_basic_commands() {
    assert_eq!(
        parse_line("NICK miku\r\n").unwrap(),
        IrcMessage {
            command: "NICK".into(),
            params: vec!["miku".into()]
        }
    );
    assert_eq!(
        parse_line("PRIVMSG #stage :hello  world").unwrap(),
        IrcMessage {
            command: "PRIVMSG".into(),
            params: vec!["#stage".into(), "hello  world".into()]
        }
    );
    assert_eq!(
        parse_line("USER m 0 * :Miku Chan").unwrap().params,
        vec!["m", "0", "*", "Miku Chan"]
    );
}

#[test]
fn ignores_tags_and_prefix() {
    let msg = parse_line("@time=x;id=y :nick!u@h PRIVMSG #a :hi").unwrap();
    assert_eq!(msg.command, "PRIVMSG");
    assert_eq!(msg.params, vec!["#a", "hi"]);
}

#[test]
fn command_is_uppercased() {
    assert_eq!(parse_line("join #a").unwrap().command, "JOIN");
}

#[test]
fn empty_lines_are_none() {
    assert!(parse_line("").is_none());
    assert!(parse_line("\r\n").is_none());
}

#[test]
fn server_time_formats_known_instant() {
    // 2011-10-19T16:40:51.620Z
    assert_eq!(server_time(1_319_042_451_620), "2011-10-19T16:40:51.620Z");
    assert_eq!(server_time(0), "1970-01-01T00:00:00.000Z");
}

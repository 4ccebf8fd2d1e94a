//! The gateway: where it listens, and what a client hears.

use mikall::events::AppEvent;
use mikall::irc::bind::{constant_time_eq, HostAddr, HostIp, IrcBindAddr, IrcConfig, NotLoopback};
use mikall::irc::session::{Ask, Session};
use mikall::irc::words::{identity_hex, parse_identity_hex};
use mikall::messaging::{ChannelName, MessageBody, MessageId, Nickname};
use mikall::services::chat::{open_channel, ChatService};
use mikall::services::identity::IdentityService;
use mikall::shared::{Fingerprint, IdentityId};
use mikall::sim::fakes::TestIdGen;

fn v4(ip: [u8; 4]) -> HostAddr {
    HostAddr {
        ip: HostIp::V4(ip),
        port: 6667,
    }
}

#[test]
fn non_loopback_bind_is_unrepresentable() {
    assert_eq!(IrcBindAddr::new(v4([0, 0, 0, 0])), Err(NotLoopback));
    assert_eq!(IrcBindAddr::new(v4([192, 168, 1, 10])), Err(NotLoopback));
    assert!(IrcBindAddr::new(v4([127, 0, 0, 1])).is_ok());
    let mut v6 = [0u8; 16];
    v6[15] = 1;
    assert!(IrcBindAddr::new(HostAddr {
        ip: HostIp::V6(v6),
        port: 6667
    })
    .is_ok());
    v6[14] = 1;
    assert_eq!(
        IrcBindAddr::new(HostAddr {
            ip: HostIp::V6(v6),
            port: 6667
        }),
        Err(NotLoopback)
    );
    assert_eq!(IrcConfig::default().bind.socket_addr(), v4([127, 0, 0, 1]));
}

#[test]
fn constant_time_eq_basics() {
    assert!(constant_time_eq("negi", "negi"));
    assert!(!constant_time_eq("negi", "leek"));
    assert!(!constant_time_eq("negi", "negi2"));
    assert!(!constant_time_eq("", "x"));
    assert!(constant_time_eq("", ""));
}

fn me() -> IdentityId {
    IdentityId::from_bytes([1; 32])
}

fn profile() -> IdentityService {
    let mut profile = IdentityService::new(me(), Fingerprint::from_bytes([0; 32]));
    profile.set_nickname(Nickname::parse("miku").unwrap());
    profile
}

fn registered(chat: &ChatService, profile: &IdentityService) -> Session {
    let mut session = Session::new(me(), None);
    session.handle_line(chat, profile, "NICK miku");
    let step = session.handle_line(chat, profile, "USER m 0 * :Miku Chan");
    assert!(step.lines[0].contains(" 001 miku "), "{:?}", step.lines);
    session
}

fn joined(chat: &mut ChatService, profile: &IdentityService, name: &str) -> ChannelName {
    let name = ChannelName::parse(name).unwrap();
    let opening = open_channel(None, &name, me(), TestIdGen::default().channel_id(&name));
    chat.join_channel(profile, name.clone(), opening, vec![]);
    name
}

#[test]
fn strangers_hear_nothing_until_they_register() {
    let chat = ChatService::new();
    let profile = profile();
    let mut session = Session::new(me(), None);
    let step = session.handle_line(&chat, &profile, "PRIVMSG #stage :hi");
    assert!(matches!(step.ask, Ask::Nothing));
    assert_eq!(step.lines.len(), 1);
    assert!(step.lines[0].contains(" 451 "), "{:?}", step.lines);
}

#[test]
fn a_wrong_password_keeps_out() {
    let chat = ChatService::new();
    let profile = profile();
    let mut session = Session::new(me(), Some("negi".to_owned()));
    session.handle_line(&chat, &profile, "PASS leek");
    session.handle_line(&chat, &profile, "NICK miku");
    let step = session.handle_line(&chat, &profile, "USER m 0 * :Miku");
    assert!(step.lines[0].contains(" 464 "), "{:?}", step.lines);
    assert_eq!(step.lines[1], "ERROR :Access denied");
    let step = session.handle_line(&chat, &profile, "MOTD");
    assert!(step.lines[0].contains(" 451 "), "{:?}", step.lines);

    let mut session = Session::new(me(), Some("negi".to_owned()));
    session.handle_line(&chat, &profile, "PASS negi");
    session.handle_line(&chat, &profile, "NICK miku");
    let step = session.handle_line(&chat, &profile, "USER m 0 * :Miku");
    assert!(step.open);
    assert!(step.lines[0].contains(" 001 "), "{:?}", step.lines);
}

#[test]
fn a_line_becomes_an_ask() {
    let mut chat = ChatService::new();
    let profile = profile();
    let name = joined(&mut chat, &profile, "#stage");
    let mut session = registered(&chat, &profile);
    let lines = session.join_done(&chat, &profile, name.clone(), "#Stage", None);
    assert!(lines[0].ends_with(" JOIN #stage"), "{lines:?}");

    let step = session.handle_line(&chat, &profile, "PRIVMSG #stage :hello  world\r\n");
    match step.ask {
        Ask::Post {
            name: to,
            text,
            notice,
            ..
        } => {
            assert_eq!(to, name);
            assert_eq!(text, "hello  world");
            assert!(!notice);
        }
        other => panic!("expected a post, got {other:?}"),
    }
    let step = session.handle_line(&chat, &profile, "PING :abc");
    assert!(step.lines[0].contains("PONG"), "{:?}", step.lines);
    let step = session.handle_line(&chat, &profile, "QUIT");
    assert!(!step.open);
}

#[test]
fn a_channel_message_is_told_line_by_line() {
    let mut chat = ChatService::new();
    let profile = profile();
    let name = joined(&mut chat, &profile, "#stage");
    let mut session = registered(&chat, &profile);
    session.join_done(&chat, &profile, name.clone(), "#stage", None);
    let event = AppEvent::ChannelMessage {
        channel: name.clone(),
        author: IdentityId::from_bytes([2; 32]),
        author_nick: Some(Nickname::parse("rin").unwrap()),
        message: MessageId::from_bytes([3; 32]),
        body: MessageBody::parse("one\n\ntwo").unwrap(),
        ts_hint_ms: 0,
    };
    let lines = session.handle_event(&chat, &profile, &event);
    assert_eq!(lines.len(), 2);
    assert!(lines[0].starts_with(":rin!"), "{lines:?}");
    assert!(lines[0].ends_with(" PRIVMSG #stage :one"), "{lines:?}");
    assert!(lines[1].ends_with(" PRIVMSG #stage :two"), "{lines:?}");
    // What a client said itself does not come back, nor what it did not join.
    let own = AppEvent::ChannelMessage {
        channel: name,
        author: me(),
        author_nick: None,
        message: MessageId::from_bytes([4; 32]),
        body: MessageBody::parse("echo").unwrap(),
        ts_hint_ms: 0,
    };
    assert!(session.handle_event(&chat, &profile, &own).is_empty());
    let fresh = Session::new(me(), None);
    assert!(fresh.handle_event(&chat, &profile, &event).is_empty());
}

#[test]
fn identity_hex_reads_back() {
    let mut bytes = [0u8; 32];
    for (i, b) in bytes.iter_mut().enumerate() {
        *b = (i * 9) as u8;
    }
    let id = IdentityId::from_bytes(bytes);
    let hex = identity_hex(&id);
    assert_eq!(hex.len(), 64);
    assert_eq!(parse_identity_hex(&hex), Some(id));
    assert_eq!(parse_identity_hex(&hex[1..]), None);
    assert_eq!(parse_identity_hex(&"g".repeat(64)), None);
}

#[test]
fn a_notice_is_not_answered() {
    let chat = ChatService::new();
    let profile = profile();
    let mut session = registered(&chat, &profile);
    let step = session.handle_line(&chat, &profile, "PRIVMSG");
    assert_eq!(step.lines.len(), 1);
    let step = session.handle_line(&chat, &profile, "NOTICE");
    assert!(step.lines.is_empty(), "{:?}", step.lines);
}

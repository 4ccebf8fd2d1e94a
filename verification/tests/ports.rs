//! Persisted settings and peers.

use mikall::ports::{GatewayPort, IrcGatewayConfig, PeerAddr, PeerAddrError, ProfileRecord};

#[test]
fn gateway_port_accepts_user_space_only() {
    assert!(GatewayPort::new(1023).is_err());
    assert!(GatewayPort::new(0).is_err());
    assert_eq!(GatewayPort::new(1024).unwrap().get(), 1024);
    assert_eq!(GatewayPort::new(65535).unwrap().get(), 65535);
    assert_eq!(GatewayPort::default().get(), 6667);
}

#[test]
fn profile_record_defaults_stay_quiet() {
    let record = ProfileRecord::default();
    assert_eq!(record.nickname, None);
    assert_eq!(record.irc, None);
    assert!(record.blocked.is_empty());
    assert!(record.peers.is_empty());
    let irc = IrcGatewayConfig::default();
    assert!(!irc.enabled);
    assert_eq!(irc.port.get(), 6667);
    assert_eq!(irc.password, None);
}

#[test]
fn peer_addr_parses_multiaddrs_and_rejects_junk() {
    // Whitespace around a pasted address is forgiven, junk is not.
    let ok = PeerAddr::parse(" /ip4/127.0.0.1/tcp/4001 ").unwrap();
    assert_eq!(ok.as_str(), "/ip4/127.0.0.1/tcp/4001");
    assert!(PeerAddr::parse("/ip4/192.168.1.7/udp/4001/quic-v1/p2p/12D3KooWQvcGm").is_ok());

    assert_eq!(PeerAddr::parse(""), Err(PeerAddrError::Empty));
    assert_eq!(PeerAddr::parse("   "), Err(PeerAddrError::Empty));
    assert_eq!(
        PeerAddr::parse("localhost:4001"),
        Err(PeerAddrError::NotAMultiaddr)
    );
    assert_eq!(
        PeerAddr::parse("/ip4//tcp/4001"),
        Err(PeerAddrError::EmptySegment)
    );
    assert_eq!(
        PeerAddr::parse("/ip4/1.2.3.4/tcp/4001/"),
        Err(PeerAddrError::EmptySegment)
    );
    assert_eq!(PeerAddr::parse("/"), Err(PeerAddrError::EmptySegment));
    assert_eq!(
        PeerAddr::parse("/ip4/1.2.3.4 evil/tcp/4001"),
        Err(PeerAddrError::ForbiddenCharacter)
    );
    let long = format!("/dns4/{}/tcp/4001", "a".repeat(PeerAddr::MAX_LEN));
    assert_eq!(PeerAddr::parse(&long), Err(PeerAddrError::TooLong));
}

#[test]
fn remember_peer_dedupes_moves_to_front_and_caps() {
    let addr = |s: &str| PeerAddr::parse(s).unwrap();
    let mut record = ProfileRecord::default();
    let first = addr("/ip4/10.0.0.1/tcp/4001");
    let second = addr("/ip4/10.0.0.2/tcp/4001");

    record.remember_peer(first.clone());
    record.remember_peer(second.clone());
    assert_eq!(record.peers, vec![second.clone(), first.clone()]);

    // Re-remembering moves to the front instead of duplicating.
    record.remember_peer(first.clone());
    assert_eq!(record.peers, vec![first, second]);

    // Only the most recent PEERS_CAP survive.
    for port in 0..40 {
        record.remember_peer(addr(&format!("/ip4/10.9.9.9/tcp/{port}")));
    }
    assert_eq!(record.peers.len(), ProfileRecord::PEERS_CAP);
    assert_eq!(record.peers[0].as_str(), "/ip4/10.9.9.9/tcp/39");
    assert_eq!(
        record.peers[ProfileRecord::PEERS_CAP - 1].as_str(),
        "/ip4/10.9.9.9/tcp/24"
    );
}

#[test]
fn forget_peer_reports_whether_the_record_changed() {
    let mut record = ProfileRecord::default();
    let known = PeerAddr::parse("/ip4/10.0.0.1/tcp/4001").unwrap();
    let stranger = PeerAddr::parse("/ip4/10.0.0.2/tcp/4001").unwrap();
    record.remember_peer(known.clone());

    assert!(!record.forget_peer(&stranger));
    assert!(record.forget_peer(&known));
    assert!(!record.forget_peer(&known));
    assert!(record.peers.is_empty());
}

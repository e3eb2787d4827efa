use fedimint_consensus::records::{
    AnnouncementKey, AnnouncementPrefix, BetResolutionKey, BetResolutionKeyPrefix,
    BetResolutionProposalKey, BetResolutionProposalKeyPrefix, UserBetKey, UserBetKeyPrefix,
};
use fedimint_consensus::setup::{
    assign_connection_strings, colon_count, initial_guardians, parse_cert_from_connection_string,
    parse_name_from_connection_string, parse_peer_params, Guardian, PeerParamsError, UiMessage,
};
use fedimint_consensus::text::parse_u16;

#[test]
fn connection_string_fields() {
    let s = "127.0.0.1:4000:alice:deadbeef".to_string();
    assert_eq!(colon_count(&s), 3);
    assert_eq!(parse_name_from_connection_string(&s), "alice");
    assert_eq!(parse_cert_from_connection_string(&s), "deadbeef");
    let t = "a:b:c".to_string();
    assert_eq!(parse_name_from_connection_string(&t), "c");
    let u = "a::".to_string();
    assert_eq!(parse_name_from_connection_string(&u), "");
}

#[test]
fn guardian_holds_its_fields() {
    let g = Guardian { name: "You".to_string(), config_string: String::new() };
    assert_eq!(g.clone().name, "You");
    assert_eq!(UiMessage::SetupComplete, UiMessage::SetupComplete);
}

#[test]
fn typed_keys_start_with_their_prefix() {
    let bet = UserBetKey { resolve_consensus_height: 5, moscow_time: 3000 };
    let k = bet.to_bytes();
    assert_eq!(k, vec![0x50, 0, 0, 0, 0, 0, 0, 0, 5, 0, 0, 0, 0, 0, 0, 0x0b, 0xb8]);
    assert!(k.starts_with(&UserBetKeyPrefix::new(5).to_bytes()));
    assert!(!k.starts_with(&UserBetKeyPrefix::new(6).to_bytes()));
    assert_eq!(BetResolutionKey { resolve_consensus_height: 1 }.to_bytes(), vec![0x51, 0, 0, 0, 0, 0, 0, 0, 1]);
    assert_eq!(BetResolutionKeyPrefix.to_bytes(), vec![0x51]);
    assert_eq!(
        BetResolutionProposalKeyPrefix { resolve_consensus_height: 2 }.to_bytes(),
        vec![0x52, 0, 0, 0, 0, 0, 0, 0, 2]
    );
    let proposal = BetResolutionProposalKey { resolve_consensus_height: 2, peer: 3 }.to_bytes();
    assert_eq!(proposal, vec![0x52, 0, 0, 0, 0, 0, 0, 0, 2, 0, 3]);
    assert!(proposal.starts_with(&BetResolutionProposalKeyPrefix { resolve_consensus_height: 2 }.to_bytes()));
    assert_eq!(AnnouncementKey(258).to_bytes(), vec![7, 1, 2]);
    assert!(AnnouncementKey(9).to_bytes().starts_with(&AnnouncementPrefix.to_bytes()));
}

#[test]
fn guardian_lists() {
    let g = initial_guardians("alice".to_string(), "a:1:alice:00".to_string(), 12);
    assert_eq!(g.len(), 12);
    assert_eq!(g[0].name, "alice");
    assert_eq!(g[0].config_string, "a:1:alice:00");
    assert_eq!(g[1].name, "Guardian-2");
    assert_eq!(g[11].name, "Guardian-12");
    assert!(g[11].config_string.is_empty());
    assert_eq!(initial_guardians("x".to_string(), String::new(), 0).len(), 1);
    let assigned = assign_connection_strings(g, vec!["h:2:bob:ff".to_string(), "h:3:carol:ee".to_string()]);
    assert_eq!(assigned.len(), 12);
    assert_eq!(assigned[0].name, "bob");
    assert_eq!(assigned[0].config_string, "h:2:bob:ff");
    assert_eq!(assigned[1].name, "carol");
    assert_eq!(assigned[2].name, "Guardian-3");
}

#[test]
fn peer_params_from_connection_string() {
    let p = parse_peer_params("10.0.0.1:4000:bob:DEad01").unwrap();
    assert_eq!(p.address, "10.0.0.1");
    assert_eq!(p.base_port, 4000);
    assert_eq!(p.name, "bob");
    assert_eq!(p.cert, vec![0xde, 0xad, 0x01]);
    assert_eq!(parse_peer_params("a:1:b").unwrap_err(), PeerParamsError::WrongFieldCount);
    assert_eq!(parse_peer_params("a:1:b:c:d").unwrap_err(), PeerParamsError::WrongFieldCount);
    assert_eq!(parse_peer_params("a:70000:b:00").unwrap_err(), PeerParamsError::InvalidPort);
    assert_eq!(parse_peer_params("a::b:00").unwrap_err(), PeerParamsError::InvalidPort);
    assert_eq!(parse_peer_params("a:12:b:0").unwrap_err(), PeerParamsError::InvalidCert);
    assert_eq!(parse_peer_params("a:12:b:zz").unwrap_err(), PeerParamsError::InvalidCert);
}

#[test]
fn port_numbers_parse_like_std() {
    for text in ["0", "+80", "65535", "65536", "", "+", "-1", "1a", "007", "99999999999"] {
        assert_eq!(parse_u16(text), text.parse::<u16>().ok(), "{text}");
    }
}

use trin::distance::{Distance, NodeId};
use trin::enr::Enr;
use trin::peer::{Peer, MAX_LIVENESS_CHECKS, RECENT_LIVE_CHECKS};
use trin::peers::Peers;

fn node(first: u8) -> NodeId {
    let mut raw = [0u8; 32];
    raw[0] = first;
    NodeId { raw }
}

fn record(first: u8, seq: u64) -> Enr {
    Enr {
        node_id: node(first),
        seq,
        signature: vec![first, seq as u8],
        client: None,
        text: format!("record-{}-{}", first, seq),
    }
}

fn radius_all() -> Distance {
    Distance { bytes: [0xff; 32] }
}

fn radius_top_byte(b: u8) -> Distance {
    let mut bytes = [0u8; 32];
    bytes[0] = b;
    Distance { bytes }
}

#[test]
fn test_new_peer_is_neither_alive_nor_obsolete() {
    let peer = Peer::new(record(1, 1));
    assert!(!peer.is_alive());
    assert!(!peer.is_obsolete());
    assert_eq!(peer.client(), "(unknown)");
    assert_eq!(peer.radius().bytes, [0u8; 32]);
    assert_eq!(peer.iter_liveness_checks().len(), 0);
    assert!(peer.node_id().same(&node(1)));
}

#[test]
fn test_peer_client_string() {
    let mut e = record(1, 1);
    e.client = Some("t 0.1.1".to_string());
    let peer = Peer::new(e);
    assert_eq!(peer.client(), "t 0.1.1");
}

#[test]
fn test_peer_alive_after_one_of_two_recent_successes() {
    assert_eq!(RECENT_LIVE_CHECKS, 2);
    let mut peer = Peer::new(record(1, 1));
    peer.record_successful_liveness_check(record(1, 1), radius_all());
    assert!(peer.is_alive());
    peer.record_failed_liveness_check();
    assert!(peer.is_alive());
    peer.record_failed_liveness_check();
    assert!(!peer.is_alive());
    assert!(!peer.is_obsolete());
}

#[test]
fn test_peer_obsolete_after_full_history_of_failures() {
    assert_eq!(MAX_LIVENESS_CHECKS, 10);
    let mut peer = Peer::new(record(1, 1));
    for _ in 0..9 {
        peer.record_failed_liveness_check();
        assert!(!peer.is_obsolete());
    }
    peer.record_failed_liveness_check();
    assert!(peer.is_obsolete());
    peer.record_failed_liveness_check();
    peer.record_failed_liveness_check();
    assert_eq!(peer.iter_liveness_checks().len(), MAX_LIVENESS_CHECKS);
    peer.record_successful_liveness_check(record(1, 1), radius_all());
    assert!(!peer.is_obsolete());
    assert!(peer.is_alive());
    let first = peer.iter_liveness_checks().front().unwrap();
    assert!(first.success);
}

#[test]
fn test_peer_record_and_radius_update() {
    let mut peer = Peer::new(record(1, 5));
    peer.record_successful_liveness_check(record(1, 7), radius_top_byte(0x10));
    assert_eq!(peer.enr().seq, 7);
    assert_eq!(peer.radius().bytes, radius_top_byte(0x10).bytes);
    peer.record_successful_liveness_check(record(1, 3), radius_top_byte(0x20));
    assert_eq!(peer.enr().seq, 7);
    assert_eq!(peer.radius().bytes, radius_top_byte(0x20).bytes);
}

#[test]
fn test_peer_content_within_radius() {
    let mut peer = Peer::new(record(0x10, 1));
    let mut near = [0u8; 32];
    near[0] = 0x11;
    let mut far = [0u8; 32];
    far[0] = 0x90;
    assert!(!peer.is_content_within_radius(&near));
    peer.record_successful_liveness_check(record(0x10, 1), radius_top_byte(0x02));
    assert!(peer.is_content_within_radius(&near));
    assert!(!peer.is_content_within_radius(&far));
    assert!(peer.is_content_within_radius(&node(0x10).raw));
}

#[test]
fn test_peers_table_adds_and_finds() {
    let mut peers = Peers::new();
    assert!(peers.is_empty());
    peers.record_successful_liveness_check(&record(1, 1), radius_all());
    peers.record_successful_liveness_check(&record(2, 1), radius_all());
    peers.record_successful_liveness_check(&record(1, 2), radius_all());
    assert_eq!(peers.len(), 2);
    assert!(!peers.is_empty());
    let p = peers.get_peer(&node(1)).unwrap();
    assert_eq!(p.enr().seq, 2);
    assert!(peers.get_peer(&node(3)).is_none());
}

#[test]
fn test_peers_failed_check_reports_obsolete() {
    let mut peers = Peers::new();
    for _ in 0..9 {
        assert!(!peers.record_failed_liveness_check(&record(4, 1)));
    }
    assert!(peers.record_failed_liveness_check(&record(4, 1)));
    assert_eq!(peers.len(), 1);
    assert!(!peers.get_peer(&node(4)).unwrap().is_alive());
}

#[test]
fn test_closest_peers_order_and_count() {
    let mut peers = Peers::new();
    peers.record_successful_liveness_check(&record(0x30, 1), radius_all());
    peers.record_successful_liveness_check(&record(0x10, 1), radius_all());
    peers.record_successful_liveness_check(&record(0x01, 1), radius_all());
    peers.record_failed_liveness_check(&record(0x02, 1));
    let target = node(0x00);
    let all = peers.closest_peers(&target, 10);
    let firsts: Vec<u8> = all.iter().map(|e| e.node_id.raw[0]).collect();
    assert_eq!(firsts, vec![0x01, 0x10, 0x30]);
    let two = peers.closest_peers(&target, 2);
    let firsts: Vec<u8> = two.iter().map(|e| e.node_id.raw[0]).collect();
    assert_eq!(firsts, vec![0x01, 0x10]);
    assert!(peers.closest_peers(&target, 0).is_empty());
}

#[test]
fn test_select_peers_by_radius() {
    let mut peers = Peers::new();
    peers.record_successful_liveness_check(&record(0x40, 1), radius_top_byte(0x01));
    peers.record_successful_liveness_check(&record(0x41, 1), radius_all());
    peers.record_successful_liveness_check(&record(0x80, 1), radius_all());
    let mut content = [0u8; 32];
    content[0] = 0x40;
    content[5] = 1;
    let selected = peers.select_peers(&content);
    let firsts: Vec<u8> = selected.iter().map(|(e, _)| e.node_id.raw[0]).collect();
    assert_eq!(firsts, vec![0x40, 0x41, 0x80]);
    let mut content_far = [0u8; 32];
    content_far[0] = 0x43;
    let selected = peers.select_peers(&content_far);
    let firsts: Vec<u8> = selected.iter().map(|(e, _)| e.node_id.raw[0]).collect();
    assert_eq!(firsts, vec![0x41, 0x80]);
    assert_eq!(selected[0].1.bytes, [0xff; 32]);
}

#[test]
fn test_get_all_alive_in_table_order() {
    let mut peers = Peers::new();
    peers.record_successful_liveness_check(&record(0x30, 1), radius_all());
    peers.record_failed_liveness_check(&record(0x20, 1));
    peers.record_successful_liveness_check(&record(0x10, 1), radius_top_byte(1));
    let alive = peers.get_all_alive();
    let firsts: Vec<u8> = alive.iter().map(|(e, _)| e.node_id.raw[0]).collect();
    assert_eq!(firsts, vec![0x30, 0x10]);
    assert_eq!(alive[1].1.bytes, radius_top_byte(1).bytes);
}

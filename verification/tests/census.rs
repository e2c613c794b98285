use trin::census::{group_by_peer, latest_records, Census, CensusError, LivenessResult};
use trin::distance::{Distance, NodeId};
use trin::enr::Enr;

fn node(first: u8) -> NodeId {
    let mut raw = [0u8; 32];
    raw[0] = first;
    NodeId { raw }
}

fn record(first: u8, seq: u64) -> Enr {
    Enr {
        node_id: node(first),
        seq,
        signature: vec![first, seq as u8],
        client: None,
        text: format!("record-{}-{}", first, seq),
    }
}

#[test]
fn test_empty_census_has_no_peers() {
    let census = Census::new();
    assert_eq!(census.closest_peers(&node(0), 5), Err(CensusError::NoPeers));
    assert_eq!(census.select_peers(&[0u8; 32]).err(), Some(CensusError::NoPeers));
    assert!(census.peers().is_empty());
}

#[test]
fn test_census_error_texts() {
    assert_eq!(CensusError::NoPeers.to_string(), "No peers found in Census");
    assert_eq!(CensusError::FailedInitialization.to_string(), "Failed to initialize Census");
    assert_eq!(CensusError::AlreadyInitialized.to_string(), "Census already initialized");
}

#[test]
fn test_liveness_answers_are_recorded() {
    let mut census = Census::new();
    let (result, obsolete) = census.liveness_check_answered(&record(1, 1), Some(Distance { bytes: [0xff; 32] }));
    assert_eq!(result, LivenessResult::Pass);
    assert!(!obsolete);
    let (result, obsolete) = census.liveness_check_answered(&record(2, 1), None);
    assert_eq!(result, LivenessResult::Fail);
    assert!(!obsolete);
    assert_eq!(census.peers().len(), 2);
    let closest = census.closest_peers(&node(0), 5).unwrap();
    assert_eq!(closest.len(), 1);
    assert_eq!(closest[0], record(1, 1));
    let selected = census.select_peers(&[0u8; 32]).unwrap();
    assert_eq!(selected.len(), 1);
    assert_eq!(selected[0].0, record(1, 1));
}

#[test]
fn test_census_failed_checks_make_peer_obsolete() {
    let mut census = Census::new();
    for _ in 0..9 {
        assert_eq!(census.liveness_check_failed(&record(3, 1)), (LivenessResult::Fail, false));
    }
    assert_eq!(census.liveness_check_failed(&record(3, 1)), (LivenessResult::Fail, true));
    let ok = census.closest_peers(&node(0), 5).unwrap();
    assert!(ok.is_empty());
}

#[test]
fn test_needs_fresh_enr() {
    let known = record(1, 4);
    assert!(Census::needs_fresh_enr(&known, 5));
    assert!(!Census::needs_fresh_enr(&known, 4));
    assert!(!Census::needs_fresh_enr(&known, 3));
}

#[test]
fn test_unknown_peers_filters_known_ones() {
    let mut census = Census::new();
    let _ = census.liveness_check_answered(&record(1, 1), Some(Distance::zero()));
    let discovered = vec![record(2, 1), record(1, 9), record(3, 1)];
    let unknown = census.unknown_peers(discovered);
    assert_eq!(unknown, vec![record(2, 1), record(3, 1)]);
}

#[test]
fn test_latest_records_keeps_highest_sequence() {
    let input = vec![record(1, 1), record(2, 5), record(1, 3), record(2, 4), record(3, 1)];
    let out = latest_records(input);
    assert_eq!(out, vec![record(1, 3), record(2, 5), record(3, 1)]);
    assert!(latest_records(Vec::new()).is_empty());
}

#[test]
fn test_group_by_peer_collects_targets() {
    let pairs = vec![
        (record(1, 1), node(10)),
        (record(2, 1), node(11)),
        (record(1, 1), node(12)),
    ];
    let groups = group_by_peer(pairs);
    assert_eq!(groups.len(), 2);
    assert_eq!(groups[0].0, record(1, 1));
    let firsts: Vec<u8> = groups[0].1.iter().map(|n| n.raw[0]).collect();
    assert_eq!(firsts, vec![10, 12]);
    assert_eq!(groups[1].0, record(2, 1));
    assert_eq!(groups[1].1.len(), 1);
}

#[test]
fn test_init_result_needs_a_peer() {
    let mut census = Census::new();
    assert_eq!(census.init_result(), Err(CensusError::FailedInitialization));
    let _ = census.liveness_check_failed(&record(9, 1));
    assert_eq!(census.init_result(), Ok(()));
    assert!(census.is_well_formed());
}

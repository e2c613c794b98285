use trin::bootnodes::TRIN_AMS3_1_ENR;
use trin::commands::{content_for_peer, keys_to_fetch};
use trin::distance::{Distance, NodeId};
use trin::endpoints::{
    BeaconEndpoint, Discv5Endpoint, LegacyHistoryEndpoint, StateEndpoint, SubnetworkEndpoint,
};
use trin::enr::{copy_bytes, Enr};
use trin::id_set::IdSet;
use trin::protocol::{
    find_nodes_request_distances, pong_payload, single_enr, PingErrorKind, PingExtensionKind,
    PingRequestKind, PongPayload,
};
use trin::selection::stable_selection;
use trin::storage::{
    ContentStoreError, ContentType, PaginateResult, PortalStorageConfig, ProtocolId,
    ShouldWeStoreContent, VerkleStorage,
};
use trin::sync::{block_batches, count_results, SyncError};
use trin::tools::{parse_secret_key, update_value_for_key_text, KeyTextError};
use trin::tools::{in_bucket, progress_prefix, short_node_id, update_ranges, update_value, FLAG};
use trin::utils::{block_hashes_from_bytes, get_client_info};

const ENR_A: &str = "enr:-IS4QBISSFfBzsBrjq61iSIxPMfp5ShBTW6KQUglzH_tj8_SJaehXdlnZI-NAkTGeoclwnTB-pU544BQA44BiDZ2rkMBgmlkgnY0gmlwhKEjVaWJc2VjcDI1NmsxoQOSGugH1jSdiE_fRK1FIBe9oLxaWH8D_7xXSnaOVBe-SYN1ZHCCIyg";

fn node(first: u8) -> NodeId {
    let mut raw = [0u8; 32];
    raw[0] = first;
    NodeId { raw }
}

#[test]
fn test_decode_record_text() {
    let e = Enr::from_text(TRIN_AMS3_1_ENR).unwrap();
    assert_eq!(e.seq(), 2);
    assert_eq!(e.client.as_deref(), Some("t 0.1.1-alpha.1-110f50"));
    assert_eq!(get_client_info(&e), "t 0.1.1-alpha.1-110f50");
    assert_eq!(e.signature.len(), 64);
    assert!(e.text.starts_with("enr:"));
    let again = Enr::from_text(&e.text).unwrap();
    assert_eq!(again, e);
    let a = Enr::from_text(ENR_A).unwrap();
    assert_eq!(a.seq(), 1);
    assert_eq!(a.client, None);
    assert_eq!(get_client_info(&a), "?");
    assert!(a != e);
    assert!(!a.node_id().same(&e.node_id()));
}

#[test]
fn test_decode_rejects_bad_text() {
    assert!(Enr::from_text("invalid").is_none());
    assert!(Enr::from_text("").is_none());
    let mut broken = TRIN_AMS3_1_ENR.to_string();
    broken.truncate(broken.len() - 4);
    assert!(Enr::from_text(&broken).is_none());
}

#[test]
fn test_record_equality_and_copies() {
    let a = Enr { node_id: node(1), seq: 3, signature: vec![1, 2, 3], client: None, text: "x".to_string() };
    let mut b = a.clone();
    assert!(a.same_record(&b));
    b.text = "y".to_string();
    assert_eq!(a, b);
    b.seq = 4;
    assert!(!a.same_record(&b));
    let c = Enr { signature: vec![1, 2, 4], ..a.duplicate() };
    assert!(a != c);
    assert_eq!(copy_bytes(&vec![9, 8, 7]), vec![9, 8, 7]);
}

#[test]
fn test_single_enr_answer() {
    let a = Enr { node_id: node(1), seq: 1, signature: vec![1], client: None, text: String::new() };
    assert_eq!(single_enr(vec![a.clone()]), Ok(a.clone()));
    assert_eq!(single_enr(Vec::new()), Err(0));
    assert_eq!(single_enr(vec![a.clone(), a.clone()]), Err(2));
}

#[test]
fn test_block_batches_cover_range() {
    assert_eq!(block_batches(0, 10, 4, 20), Ok(vec![(0, 3), (4, 7), (8, 10)]));
    assert_eq!(block_batches(5, 5, 3, 5), Ok(vec![(5, 5)]));
    assert_eq!(block_batches(2, 7, 10, 100), Ok(vec![(2, 7)]));
    assert_eq!(
        block_batches(6, 5, 2, 100),
        Err(SyncError::InvalidBlockRange { first: 6, last: 5 })
    );
    assert_eq!(
        block_batches(0, 21, 2, 20),
        Err(SyncError::InvalidBlockRange { first: 0, last: 21 })
    );
}

#[test]
fn test_count_results_counts_found() {
    let content: Vec<(u32, Option<Box<String>>)> =
        vec![(1, Some(Box::new("a".to_string()))), (2, None), (3, Some(Box::new("b".to_string())))];
    assert_eq!(count_results(&content), (2, 1));
    let empty: Vec<(u32, Option<Box<String>>)> = Vec::new();
    assert_eq!(count_results(&empty), (0, 0));
}

#[test]
fn test_content_for_peer_selects_closest_inside_radius() {
    let peer = node(0x10);
    let mut radius_bytes = [0u8; 32];
    radius_bytes[0] = 0x08;
    let radius = Distance { bytes: radius_bytes };
    let mut ids = Vec::new();
    for first in [0x14u8, 0x90, 0x11, 0x18, 0x12] {
        let mut id = [0u8; 32];
        id[0] = first;
        ids.push(id);
    }
    assert_eq!(content_for_peer(&peer, &radius, &ids, 2), vec![2, 4]);
    assert_eq!(content_for_peer(&peer, &radius, &ids, 10), vec![2, 4, 0]);
    assert!(content_for_peer(&peer, &radius, &ids, 0).is_empty());
}

#[test]
fn test_keys_to_fetch_limits() {
    assert_eq!(keys_to_fetch(10, None), 10);
    assert_eq!(keys_to_fetch(10, Some(3)), 3);
    assert_eq!(keys_to_fetch(2, Some(3)), 2);
}

#[test]
fn test_stable_selection_order() {
    let keys = vec![5u32, 1, 5, 0, 3];
    let eligible = vec![true, true, true, false, true];
    assert_eq!(stable_selection(&keys, &eligible, 10), vec![1, 4, 0, 2]);
    assert_eq!(stable_selection(&keys, &eligible, 3), vec![1, 4, 0]);
}

#[test]
fn test_id_set_operations() {
    let mut s = IdSet::new();
    assert_eq!(s.len(), 0);
    assert!(s.insert([1u8; 32]));
    assert!(!s.insert([1u8; 32]));
    assert!(s.insert([2u8; 32]));
    assert_eq!(s.len(), 2);
    assert!(s.contains(&[1u8; 32]));
    assert!(s.remove(&[1u8; 32]));
    assert!(!s.remove(&[1u8; 32]));
    assert!(!s.contains(&[1u8; 32]));
    assert_eq!(s.len(), 1);
}

#[test]
fn test_block_hashes_from_bytes() {
    let mut bytes = Vec::new();
    for i in 0..70u8 {
        bytes.push(i);
    }
    let hashes = block_hashes_from_bytes(&bytes);
    assert_eq!(hashes.len(), 2);
    assert_eq!(hashes[0][0], 0);
    assert_eq!(hashes[0][31], 31);
    assert_eq!(hashes[1][0], 32);
    assert_eq!(hashes[1][31], 63);
}

#[test]
fn test_update_column_values() {
    let mut raw = [0u8; 32];
    raw[0] = 0x01;
    raw[1] = 0x02;
    raw[2] = 0x03;
    raw[3] = 0x04;
    raw[4] = 0xff;
    let id = NodeId { raw };
    assert_eq!(short_node_id(&id), 0x0102_0304);
    assert_eq!(update_value(&id), 0x1_0102_0304);
    assert_eq!(FLAG, 0x1_0000_0000);
    assert!(in_bucket(&node(0x10), 1));
    assert!(in_bucket(&node(0x17), 1));
    assert!(!in_bucket(&node(0x18), 1));
    assert!(!in_bucket(&node(0x10), 2));
    assert!(in_bucket(&node(0x07), 0));
    assert_eq!(progress_prefix(&vec![1, 2]), 0x1200);
    assert_eq!(progress_prefix(&vec![1, 2, 3, 4, 5]), 0x1234);
    assert_eq!(progress_prefix(&Vec::new()), 0);
}

#[test]
fn test_verkle_storage_settings_and_pages() {
    let storage = VerkleStorage::new(PortalStorageConfig {
        storage_capacity_bytes: 1000,
        node_id: node(0x10),
    }, Ok(()))
    .unwrap();
    let cfg = storage.store_config();
    assert_eq!(cfg.content_type, ContentType::Verkle);
    assert_eq!(cfg.network, ProtocolId::Verkle);
    assert_eq!(cfg.storage_capacity_bytes, 1000);
    assert!(cfg.node_id.same(&node(0x10)));
    let page = storage
        .paginate(Ok(PaginateResult { content_keys: vec![1u32, 2], entry_count: 9 }))
        .unwrap();
    assert_eq!(page.content_keys, vec![1, 2]);
    assert_eq!(page.total_entries, 9);
    let failed = storage.paginate::<u32>(Err(ContentStoreError::Database("down".to_string())));
    assert!(failed.is_err());
}

#[test]
fn test_verkle_storage_should_store() {
    let storage = VerkleStorage::new(PortalStorageConfig {
        storage_capacity_bytes: 1000,
        node_id: node(0x10),
    }, Ok(()))
    .unwrap();
    let mut radius_bytes = [0u8; 32];
    radius_bytes[0] = 0x04;
    let radius = Distance { bytes: radius_bytes };
    let mut near = [0u8; 32];
    near[0] = 0x12;
    let mut far = [0u8; 32];
    far[0] = 0x30;
    assert!(storage.is_within_radius(&near, &radius));
    assert!(!storage.is_within_radius(&far, &radius));
    assert_eq!(
        storage.should_store(&far, &radius, Ok(false)).unwrap(),
        ShouldWeStoreContent::NotWithinRadius
    );
    assert_eq!(storage.should_store(&near, &radius, Ok(false)).unwrap(), ShouldWeStoreContent::Store);
    assert_eq!(
        storage.should_store(&near, &radius, Ok(true)).unwrap(),
        ShouldWeStoreContent::AlreadyStored
    );
    assert!(storage
        .should_store(&near, &radius, Err(ContentStoreError::Database("x".to_string())))
        .is_err());
}

#[test]
fn test_batch_hashes_slice() {
    let hashes: Vec<[u8; 32]> = (0..6u8).map(|i| [i; 32]).collect();
    assert_eq!(trin::sync::batch_hashes(&hashes, 1, 3), vec![[1u8; 32], [2u8; 32], [3u8; 32]]);
    assert_eq!(trin::sync::batch_hashes(&hashes, 5, 5), vec![[5u8; 32]]);
}

#[test]
fn test_store_row_fields() {
    let mut id = [0u8; 32];
    id[0] = 0xab;
    id[3] = 0x01;
    assert_eq!(trin::tools::store_row_fields(&id, 10, 100), (0xab00_0001, 142));
    assert_eq!(trin::tools::CACHE_SIZE, 10_000_000);
}

#[test]
fn test_find_nodes_request_distances() {
    let a = node(0x00);
    assert_eq!(find_nodes_request_distances(&a, &a), vec![0, 1, 2, 3]);
    assert_eq!(find_nodes_request_distances(&a, &node(0x80)), vec![256, 255, 254, 253]);
    let mut raw = [0u8; 32];
    raw[31] = 0x04;
    assert_eq!(find_nodes_request_distances(&a, &NodeId { raw }), vec![3, 2, 1, 0, 4, 5, 6]);
}

#[test]
fn test_pong_payloads() {
    match pong_payload(PingRequestKind::Capabilities) {
        PongPayload::Capabilities { radius, capabilities } => {
            assert_eq!(radius.bytes, [0u8; 32]);
            assert_eq!(
                capabilities,
                vec![PingExtensionKind::Capabilities, PingExtensionKind::HistoryRadius, PingExtensionKind::Error]
            );
        }
        other => panic!("unexpected payload {:?}", other),
    }
    match pong_payload(PingRequestKind::HistoryRadius) {
        PongPayload::HistoryRadius { radius, ephemeral_header_count } => {
            assert_eq!(radius.bytes, [0u8; 32]);
            assert_eq!(ephemeral_header_count, 0);
        }
        other => panic!("unexpected payload {:?}", other),
    }
    assert!(matches!(pong_payload(PingRequestKind::BasicRadius), PongPayload::BasicRadius { .. }));
    assert!(matches!(
        pong_payload(PingRequestKind::Unsupported),
        PongPayload::Error(PingErrorKind::ExtensionNotSupported)
    ));
    assert!(matches!(
        pong_payload(PingRequestKind::Undecodable),
        PongPayload::Error(PingErrorKind::FailedToDecodePayload)
    ));
}

#[test]
fn test_subnetwork_endpoint_names() {
    assert_eq!(<StateEndpoint<u32, u32, u32> as SubnetworkEndpoint>::subnetwork(), "state");
    assert_eq!(
        <LegacyHistoryEndpoint<u32, u32, u32> as SubnetworkEndpoint>::subnetwork(),
        "legacy_history"
    );
    assert_eq!(<BeaconEndpoint<u32, u32, u32> as SubnetworkEndpoint>::subnetwork(), "beacon");
    let e: StateEndpoint<u32, u32, u32> = StateEndpoint::PaginateLocalContentKeys(0, 10);
    assert_eq!(e.clone(), StateEndpoint::PaginateLocalContentKeys(0, 10));
    assert_ne!(Discv5Endpoint::NodeInfo, Discv5Endpoint::RoutingTableInfo);
    let get: BeaconEndpoint<u32, u32, u32> = BeaconEndpoint::GetEnr(node(3));
    assert_eq!(get, BeaconEndpoint::GetEnr(node(3)));
}

fn repeated_with_last(fill: u8, first: u8, last: u8) -> [u8; 32] {
    let mut b = [fill; 32];
    b[0] = first;
    b[31] = last;
    b
}

#[test]
fn test_update_ranges_cover_id_space() {
    let max = [0xffu8; 32];
    assert_eq!(update_ranges(1), vec![([0u8; 32], max)]);
    let two = update_ranges(2);
    assert_eq!(two.len(), 2);
    assert_eq!(two[0], ([0u8; 32], repeated_with_last(0xff, 0x7f, 0xff)));
    assert_eq!(two[1], (repeated_with_last(0x00, 0x80, 0x00), max));
    let three = update_ranges(3);
    assert_eq!(three.len(), 3);
    assert_eq!(three[0], ([0u8; 32], [0x55u8; 32]));
    assert_eq!(three[1], (repeated_with_last(0x55, 0x55, 0x56), repeated_with_last(0xaa, 0xaa, 0xab)));
    assert_eq!(three[2], (repeated_with_last(0xaa, 0xaa, 0xac), max));
}

#[test]
fn test_verkle_storage_creation_error_passes_on() {
    let r = VerkleStorage::new(
        PortalStorageConfig { storage_capacity_bytes: 1, node_id: node(1) },
        Err(ContentStoreError::Database("no db".to_string())),
    );
    match r {
        Err(ContentStoreError::Database(text)) => assert_eq!(text, "no db"),
        Ok(_) => panic!("expected an error"),
    }
}

fn expected_update_value(key: [u8; 32]) -> u64 {
    let mut bytes = key;
    let secret = discv5::enr::CombinedKey::secp256k1_from_bytes(&mut bytes).unwrap();
    let raw = discv5::Enr::empty(&secret).unwrap().node_id().raw();
    FLAG + u32::from_be_bytes([raw[0], raw[1], raw[2], raw[3]]) as u64
}

#[test]
fn test_update_value_for_key() {
    let key = [7u8; 32];
    let expected = expected_update_value(key);
    assert_eq!(trin::tools::update_value_for_key(&key), Some(expected));
    assert!(expected >= FLAG);
    assert_ne!(expected, update_value(&NodeId { raw: key }));
    assert_eq!(trin::tools::update_value_for_key(&[0u8; 32]), None);
}

#[test]
fn test_update_value_for_key_text() {
    let text = "0707070707070707070707070707070707070707070707070707070707070707";
    assert_eq!(parse_secret_key(text), Some([7u8; 32]));
    assert_eq!(parse_secret_key(&format!("  0x{}\n", text.to_uppercase())), Some([7u8; 32]));
    let mixed = format!("ab{}", &text[2..]);
    let mut expected_key = [7u8; 32];
    expected_key[0] = 0xab;
    assert_eq!(parse_secret_key(&mixed), Some(expected_key));
    assert_eq!(parse_secret_key(&text[1..]), None);
    assert_eq!(parse_secret_key(&format!("{}g", &text[1..])), None);
    assert_eq!(parse_secret_key(""), None);
    assert_eq!(update_value_for_key_text(&format!("{text}\n")), Ok(expected_update_value([7u8; 32])));
    assert_eq!(update_value_for_key_text("xyz"), Err(KeyTextError::InvalidHex));
    assert_eq!(update_value_for_key_text(&"0".repeat(64)), Err(KeyTextError::InvalidKey));
}

#[test]
fn test_paginate_passes_store_error_on() {
    let storage = VerkleStorage::new(
        PortalStorageConfig { storage_capacity_bytes: 1, node_id: node(1) },
        Ok(()),
    )
    .unwrap();
    match storage.paginate::<u32>(Err(ContentStoreError::Database("locked".to_string()))) {
        Err(ContentStoreError::Database(text)) => assert_eq!(text, "locked"),
        Ok(_) => panic!("expected the store's error"),
    }
}

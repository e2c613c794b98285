use trin::distance::{bytes32_eq, Distance, NodeId, XorMetric};
use trin::protocol::{find_nodes_distances, FIND_NODES_MAX_DISTANCE_DIFFERENCE};

fn bytes_with(pairs: &[(usize, u8)]) -> [u8; 32] {
    let mut b = [0u8; 32];
    for (i, v) in pairs {
        b[*i] = *v;
    }
    b
}

#[test]
fn test_xor_distance_bytes() {
    let a = bytes_with(&[(0, 0x12), (31, 0xff)]);
    let b = bytes_with(&[(0, 0x34), (31, 0x0f)]);
    let d = XorMetric::distance(&a, &b);
    assert_eq!(d.bytes, bytes_with(&[(0, 0x26), (31, 0xf0)]));
    assert_eq!(d.big_endian_u32(), 0x2600_0000);
    let same = XorMetric::distance(&a, &a);
    assert_eq!(same.bytes, [0u8; 32]);
}

#[test]
fn test_distance_order() {
    let small = Distance { bytes: bytes_with(&[(31, 5)]) };
    let large = Distance { bytes: bytes_with(&[(30, 1)]) };
    assert!(small.le(&large));
    assert!(small.lt(&large));
    assert!(!large.le(&small));
    assert!(small.le(&small));
    assert!(!small.lt(&small));
    assert!(Distance::zero().le(&small));
    assert_eq!(Distance::zero().bytes, [0u8; 32]);
}

#[test]
fn test_big_endian_prefix() {
    let d = Distance { bytes: bytes_with(&[(0, 0x01), (1, 0x02), (2, 0x03), (3, 0x04), (4, 0xff)]) };
    assert_eq!(d.big_endian_u32(), 0x0102_0304);
}

#[test]
fn test_node_id_and_byte_equality() {
    let a = NodeId { raw: bytes_with(&[(3, 7)]) };
    let b = NodeId { raw: bytes_with(&[(3, 7)]) };
    let c = NodeId { raw: bytes_with(&[(3, 8)]) };
    assert!(a.same(&b));
    assert!(!a.same(&c));
    assert!(bytes32_eq(&a.raw, &b.raw));
    assert!(!bytes32_eq(&a.raw, &c.raw));
}

#[test]
fn test_log2_of_distances() {
    assert_eq!(Distance::zero().log2(), None);
    assert_eq!(Distance { bytes: bytes_with(&[(31, 1)]) }.log2(), Some(1));
    assert_eq!(Distance { bytes: bytes_with(&[(31, 0x80)]) }.log2(), Some(8));
    assert_eq!(Distance { bytes: bytes_with(&[(30, 1)]) }.log2(), Some(9));
    assert_eq!(Distance { bytes: bytes_with(&[(0, 0x80)]) }.log2(), Some(256));
    assert_eq!(Distance { bytes: [0xff; 32] }.log2(), Some(256));
}

#[test]
fn test_find_nodes_distances() {
    assert_eq!(FIND_NODES_MAX_DISTANCE_DIFFERENCE, 3);
    assert_eq!(find_nodes_distances(0), vec![0, 1, 2, 3]);
    assert_eq!(find_nodes_distances(2), vec![2, 1, 0, 3, 4, 5]);
    assert_eq!(find_nodes_distances(100), vec![100, 99, 98, 97, 101, 102, 103]);
    assert_eq!(find_nodes_distances(255), vec![255, 254, 253, 252, 256]);
    assert_eq!(find_nodes_distances(256), vec![256, 255, 254, 253]);
}

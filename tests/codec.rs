use sled_snapshots::delta_set::{encode_delta_seq, RawDeltaSet};
use sled_snapshots::version_forest::version_of_key;
use sled_snapshots::version_node::{RawVersionNode, VersionNode};
use sled_snapshots::{Delta, NULL_VERSION};

fn decode_all(bytes: &[u8]) -> Vec<Delta<Vec<u8>>> {
    let raw_deltas = RawDeltaSet::new(bytes);
    let mut it = raw_deltas.iter_deltas();
    let mut decoded = Vec::new();
    while !it.at_end() {
        let d = it.next().expect("a complete delta");
        decoded.push(d.to_delta());
    }
    decoded
}

#[test]
fn deltas_encode_decode_round_trip() {
    let deltas = [
        Delta::Insert(b"key1".to_vec(), b"value1".to_vec()),
        Delta::Insert(b"key2".to_vec(), b"value2".to_vec()),
        Delta::Remove(b"key3".to_vec()),
    ];

    let mut bytes = Vec::new();
    for delta in deltas.iter() {
        delta.encode(&mut bytes);
    }

    let decoded_deltas = decode_all(&bytes);
    assert_eq!(decoded_deltas, deltas);
}

#[test]
fn delta_encoding_is_byte_exact() {
    let mut bytes = Vec::new();
    Delta::Insert(b"ab".to_vec(), b"xyz".to_vec()).encode(&mut bytes);
    assert_eq!(
        bytes,
        vec![0, 0, 0, 0, 0, 0, 0, 2, 0, 0, 0, 0, 0, 0, 0, 3, b'a', b'b', b'x', b'y', b'z']
    );
    let mut bytes = Vec::new();
    Delta::Remove(b"k".to_vec()).encode(&mut bytes);
    assert_eq!(bytes, vec![0, 0, 0, 0, 0, 0, 0, 1, 0, 0, 0, 0, 0, 0, 0, 0, b'k']);
}

#[test]
fn encoded_size_counts_header_key_and_value() {
    assert_eq!(Delta::Insert(b"ab".to_vec(), b"xyz".to_vec()).encoded_size(), 21);
    assert_eq!(Delta::Remove(b"ab".to_vec()).encoded_size(), 18);
}

#[test]
fn insert_of_empty_value_reads_back_as_remove() {
    let bytes = encode_delta_seq(&[Delta::Insert(b"k".to_vec(), Vec::new())]);
    assert_eq!(decode_all(&bytes), vec![Delta::Remove(b"k".to_vec())]);
}

#[test]
fn empty_delta_set_decodes_to_nothing() {
    let bytes = encode_delta_seq(&[]);
    assert!(bytes.is_empty());
    assert_eq!(RawDeltaSet::new(&bytes).to_deltas(), Some(Vec::new()));
}

#[test]
fn truncated_delta_set_is_rejected() {
    let mut bytes = encode_delta_seq(&[Delta::Insert(b"key".to_vec(), b"value".to_vec())]);
    bytes.pop();
    assert_eq!(RawDeltaSet::new(&bytes).to_deltas(), None);
    let mut it = RawDeltaSet::new(&bytes).iter_deltas();
    assert!(it.next().is_none());
    assert_eq!(RawDeltaSet::new(&bytes[..10]).to_deltas(), None);
}

#[test]
fn delta_map_applies_to_key_and_value() {
    let d = Delta::Insert(b"a".to_vec(), b"bc".to_vec());
    assert_eq!(d.map(|b| b.len()), Delta::Insert(1, 2));
    let d = Delta::Remove(b"abc".to_vec());
    assert_eq!(d.map(|b| b.len()), Delta::Remove(3));
}

#[test]
fn version_node_encoding_round_trip() {
    let node = VersionNode { parent: Some(7), children: vec![1, 2, 0x0102030405060708] };
    let bytes = node.to_bytes();
    assert_eq!(bytes.len(), node.encoded_size());
    assert_eq!(&bytes[..8], &[0, 0, 0, 0, 0, 0, 0, 7]);
    assert_eq!(&bytes[8..16], &[0, 0, 0, 0, 0, 0, 0, 3]);
    assert_eq!(&bytes[32..40], &[1, 2, 3, 4, 5, 6, 7, 8]);
    let raw = RawVersionNode::new(&bytes).expect("well formed");
    assert_eq!(raw.parent(), Some(7));
    assert_eq!(raw.num_children(), 3);
    assert_eq!(raw.iter_children(), vec![1, 2, 0x0102030405060708]);
    assert_eq!(raw.range(), 0..40);
}

#[test]
fn orphan_node_stores_null_parent() {
    let node = VersionNode::new_orphan();
    assert_eq!(node.parent_be_bytes(), NULL_VERSION.to_be_bytes().to_vec());
    let bytes = node.to_bytes();
    let raw = RawVersionNode::new(&bytes).expect("well formed");
    assert_eq!(raw.parent(), None);
    assert_eq!(raw.num_children(), 0);
    let node = VersionNode::new_maybe_with_parent(Some(3));
    assert_eq!(node.parent, Some(3));
    assert!(node.children.is_empty());
}

#[test]
fn node_with_too_many_children_is_rejected() {
    let mut bytes = VersionNode::new_with_parent(1).to_bytes();
    bytes[15] = 1;
    assert!(RawVersionNode::new(&bytes).is_none());
    assert!(RawVersionNode::new(&bytes[..15]).is_none());
}

#[test]
fn version_keys_are_big_endian() {
    assert_eq!(version_of_key(&[0, 0, 0, 0, 0, 0, 1, 2]), Some(258));
    assert_eq!(version_of_key(&[1, 2]), None);
}

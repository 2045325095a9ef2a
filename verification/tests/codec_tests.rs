use btree_storage::codec::{INTERNAL_NODE_TAG, LEAF_NODE_TAG};
use btree_storage::error::Error;
use btree_storage::node::{Key, KeyValuePair, Node, NodeType, Offset};
use btree_storage::page::{Page, IS_ROOT_OFFSET, KEY_SIZE, LEAF_NODE_HEADER_SIZE,
    LEAF_NODE_NUM_PAIRS_OFFSET, NODE_TYPE_OFFSET, PAGE_SIZE, VALUE_SIZE};

fn pair(k: &[u8], v: &[u8]) -> KeyValuePair {
    KeyValuePair::new(k.to_vec(), v.to_vec())
}

#[test]
fn round_trip_leaf() {
    let node = Node::new(
        NodeType::Leaf(vec![pair(b"apple", b"1"), pair(b"banana", b"2"), pair(b"cherry", b"3")]),
        true,
        None,
    );
    let page = Page::try_from(&node).expect("leaf must encode");
    let back = Node::try_from(&page).expect("page must decode");
    assert_eq!(back, node);
}

#[test]
fn round_trip_internal() {
    let node = Node::new(
        NodeType::Internal(
            vec![Offset(3), Offset(9), Offset(12)],
            vec![Key(b"carrot".to_vec()), Key(b"potato".to_vec())],
        ),
        false,
        Some(Offset(7)),
    );
    let page = Page::try_from(&node).expect("internal must encode");
    let back = Node::try_from(&page).expect("page must decode");
    assert_eq!(back, node);
}

#[test]
fn round_trip_empty_leaf() {
    let node = Node::new(NodeType::Leaf(Vec::new()), true, None);
    let page = Page::try_from(&node).expect("empty leaf must encode");
    let back = Node::try_from(&page).expect("page must decode");
    assert_eq!(back, node);
}

#[test]
fn corrupt_tag_byte_is_invalid_node_type() {
    let mut page = Page::new();
    page.set_byte(NODE_TYPE_OFFSET, 0xFF);
    assert_eq!(Node::try_from(&page).unwrap_err(), Error::InvalidNodeType);
}

#[test]
fn tag_bytes_are_fixed() {
    assert_eq!(INTERNAL_NODE_TAG, 0);
    assert_eq!(LEAF_NODE_TAG, 1);
}

#[test]
fn encode_rejects_long_key() {
    let long = vec![7u8; KEY_SIZE + 1];
    let node = Node::new(NodeType::Leaf(vec![pair(&long, b"1")]), true, None);
    assert_eq!(Page::try_from(&node).unwrap_err(), Error::KeyTooLong);
}

#[test]
fn encode_rejects_long_value() {
    let long = vec![7u8; VALUE_SIZE + 1];
    let node = Node::new(NodeType::Leaf(vec![pair(b"k", &long)]), true, None);
    assert_eq!(Page::try_from(&node).unwrap_err(), Error::ValueTooLong);
}

#[test]
fn encode_rejects_missing_parent() {
    let node = Node::new(NodeType::Leaf(vec![pair(b"k", b"v")]), false, None);
    assert_eq!(Page::try_from(&node).unwrap_err(), Error::MissingParent);
}

#[test]
fn encode_rejects_oversized_body() {
    let mut pairs = Vec::new();
    for i in 0..128u32 {
        pairs.push(pair(format!("key{:04}", i + 1).as_bytes(), b"v"));
    }
    let node = Node::new(NodeType::Leaf(pairs), true, None);
    assert_eq!(Page::try_from(&node).unwrap_err(), Error::OutOfBounds);
}

#[test]
fn page_value_round_trip_is_big_endian() {
    let mut page = Page::new();
    page.set_value_at_offset(10, 8, 0x0102_0304_0506_0708).unwrap();
    assert_eq!(page.get_value_from_offset(10, 8).unwrap(), 0x0102_0304_0506_0708);
    assert_eq!(page.get_byte(10), 0x01);
    assert_eq!(page.get_byte(17), 0x08);
}

#[test]
fn page_accessors_check_bounds() {
    let mut page = Page::new();
    assert_eq!(page.get_value_from_offset(PAGE_SIZE - 7, 8).unwrap_err(), Error::OutOfBounds);
    assert_eq!(page.set_value_at_offset(PAGE_SIZE - 7, 8, 1).unwrap_err(), Error::OutOfBounds);
    assert_eq!(page.get_ptr_from_offset(PAGE_SIZE - 3, 4).unwrap_err(), Error::OutOfBounds);
    assert_eq!(page.set_range(PAGE_SIZE - 1, &vec![1, 2]).unwrap_err(), Error::OutOfBounds);
}

#[test]
fn page_value_too_large_for_width() {
    let mut page = Page::new();
    assert_eq!(page.set_value_at_offset(0, 1, 256).unwrap_err(), Error::ValueTooLarge);
    assert!(page.set_value_at_offset(0, 1, 255).is_ok());
    assert_eq!(page.get_value_from_offset(0, 1).unwrap(), 255);
}

#[test]
fn non_utf8_key_slot_is_encoding_error() {
    let mut page = Page::new();
    page.set_byte(NODE_TYPE_OFFSET, LEAF_NODE_TAG);
    page.set_byte(IS_ROOT_OFFSET, 1);
    page.set_value_at_offset(LEAF_NODE_NUM_PAIRS_OFFSET, 8, 1).unwrap();
    page.set_byte(LEAF_NODE_HEADER_SIZE, 0xFF);
    assert_eq!(Node::try_from(&page).unwrap_err(), Error::EncodingError);
}

#[test]
fn utf8_key_slot_decodes() {
    let mut page = Page::new();
    page.set_byte(NODE_TYPE_OFFSET, LEAF_NODE_TAG);
    page.set_byte(IS_ROOT_OFFSET, 1);
    page.set_value_at_offset(LEAF_NODE_NUM_PAIRS_OFFSET, 8, 1).unwrap();
    // "é" in UTF-8, then zero padding; the value slot stays all-zero.
    page.set_byte(LEAF_NODE_HEADER_SIZE, 0xC3);
    page.set_byte(LEAF_NODE_HEADER_SIZE + 1, 0xA9);
    let node = Node::try_from(&page).expect("well-formed UTF-8 must decode");
    match node.node_type {
        NodeType::Leaf(pairs) => {
            assert_eq!(pairs.len(), 1);
            assert_eq!(pairs[0].key, vec![0xC3, 0xA9]);
            assert_eq!(pairs[0].value, Vec::<u8>::new());
        }
        NodeType::Internal(..) => panic!("expected a leaf"),
    }
}

#[test]
fn encode_rejects_non_utf8_round_trip_input() {
    // A lone continuation byte is never valid UTF-8; the encoder accepts the
    // node (lengths fit) but the decoder reports the malformed slot.
    let node = Node::new(NodeType::Leaf(vec![pair(&[0xBF], b"v")]), true, None);
    let page = Page::try_from(&node).expect("sizes fit, so encoding succeeds");
    assert_eq!(Node::try_from(&page).unwrap_err(), Error::EncodingError);
}

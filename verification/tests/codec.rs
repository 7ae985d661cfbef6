use btree_store::error::Error;
use btree_store::key::{compare_keys, fits, has_no_nul, KeyOrder};
use btree_store::node::{TreeKey, TreeNode};
use btree_store::page::{encode_member, size_on_disk};

fn entry(key: &str, value: &str) -> TreeKey {
    TreeKey::new(key.as_bytes(), value.as_bytes())
}

fn node(index: u32, max_members: u32, members: Vec<TreeKey>, children: Vec<u32>) -> TreeNode {
    TreeNode { index, max_members, members, children }
}

#[test]
fn serialize_to_and_from_disk() {
    let mut root = TreeNode::new(0, 5);
    root.members = vec![entry("key1", "value1")];
    root.children = vec![1, 2];
    assert!(root.fits_page(4096));
    let page = root.encode(4096);
    let back = TreeNode::decode(&page, 5, 0x1000, 0).unwrap();
    assert_eq!(back.members.len(), 1);
    assert_eq!(back.children.len(), 2);
    assert_eq!(back, root);

    // Three children beside one entry is no shape of a node: such a node is
    // not written, and a page that claims it is not read.
    root.children = vec![1, 2, 3];
    assert!(!root.fits_page(4096));
    let mut bad = page.clone();
    bad[0] = 3;
    bad[16] = 3;
    assert_eq!(TreeNode::decode(&bad, 5, 4096, 0), Err(Error::Corrupt));
}

#[test]
fn size_on_disk_follows_the_layout() {
    assert_eq!(size_on_disk(5, 4096), Some(8 + 4 * 6 + 2 * 4096 * 5));
    assert_eq!(size_on_disk(5, 4096), Some(40992));
    assert_eq!(size_on_disk(5, 8), Some(112));
    assert_eq!(size_on_disk(1, 0), Some(16));
    assert_eq!(size_on_disk(0, 7), Some(12));
}

#[test]
fn size_on_disk_refuses_what_cannot_be_addressed() {
    if usize::BITS == 64 {
        assert_eq!(size_on_disk(u32::MAX, u32::MAX), None);
        assert_eq!(
            size_on_disk(u32::MAX, 1),
            Some(8 + 4 * (u32::MAX as usize + 1) + 2 * (u32::MAX as usize))
        );
    }
}

#[test]
fn encode_lays_out_a_leaf_byte_by_byte() {
    let leaf = node(0, 2, vec![entry("ab", "c")], vec![]);
    let page = leaf.encode(3);
    let expected: Vec<u8> = vec![
        0, 0, 0, 0, // children
        1, 0, 0, 0, // entries
        0, 0, 0, 0, 0, 0, 0, 0, 0, 0, 0, 0, // three empty child slots
        b'a', b'b', 0, b'c', 0, 0, // first entry
        0, 0, 0, 0, 0, 0, // second slot, empty
    ];
    assert_eq!(page, expected);
    assert_eq!(page.len(), size_on_disk(2, 3).unwrap());
}

#[test]
fn encode_writes_numbers_least_significant_byte_first() {
    let inner = node(7, 2, vec![entry("k", "v")], vec![0x0102_0304, 0xa0b0_c0d0]);
    let page = inner.encode(1);
    assert_eq!(&page[0..4], &[2, 0, 0, 0]);
    assert_eq!(&page[4..8], &[1, 0, 0, 0]);
    assert_eq!(&page[8..12], &[0x04, 0x03, 0x02, 0x01]);
    assert_eq!(&page[12..16], &[0xd0, 0xc0, 0xb0, 0xa0]);
    assert_eq!(&page[16..20], &[0, 0, 0, 0]);
    assert_eq!(&page[20..24], &[b'k', b'v', 0, 0]);
    let back = TreeNode::decode(&page, 2, 1, 7).unwrap();
    assert_eq!(back.children, vec![0x0102_0304, 0xa0b0_c0d0]);
    assert_eq!(back.index, 7);
    assert_eq!(back.max_members, 2);
}

#[test]
fn decode_gives_back_what_encode_was_given() {
    let nodes = vec![
        node(0, 5, vec![], vec![]),
        node(1, 5, vec![entry("a", "1")], vec![]),
        node(2, 5, vec![entry("a", "1"), entry("b", "")], vec![9, 8, 7]),
        node(
            3,
            5,
            vec![
                entry("12345678", "abcdefgh"),
                entry("b", "2"),
                entry("c", "3"),
                entry("d", "4"),
                entry("", "5"),
            ],
            vec![6, 5, 4, 3, 2, 1],
        ),
    ];
    for n in nodes {
        assert!(n.fits_page(8));
        let page = n.encode(8);
        assert_eq!(page.len(), 112);
        assert_eq!(TreeNode::decode(&page, 5, 8, n.index), Ok(n));
    }
}

#[test]
fn encoding_twice_gives_the_same_bytes() {
    let n = node(2, 4, vec![entry("left", "1"), entry("right", "2")], vec![3, 4, 5]);
    assert_eq!(n.encode(16), n.encode(16));
    let copy = n.clone();
    assert_eq!(copy.encode(16), n.encode(16));
}

#[test]
fn decode_refuses_a_page_of_the_wrong_size() {
    let page = node(0, 2, vec![], vec![]).encode(3);
    assert_eq!(TreeNode::decode(&page[1..], 2, 3, 0), Err(Error::Corrupt));
    assert_eq!(TreeNode::decode(&page, 3, 3, 0), Err(Error::Corrupt));
    assert_eq!(TreeNode::decode(&[], 2, 3, 0), Err(Error::Corrupt));
}

#[test]
fn decode_refuses_more_entries_than_the_fan_out() {
    let mut page = node(0, 2, vec![entry("a", "1"), entry("b", "2")], vec![]).encode(3);
    page[4] = 3;
    assert_eq!(TreeNode::decode(&page, 2, 3, 0), Err(Error::Corrupt));
}

#[test]
fn decode_refuses_children_that_do_not_fit_the_entries() {
    let good = node(0, 3, vec![entry("a", "1"), entry("b", "2")], vec![4, 5, 6]).encode(3);
    for count in [1u8, 2, 4] {
        let mut page = good.clone();
        page[0] = count;
        assert_eq!(TreeNode::decode(&page, 3, 3, 0), Err(Error::Corrupt));
    }
    let mut leaf = good.clone();
    leaf[0] = 0;
    assert_eq!(TreeNode::decode(&leaf, 3, 3, 0).unwrap().children, Vec::<u32>::new());
}

#[test]
fn decode_refuses_a_zero_byte_inside_a_field() {
    let good = node(0, 1, vec![entry("abc", "xyz")], vec![]).encode(4);
    let key_at = 8 + 4 * 2;
    let mut page = good.clone();
    page[key_at + 1] = 0;
    assert_eq!(TreeNode::decode(&page, 1, 4, 0), Err(Error::Corrupt));
    let mut page = good.clone();
    page[key_at + 4] = 0;
    assert_eq!(TreeNode::decode(&page, 1, 4, 0), Err(Error::Corrupt));
    // A zero at the end only shortens the content.
    let mut page = good.clone();
    page[key_at + 2] = 0;
    assert_eq!(TreeNode::decode(&page, 1, 4, 0).unwrap().members[0].key, b"ab".to_vec());
}

#[test]
fn decode_does_not_read_unused_slots() {
    let mut page = node(0, 2, vec![entry("a", "1")], vec![]).encode(2);
    let second_slot = 8 + 4 * 3 + 4;
    page[second_slot] = 0xff;
    page[8] = 0xff;
    let back = TreeNode::decode(&page, 2, 2, 0).unwrap();
    assert_eq!(back.members, vec![entry("a", "1")]);
    assert!(back.children.is_empty());
}

#[test]
fn fits_page_tells_what_a_page_can_hold() {
    assert!(node(0, 2, vec![entry("ab", "cd")], vec![]).fits_page(2));
    assert!(!node(0, 2, vec![entry("abc", "cd")], vec![]).fits_page(2));
    assert!(!node(0, 2, vec![entry("ab", "cde")], vec![]).fits_page(2));
    assert!(!node(0, 2, vec![TreeKey::new(&[1, 0], b"x")], vec![]).fits_page(2));
    assert!(!node(0, 2, vec![TreeKey::new(b"x", &[0])], vec![]).fits_page(2));
    assert!(!node(0, 1, vec![entry("a", "1"), entry("b", "2")], vec![]).fits_page(2));
    assert!(!node(0, 2, vec![entry("a", "1")], vec![1]).fits_page(2));
    assert!(node(0, 2, vec![entry("a", "1")], vec![1, 2]).fits_page(2));
    assert!(!node(0, u32::MAX, vec![], vec![]).fits_page(2));
}

#[test]
fn encode_member_pads_both_fields() {
    let mut out = vec![9u8];
    encode_member(&mut out, &entry("ab", "c"), 4);
    assert_eq!(out, vec![9, b'a', b'b', 0, 0, b'c', 0, 0, 0]);
    let e = entry("k", "v");
    assert!(e.fits_field(1));
    assert!(!e.fits_field(0));
}

#[test]
fn keys_are_ordered_byte_by_byte() {
    assert_eq!(compare_keys(b"a", b"b"), KeyOrder::Less);
    assert_eq!(compare_keys(b"b", b"a"), KeyOrder::Greater);
    assert_eq!(compare_keys(b"abc", b"abc"), KeyOrder::Equal);
    assert_eq!(compare_keys(b"ab", b"abc"), KeyOrder::Less);
    assert_eq!(compare_keys(b"abc", b"ab"), KeyOrder::Greater);
    assert_eq!(compare_keys(b"", b""), KeyOrder::Equal);
    assert_eq!(compare_keys(b"", b"a"), KeyOrder::Less);
    assert_eq!(compare_keys(&[0x7f], &[0x80]), KeyOrder::Less);
    assert_eq!(compare_keys(b"Z", b"a"), KeyOrder::Less);
    assert_eq!(compare_keys(b"10", b"9"), KeyOrder::Less);
}

#[test]
fn fits_and_has_no_nul_test_a_field_content() {
    assert!(fits(b"abcd", 4));
    assert!(!fits(b"abcde", 4));
    assert!(fits(b"", 0));
    assert!(has_no_nul(b"abc"));
    assert!(has_no_nul(b""));
    assert!(!has_no_nul(&[b'a', 0, b'b']));
    assert!(!has_no_nul(&[0]));
}

#[test]
fn position_finds_the_rank_of_a_key() {
    let n = node(0, 5, vec![entry("b", "1"), entry("d", "2"), entry("f", "3")], vec![]);
    assert_eq!(n.position(b"a"), (0, false));
    assert_eq!(n.position(b"b"), (0, true));
    assert_eq!(n.position(b"c"), (1, false));
    assert_eq!(n.position(b"d"), (1, true));
    assert_eq!(n.position(b"e"), (2, false));
    assert_eq!(n.position(b"f"), (2, true));
    assert_eq!(n.position(b"g"), (3, false));
    assert_eq!(TreeNode::new(0, 5).position(b"x"), (0, false));
}

#[test]
fn node_insert_keeps_the_entries_in_order() {
    let mut n = TreeNode::new(3, 5);
    assert!(n.is_leaf());
    for (k, v) in [("m", "1"), ("c", "2"), ("x", "3"), ("a", "4"), ("p", "5")] {
        n.insert(k.as_bytes(), v.as_bytes());
    }
    let keys: Vec<&[u8]> = n.members.iter().map(|e| e.key.as_slice()).collect();
    assert_eq!(keys, vec![&b"a"[..], b"c", b"m", b"p", b"x"]);
    n.insert(b"m", b"again");
    assert_eq!(n.members.len(), 5);
    assert_eq!(n.members[2], entry("m", "again"));
    assert_eq!(n.index, 3);
    assert_eq!(n.max_members, 5);
}

#[test]
fn node_split_parts_a_node_round_its_middle() {
    let mut n = node(
        4,
        5,
        vec![
            entry("a", "1"),
            entry("b", "2"),
            entry("c", "3"),
            entry("d", "4"),
            entry("e", "5"),
            entry("f", "6"),
        ],
        vec![10, 11, 12, 13, 14, 15, 16],
    );
    let (up, right) = n.split(9);
    assert_eq!(up, entry("d", "4"));
    assert_eq!(n.members, vec![entry("a", "1"), entry("b", "2"), entry("c", "3")]);
    assert_eq!(n.children, vec![10, 11, 12, 13]);
    assert_eq!(right.members, vec![entry("e", "5"), entry("f", "6")]);
    assert_eq!(right.children, vec![14, 15, 16]);
    assert_eq!(right.index, 9);
    assert_eq!(right.max_members, 5);
    assert_eq!(n.index, 4);

    let mut leaf = node(0, 1, vec![entry("a", "1"), entry("b", "2")], vec![]);
    let (up, right) = leaf.split(1);
    assert_eq!(up, entry("b", "2"));
    assert_eq!(leaf.members, vec![entry("a", "1")]);
    assert!(right.members.is_empty());
    assert!(right.is_leaf());
}

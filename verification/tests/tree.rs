use btree_store::btree::{BTree, DEFAULT_CAPACITY, DEFAULT_MAX_MEMBERS};
use btree_store::image::HEADER_SIZE;
use btree_store::error::Error;
use btree_store::key::{compare_keys, KeyOrder};
use btree_store::node::{TreeKey, TreeNode};
use btree_store::page::size_on_disk;

fn filled(max_members: u32, capacity: u32, pairs: &[(&str, &str)]) -> BTree {
    let mut tree = BTree::create(max_members, capacity).unwrap();
    for (k, v) in pairs {
        tree.insert(k.as_bytes(), v.as_bytes()).unwrap();
    }
    tree
}

fn value(tree: &BTree, key: &str) -> Option<String> {
    tree.get(key.as_bytes()).unwrap().map(|v| String::from_utf8(v).unwrap())
}

/// Walks the subtree under `page` and tests what holds of every node; gives
/// back the number of entries seen.
fn walk(
    tree: &BTree,
    page: u32,
    depth: u32,
    lo: Option<&[u8]>,
    hi: Option<&[u8]>,
    seen: &mut Vec<u32>,
) -> usize {
    assert!(!seen.contains(&page), "page {} is reached twice", page);
    seen.push(page);
    let node = tree.node(page).unwrap();
    let m = tree.max_members() as usize;
    assert!(node.members.len() <= m);
    if page != tree.root() {
        assert!(node.members.len() + 1 >= (m + 1) / 2, "node {} is too empty", page);
    }
    for pair in node.members.windows(2) {
        assert_eq!(compare_keys(&pair[0].key, &pair[1].key), KeyOrder::Less);
    }
    for e in &node.members {
        if let Some(lo) = lo {
            assert_eq!(compare_keys(lo, &e.key), KeyOrder::Less);
        }
        if let Some(hi) = hi {
            assert_eq!(compare_keys(&e.key, hi), KeyOrder::Less);
        }
    }
    let mut count = node.members.len();
    if node.is_leaf() {
        assert_eq!(depth, tree.height(), "leaf {} is at the wrong depth", page);
    } else {
        assert!(depth < tree.height());
        assert_eq!(node.children.len(), node.members.len() + 1);
        for (i, child) in node.children.iter().enumerate() {
            let lo = if i == 0 { lo } else { Some(node.members[i - 1].key.as_slice()) };
            let hi = if i == node.members.len() { hi } else { Some(node.members[i].key.as_slice()) };
            count += walk(tree, *child, depth + 1, lo, hi, seen);
        }
    }
    count
}

fn inspect(tree: &BTree) -> usize {
    assert!(tree.is_well_formed());
    let mut seen = Vec::new();
    let count = walk(tree, tree.root(), 0, None, None, &mut seen);
    assert_eq!(seen.len(), tree.page_count());
    count
}

#[test]
fn a_new_index_is_one_empty_leaf() {
    let tree = BTree::new();
    assert_eq!(tree.max_members(), 5);
    assert_eq!(tree.capacity(), 4096);
    assert_eq!(DEFAULT_MAX_MEMBERS, 5);
    assert_eq!(DEFAULT_CAPACITY, 4096);
    assert_eq!(tree.root(), 0);
    assert_eq!(tree.height(), 0);
    assert_eq!(tree.page_count(), 1);
    let root = tree.node(0).unwrap();
    assert!(root.members.is_empty());
    assert!(root.is_leaf());
    assert_eq!(tree.get(b"anything"), Ok(None));
    assert_eq!(tree.page(0).unwrap().len(), 40992);
    assert!(tree.page(0).unwrap().iter().all(|b| *b == 0));
    assert!(tree.page(1).is_none());
}

#[test]
fn create_refuses_shapes_that_cannot_be_kept() {
    assert!(matches!(BTree::create(0, 8), Err(Error::InvalidParameters)));
    assert!(matches!(BTree::create(u32::MAX, 8), Err(Error::InvalidParameters)));
    assert!(matches!(BTree::create(u32::MAX - 1, 8), Err(Error::InvalidParameters)));
    assert!(BTree::create(1, 0).is_ok());
    assert!(BTree::create(1, 1).is_ok());
    if usize::BITS == 64 {
        assert!(matches!(BTree::create(u32::MAX - 2, u32::MAX), Err(Error::InvalidParameters)));
    }
}

#[test]
fn six_inserts_split_the_root() {
    let mut tree = BTree::create(5, 8).unwrap();
    let pairs = [("a", "1"), ("b", "2"), ("c", "3"), ("d", "4"), ("e", "5")];
    for (k, v) in pairs {
        assert_eq!(tree.insert(k.as_bytes(), v.as_bytes()), Ok(vec![0]));
    }
    assert_eq!(tree.height(), 0);
    assert_eq!(tree.page_count(), 1);
    assert_eq!(tree.node(0).unwrap().members.len(), 5);

    assert_eq!(tree.insert(b"f", b"6"), Ok(vec![1, 0, 2]));
    assert_eq!(tree.height(), 1);
    assert_eq!(tree.page_count(), 3);
    let root = tree.node(tree.root()).unwrap();
    assert_eq!(root.members.len(), 1);
    assert_eq!(root.members[0].key, b"d".to_vec());
    assert_eq!(root.members[0].value, b"4".to_vec());
    assert_eq!(root.children.len(), 2);
    for child in &root.children {
        let leaf = tree.node(*child).unwrap();
        assert!(leaf.is_leaf());
        assert!(leaf.members.len() == 2 || leaf.members.len() == 3);
    }
    let left = tree.node(root.children[0]).unwrap();
    let right = tree.node(root.children[1]).unwrap();
    assert_eq!(left.members.len(), 3);
    assert_eq!(right.members.len(), 2);
    assert_eq!(right.members[1].key, b"f".to_vec());

    assert_eq!(tree.get(b"f"), Ok(Some(b"6".to_vec())));
    assert_eq!(tree.get(b"z"), Ok(None));
    for (k, v) in pairs {
        assert_eq!(value(&tree, k), Some(v.to_string()));
    }
    assert_eq!(inspect(&tree), 6);
}

#[test]
fn a_key_that_is_too_long_is_refused_and_nothing_is_written() {
    let mut tree = filled(5, 8, &[("a", "1"), ("b", "2")]);
    let before = tree.image();
    assert_eq!(tree.insert(b"123456789", b"v"), Err(Error::KeyTooLong));
    assert_eq!(tree.image(), before);
    assert_eq!(tree.get(b"123456789"), Ok(None));
    assert_eq!(tree.insert(b"12345678", b"v"), Ok(vec![0]));
    assert_eq!(tree.get(b"12345678"), Ok(Some(b"v".to_vec())));
}

#[test]
fn a_value_that_is_too_long_is_refused() {
    let mut tree = filled(5, 8, &[("a", "1")]);
    let before = tree.image();
    assert_eq!(tree.insert(b"k", b"123456789"), Err(Error::ValueTooLong));
    assert_eq!(tree.insert(b"123456789", b"123456789"), Err(Error::KeyTooLong));
    assert_eq!(tree.image(), before);
    assert_eq!(tree.insert(b"k", b"12345678"), Ok(vec![0]));
}

#[test]
fn a_zero_byte_is_refused() {
    let mut tree = filled(5, 8, &[("a", "1")]);
    let before = tree.image();
    assert_eq!(tree.insert(&[b'k', 0], b"v"), Err(Error::NulInKey));
    assert_eq!(tree.insert(b"k", &[0, b'v']), Err(Error::NulInValue));
    assert_eq!(tree.insert(&[0], &[0]), Err(Error::NulInKey));
    assert_eq!(tree.image(), before);
}

#[test]
fn inserting_a_key_again_gives_it_the_new_value() {
    let mut tree = filled(3, 8, &[("a", "1"), ("b", "2"), ("c", "3"), ("d", "4"), ("e", "5")]);
    let pages = tree.page_count();
    assert_eq!(inspect(&tree), 5);
    for k in ["a", "b", "c", "d", "e"] {
        let written = tree.insert(k.as_bytes(), b"new").unwrap();
        assert_eq!(written.len(), 1);
        assert_eq!(value(&tree, k), Some("new".to_string()));
    }
    assert_eq!(tree.page_count(), pages);
    assert_eq!(inspect(&tree), 5);
}

#[test]
fn an_empty_key_and_an_empty_value_are_kept() {
    let mut tree = filled(2, 4, &[("b", "2"), ("", "empty"[..4].into()), ("a", "")]);
    assert_eq!(value(&tree, ""), Some("empt".to_string()));
    assert_eq!(value(&tree, "a"), Some(String::new()));
    tree.insert(b"c", b"3").unwrap();
    assert_eq!(inspect(&tree), 4);
    assert_eq!(tree.node(tree.root()).unwrap().members.len(), 1);
}

fn keys(n: u32) -> Vec<String> {
    let mut state: u32 = 12345;
    let mut out = Vec::new();
    for _ in 0..n {
        state = state.wrapping_mul(1664525).wrapping_add(1013904223);
        out.push(format!("k{:07}", (state >> 8) % 5_000_000));
    }
    out
}

#[test]
fn many_inserts_keep_the_tree_in_shape() {
    for max_members in [1u32, 2, 3, 4, 5, 8] {
        let mut tree = BTree::create(max_members, 8).unwrap();
        let mut model = std::collections::BTreeMap::new();
        for (i, k) in keys(400).iter().enumerate() {
            let v = format!("v{}", i);
            let before = tree.image();
            let written = tree.insert(k.as_bytes(), v.as_bytes()).unwrap();
            model.insert(k.clone(), v);
            let size = size_on_disk(max_members, 8).unwrap();
            let after = tree.image();
            for p in 0..tree.page_count() {
                if !written.contains(&(p as u32)) {
                    let at = HEADER_SIZE + p * size;
                    assert_eq!(&after[at..at + size], &before[at..at + size]);
                }
            }
            if i % 50 == 49 {
                assert_eq!(inspect(&tree), model.len());
            }
        }
        assert_eq!(inspect(&tree), model.len());
        for (k, v) in &model {
            assert_eq!(value(&tree, k), Some(v.clone()));
        }
        for k in ["", "a", "k", "k99999999", "zzz"] {
            assert_eq!(tree.get(k.as_bytes()), Ok(None));
        }
    }
}

#[test]
fn inserts_in_order_and_in_reverse_keep_the_tree_in_shape() {
    let mut up = BTree::create(4, 8).unwrap();
    let mut down = BTree::create(4, 8).unwrap();
    for i in 0..300u32 {
        up.insert(format!("{:05}", i).as_bytes(), b"u").unwrap();
        down.insert(format!("{:05}", 299 - i).as_bytes(), b"d").unwrap();
    }
    assert_eq!(inspect(&up), 300);
    assert_eq!(inspect(&down), 300);
    assert!(up.height() >= 3);
    for i in 0..300u32 {
        assert_eq!(value(&up, &format!("{:05}", i)), Some("u".to_string()));
        assert_eq!(value(&down, &format!("{:05}", i)), Some("d".to_string()));
    }
}

#[test]
fn the_image_starts_with_the_header_and_holds_every_page() {
    let tree = filled(5, 8, &[("a", "1"), ("b", "2"), ("c", "3"), ("d", "4"), ("e", "5"), ("f", "6")]);
    let image = tree.image();
    assert_eq!(HEADER_SIZE, 20);
    assert_eq!(image.len(), 20 + 3 * 112);
    assert_eq!(
        &image[..20],
        &[5, 0, 0, 0, 8, 0, 0, 0, 2, 0, 0, 0, 1, 0, 0, 0, 3, 0, 0, 0]
    );
    assert_eq!(tree.header(), image[..20].to_vec());
    for p in 0..3u32 {
        let at = tree.page_offset(p).unwrap() as usize;
        assert_eq!(at, 20 + 112 * p as usize);
        assert_eq!(&image[at..at + 112], tree.page(p).unwrap().as_slice());
    }
    assert_eq!(tree.page_offset(u32::MAX), Some(20 + 112 * u32::MAX as u64));
}

#[test]
fn open_gives_back_the_index_that_was_written() {
    let mut tree = BTree::create(3, 6).unwrap();
    for (i, k) in keys(60).iter().enumerate() {
        tree.insert(k[..6].as_bytes(), format!("{}", i).as_bytes()).unwrap();
    }
    let image = tree.image();
    let mut again = BTree::open(&image).unwrap();
    assert_eq!(again.image(), image);
    assert_eq!(again.root(), tree.root());
    assert_eq!(again.height(), tree.height());
    assert_eq!(again.page_count(), tree.page_count());
    assert_eq!(again.max_members(), 3);
    assert_eq!(again.capacity(), 6);
    assert_eq!(inspect(&again), inspect(&tree));
    for k in keys(60) {
        assert_eq!(again.get(k[..6].as_bytes()), tree.get(k[..6].as_bytes()));
    }
    again.insert(b"later", b"x").unwrap();
    assert_eq!(again.get(b"later"), Ok(Some(b"x".to_vec())));
    assert_eq!(tree.get(b"later"), Ok(None));
}

#[test]
fn open_refuses_what_is_no_image() {
    let image = filled(2, 4, &[("a", "1"), ("b", "2"), ("c", "3")]).image();
    assert!(BTree::open(&image).is_ok());
    assert!(matches!(BTree::open(&[]), Err(Error::Corrupt)));
    assert!(matches!(BTree::open(&image[..19]), Err(Error::Corrupt)));
    assert!(matches!(BTree::open(&image[..image.len() - 1]), Err(Error::Corrupt)));
    let mut longer = image.clone();
    longer.push(0);
    assert!(matches!(BTree::open(&longer), Err(Error::Corrupt)));
    // fan-out 0, root beyond the pages, no pages
    for (at, byte) in [(0usize, 0u8), (8, 3), (16, 0)] {
        let mut bad = image.clone();
        bad[at] = byte;
        assert!(matches!(BTree::open(&bad), Err(Error::Corrupt)));
    }
    // a root page that breaks the layout
    let root = u32::from_le_bytes([image[8], image[9], image[10], image[11]]) as usize;
    let size = size_on_disk(2, 4).unwrap();
    let mut bad = image.clone();
    bad[20 + root * size + 4] = 9;
    assert!(matches!(BTree::open(&bad), Err(Error::Corrupt)));
}

#[test]
fn a_corrupt_page_below_the_root_is_reported_when_it_is_met() {
    let tree = filled(2, 4, &[("a", "1"), ("b", "2"), ("c", "3"), ("d", "4"), ("e", "5")]);
    let image = tree.image();
    let size = size_on_disk(2, 4).unwrap();
    let root = tree.node(tree.root()).unwrap();
    let first = root.children[0] as usize;
    let mut bad = image.clone();
    bad[20 + first * size + 4] = 9;
    let mut broken = BTree::open(&bad).unwrap();
    assert_eq!(broken.get(b"a"), Err(Error::Corrupt));
    assert_eq!(broken.get(b"e"), Ok(Some(b"5".to_vec())));
    assert!(matches!(broken.node(first as u32), Err(Error::Corrupt)));
    assert!(matches!(broken.node(1000), Err(Error::Corrupt)));
    let before = broken.image();
    assert_eq!(broken.insert(b"0", b"x"), Err(Error::Corrupt));
    assert_eq!(broken.image(), before);
    assert!(broken.insert(b"z", b"x").is_ok());
}

#[test]
fn a_header_that_claims_too_little_height_is_corrupt() {
    let tree = filled(2, 4, &[("a", "1"), ("b", "2"), ("c", "3")]);
    assert_eq!(tree.height(), 1);
    let mut image = tree.image();
    image[12] = 0;
    let mut low = BTree::open(&image).unwrap();
    assert_eq!(low.get(b"a"), Err(Error::Corrupt));
    assert_eq!(low.get(b"b"), Ok(Some(b"2".to_vec())));
    assert_eq!(low.insert(b"a", b"x"), Err(Error::Corrupt));
}

#[test]
fn an_index_without_page_numbers_to_spare_is_full() {
    let mut image = BTree::create(2, 4).unwrap().image();
    image[12..16].copy_from_slice(&[0xfe, 0xff, 0xff, 0xff]);
    let mut tall = BTree::open(&image).unwrap();
    assert_eq!(tall.height(), u32::MAX - 1);
    let before = tall.image();
    assert_eq!(tall.insert(b"a", b"1"), Err(Error::Full));
    assert_eq!(tall.insert(b"toolong", b"1"), Err(Error::KeyTooLong));
    assert_eq!(tall.image(), before);
    image[12..16].copy_from_slice(&[0xfc, 0xff, 0xff, 0xff]);
    let mut lower = BTree::open(&image).unwrap();
    assert_eq!(lower.insert(b"a", b"1"), Err(Error::Corrupt));
}

#[test]
fn the_written_pages_are_reported_from_the_leaf_up() {
    let mut tree = BTree::create(2, 4).unwrap();
    assert_eq!(tree.insert(b"b", b"1"), Ok(vec![0]));
    assert_eq!(tree.insert(b"d", b"2"), Ok(vec![0]));
    // the root splits: a new right leaf, the old page as left leaf, a new root
    assert_eq!(tree.insert(b"f", b"3"), Ok(vec![1, 0, 2]));
    assert_eq!(tree.root(), 2);
    // room in the right leaf: only that page is written
    assert_eq!(tree.insert(b"g", b"4"), Ok(vec![1]));
    // the right leaf splits and the root takes the middle entry
    assert_eq!(tree.insert(b"h", b"5"), Ok(vec![3, 1, 2]));
    assert_eq!(tree.insert(b"a", b"6"), Ok(vec![0]));
    // the left leaf splits, the root overflows and splits, the tree grows
    assert_eq!(tree.insert(b"c", b"7"), Ok(vec![4, 0, 5, 2, 6]));
    assert_eq!(tree.root(), 6);
    assert_eq!(tree.height(), 2);
    assert_eq!(inspect(&tree), 7);
}

/// The index of `image` with page `index` replaced by `node`.
fn with_page(image: &[u8], index: u32, members: &[(&str, &str)], children: &[u32]) -> BTree {
    let tree = BTree::open(image).unwrap();
    let node = TreeNode {
        index,
        max_members: tree.max_members(),
        members: members.iter().map(|(k, v)| TreeKey::new(k.as_bytes(), v.as_bytes())).collect(),
        children: children.to_vec(),
    };
    let at = tree.page_offset(index).unwrap() as usize;
    let page = node.encode(tree.capacity());
    let mut image = image.to_vec();
    image[at..at + page.len()].copy_from_slice(&page);
    BTree::open(&image).unwrap()
}

#[test]
fn is_well_formed_tells_a_tree_from_what_is_none() {
    // root on page 2 with entry d; leaves a b c on page 0 and e f on page 1
    let tree = filled(5, 8, &[("a", "1"), ("b", "2"), ("c", "3"), ("d", "4"), ("e", "5"), ("f", "6")]);
    assert!(tree.is_well_formed());
    assert!(BTree::new().is_well_formed());
    let image = tree.image();
    let same = with_page(&image, 1, &[("e", "5"), ("f", "6")], &[]);
    assert!(same.is_well_formed());
    assert_eq!(same.image(), image);

    // entries out of order
    assert!(!with_page(&image, 1, &[("f", "6"), ("e", "5")], &[]).is_well_formed());
    // the same key twice
    assert!(!with_page(&image, 1, &[("e", "5"), ("e", "6")], &[]).is_well_formed());
    // a key on the wrong side of the root's entry
    assert!(!with_page(&image, 1, &[("c", "5"), ("f", "6")], &[]).is_well_formed());
    assert!(!with_page(&image, 0, &[("a", "1"), ("b", "2"), ("e", "3")], &[]).is_well_formed());
    // a key equal to the root's entry
    assert!(!with_page(&image, 1, &[("d", "5"), ("f", "6")], &[]).is_well_formed());
    // too few entries in a node that is not the root
    assert!(!with_page(&image, 1, &[("e", "5")], &[]).is_well_formed());
    assert!(!with_page(&image, 1, &[], &[]).is_well_formed());
    // a leaf that has children, and so leaves at two depths
    assert!(!with_page(&image, 1, &[("e", "5"), ("f", "6")], &[0, 0, 0]).is_well_formed());
    // both children on one page
    assert!(!with_page(&image, 2, &[("d", "4")], &[0, 0]).is_well_formed());
    // a child that is its own parent
    assert!(!with_page(&image, 2, &[("d", "4")], &[0, 2]).is_well_formed());
    // a child beyond the pages
    assert!(!with_page(&image, 2, &[("d", "4")], &[0, 7]).is_well_formed());
    // a root without children where the header says the tree is higher
    assert!(!with_page(&image, 2, &[("d", "4")], &[]).is_well_formed());

    // a page that breaks the layout
    let mut bad = image.clone();
    bad[20 + 112 + 4] = 9;
    assert!(!BTree::open(&bad).unwrap().is_well_formed());
    // a header that says the leaves are deeper, or higher, than they are
    for height in [0u8, 2] {
        let mut bad = image.clone();
        bad[12] = height;
        assert!(!BTree::open(&bad).unwrap().is_well_formed());
    }
    // the root may hold a single entry, and an empty root leaf is a tree
    let single = filled(5, 8, &[("a", "1")]);
    assert!(single.is_well_formed());
}

#[test]
fn in_order_tests_order_and_bounds() {
    let node = |keys: &[&str]| TreeNode {
        index: 0,
        max_members: 5,
        members: keys.iter().map(|k| TreeKey::new(k.as_bytes(), b"v")).collect(),
        children: vec![],
    };
    assert!(node(&[]).in_order(None, None));
    assert!(node(&[]).in_order(Some(b"z"), Some(b"a")));
    assert!(node(&["b", "c", "d"]).in_order(None, None));
    assert!(node(&["b", "c", "d"]).in_order(Some(b"a"), Some(b"e")));
    assert!(!node(&["b", "c", "d"]).in_order(Some(b"b"), Some(b"e")));
    assert!(!node(&["b", "c", "d"]).in_order(Some(b"a"), Some(b"d")));
    assert!(!node(&["b", "d", "c"]).in_order(None, None));
    assert!(!node(&["b", "b"]).in_order(None, None));
    assert!(node(&["b", "ba", "bb"]).in_order(Some(b""), None));
}

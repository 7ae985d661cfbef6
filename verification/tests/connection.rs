use btree_store::btree::BTree;
use btree_store::command::{parse, Command};
use btree_store::connection::{ConnectionResult, DbConnection};
use btree_store::error::Error;

fn out(text: &str) -> Result<ConnectionResult, &'static str> {
    Ok(ConnectionResult::Output(text.to_string()))
}

#[test]
fn set_then_get_shows_the_value() {
    let mut db = DbConnection::new();
    assert_eq!(db.execute("set key1 value1"), Ok(ConnectionResult::Empty));
    assert_eq!(db.written(), &vec![0]);
    assert_eq!(db.execute("get key1"), out("value1"));
    assert!(db.written().is_empty());
    assert_eq!(db.execute("get key2"), Err("Key not found"));
    assert_eq!(db.execute("set key1 other\n"), Ok(ConnectionResult::Empty));
    assert_eq!(db.execute("get key1\n"), out("other"));
}

#[test]
fn execute_names_what_is_missing() {
    let mut db = DbConnection::new();
    assert_eq!(db.execute(""), Err("No command specified"));
    assert_eq!(db.execute("  \t \n"), Err("No command specified"));
    assert_eq!(db.execute("set"), Err("Key not provided"));
    assert_eq!(db.execute("set k"), Err("Value not provided"));
    assert_eq!(db.execute("set k  "), Err("Value not provided"));
    assert_eq!(db.execute("get"), Err("Key not provided"));
    assert_eq!(db.execute("get \n"), Err("Key not provided"));
    assert_eq!(db.execute("put k v"), Err("Unrecognized command"));
    assert_eq!(db.execute("SET k v"), Err("Unrecognized command"));
    assert_eq!(db.execute("sett k v"), Err("Unrecognized command"));
    assert_eq!(db.execute("se"), Err("Unrecognized command"));
    assert_eq!(db.tree().page_count(), 1);
    assert_eq!(db.tree().get(b"k"), Ok(None));
}

#[test]
fn execute_reads_no_further_than_a_command_needs() {
    let mut db = DbConnection::new();
    assert_eq!(db.execute("set a 1 and more"), Ok(ConnectionResult::Empty));
    assert_eq!(db.execute("get a b c"), out("1"));
    assert_eq!(db.execute("get and"), Err("Key not found"));
}

#[test]
fn words_are_parted_by_any_white_space() {
    let mut db = DbConnection::new();
    assert_eq!(db.execute("\t set\u{a0}k\u{3000}v\u{2003}x"), Ok(ConnectionResult::Empty));
    assert_eq!(db.execute("get\u{2028}k\u{85}"), out("v"));
    assert_eq!(db.execute("set\u{1680}caf\u{e9}\u{205f}na\u{ef}ve"), Ok(ConnectionResult::Empty));
    assert_eq!(db.execute("\u{202f}get\rcaf\u{e9}\u{b}"), out("na\u{ef}ve"));
    // U+200B is no white space, nor is U+0085's first byte alone.
    assert_eq!(db.execute("get\u{200b}k"), Err("Unrecognized command"));
    assert_eq!(db.execute("set \u{c2}\u{200b} w"), Ok(ConnectionResult::Empty));
    assert_eq!(db.execute("get \u{c2}\u{200b}"), out("w"));
}

#[test]
fn execute_says_what_the_index_refuses() {
    let mut db = DbConnection::with_tree(BTree::create(3, 4).unwrap());
    assert_eq!(db.execute("set abcde v"), Err("Key too long"));
    assert_eq!(db.execute("set k abcde"), Err("Value too long"));
    assert_eq!(db.execute("set k\u{0} v"), Err("Key holds a zero byte"));
    assert_eq!(db.execute("set k v\u{0}"), Err("Value holds a zero byte"));
    assert_eq!(db.execute("set abcd abcd"), Ok(ConnectionResult::Empty));
    assert_eq!(db.execute("get abcd"), out("abcd"));
    assert_eq!(db.execute("get abcde"), Err("Key not found"));
    assert_eq!(Error::KeyTooLong.message(), "Key too long");
    assert_eq!(Error::ValueTooLong.message(), "Value too long");
    assert_eq!(Error::NulInKey.message(), "Key holds a zero byte");
    assert_eq!(Error::NulInValue.message(), "Value holds a zero byte");
    assert_eq!(Error::Corrupt.message(), "Index is corrupt");
    assert_eq!(Error::Full.message(), "Index is full");
    assert_eq!(Error::InvalidParameters.message(), "Invalid parameters");
}

#[test]
fn a_value_that_is_no_text_is_not_shown() {
    let mut tree = BTree::create(3, 4).unwrap();
    tree.insert(b"k", &[0xff, 0xfe]).unwrap();
    tree.insert(b"half", &[0xc3]).unwrap();
    tree.insert(b"ok", &[0xc3, 0xa9]).unwrap();
    let mut db = DbConnection::with_tree(tree);
    assert_eq!(db.execute("get k"), Err("Value is not text"));
    assert_eq!(db.execute("get half"), Err("Value is not text"));
    assert_eq!(db.execute("get ok"), out("\u{e9}"));
    assert_eq!(db.get(b"k"), Ok(Some(vec![0xff, 0xfe])));
}

#[test]
fn a_corrupt_index_is_reported() {
    let mut tree = BTree::create(2, 4).unwrap();
    for k in ["a", "b", "c"] {
        tree.insert(k.as_bytes(), b"v").unwrap();
    }
    let mut image = tree.image();
    image[12] = 0;
    let mut db = DbConnection::with_tree(BTree::open(&image).unwrap());
    assert_eq!(db.execute("get a"), Err("Index is corrupt"));
    assert_eq!(db.execute("set a 1"), Err("Index is corrupt"));
    assert!(db.written().is_empty());
    assert_eq!(db.tree().image(), image);
}

#[test]
fn set_and_get_work_on_bytes() {
    let mut db = DbConnection::new();
    assert_eq!(db.set(b"k", b"v"), Ok(()));
    assert_eq!(db.get(b"k"), Ok(Some(b"v".to_vec())));
    assert_eq!(db.get(b"other"), Ok(None));
    assert_eq!(db.set(&[0], b"v"), Err(Error::NulInKey));
    assert!(db.written().is_empty());
    for i in 0..40u32 {
        assert_eq!(db.set(format!("key{}", i).as_bytes(), b"v"), Ok(()));
        let written = db.written().clone();
        assert!(!written.is_empty());
        assert!(written.iter().all(|p| (*p as usize) < db.tree().page_count()));
    }
    assert!(db.tree().height() >= 1);
}

#[test]
fn parse_reads_the_words_of_a_line() {
    assert_eq!(parse(b""), Command::Nothing);
    assert_eq!(parse(b" \n"), Command::Nothing);
    assert_eq!(parse(b"set a b"), Command::Store { key: b"a".to_vec(), value: b"b".to_vec() });
    assert_eq!(
        parse(b"  set\tkey  value rest"),
        Command::Store { key: b"key".to_vec(), value: b"value".to_vec() }
    );
    assert_eq!(parse(b"get a"), Command::Fetch { key: b"a".to_vec() });
    assert_eq!(parse(b"get a b"), Command::Fetch { key: b"a".to_vec() });
    assert_eq!(parse(b"get"), Command::MissingKey);
    assert_eq!(parse(b"set"), Command::MissingKey);
    assert_eq!(parse(b"set a"), Command::MissingValue);
    assert_eq!(parse(b"ge t"), Command::Unknown);
    assert_eq!(parse(b"gets a"), Command::Unknown);
    assert_eq!(parse(&[0xc2]), Command::Unknown);
    assert_eq!(parse(&[b'g', b'e', b't', 0xe2, 0x80, 0x80, b'k']), Command::Fetch { key: b"k".to_vec() });
    assert_eq!(parse(&[b'g', b'e', b't', 0xe2, 0x80]), Command::Unknown);
    assert_eq!(parse(&[b'g', b'e', b't', 0xe2, 0x80, 0x8b, b'k']), Command::Unknown);
}

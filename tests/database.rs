use std::io::Write;

use rotsniff::database::{Database, OpenError};
use rotsniff::hash::blake2s;

const HELLO_TEXT: &str = "blake2b:021CED8799296CECA557832AB941A50B4A11F83478CF141F51F933F653AB9FBCC05A037CDDBED06E309BF334942C4E58CDF1A46E237911CCD7FCF9787CBC7FD0";

fn gzip(text: &str) -> Vec<u8> {
    let mut e = flate2::write::GzEncoder::new(Vec::new(), flate2::Compression::default());
    e.write_all(text.as_bytes()).unwrap();
    e.finish().unwrap()
}

#[test]
fn can_write_record() {
    let mut db = Database::new();
    db.insert(String::from("/some/path"), blake2s(b"hello world"));
    assert_eq!(format!("/some/path,{}\n", HELLO_TEXT), db.to_text());
}

#[test]
fn can_read_record() {
    let data = format!("/some/path,{}\n", HELLO_TEXT);
    let db = Database::from_text(&data).unwrap();
    let rows = db.iter();
    assert_eq!(1, rows.len());
    assert_eq!("/some/path", rows[0].0);
    assert_eq!(blake2s(b"hello world"), rows[0].1);
}

#[test]
fn read_accepts_last_line_without_line_end() {
    let data = format!("/a,{}\n/b,{}", HELLO_TEXT, HELLO_TEXT);
    let db = Database::from_text(&data).unwrap();
    assert_eq!(2, db.iter().len());
    assert_eq!(Some(blake2s(b"hello world")), db.get("/b"));
}

#[test]
fn read_refuses_malformed_line() {
    assert!(Database::from_text("/a\n").is_none());
    assert!(Database::from_text(&format!("/a,{}\n\n", HELLO_TEXT)).is_none());
    assert!(Database::from_text(&format!("/a,{}x\n", HELLO_TEXT)).is_none());
    assert!(Database::from_text("/a,blake2b:00\n").is_none());
}

#[test]
fn read_later_record_wins() {
    let other = blake2s(b"other").to_string();
    let data = format!("/a,{}\n/a,{}\n", HELLO_TEXT, other);
    let db = Database::from_text(&data).unwrap();
    assert_eq!(1, db.iter().len());
    assert_eq!(Some(blake2s(b"other")), db.get("/a"));
}

#[test]
fn open_empty_storage_is_empty_index() {
    let db = Database::open(&[]).unwrap();
    assert!(db.iter().is_empty());
}

#[test]
fn open_refuses_bytes_that_are_not_gzip() {
    assert_eq!(OpenError::Unreadable, Database::open(b"not gzip").err().unwrap());
}

#[test]
fn open_refuses_malformed_record() {
    let stored = gzip("/a,blake2b:XYZ\n");
    assert_eq!(OpenError::Malformed, Database::open(&stored).err().unwrap());
}

#[test]
fn open_reads_compressed_text() {
    let stored = gzip(&format!("/some/path,{}\n", HELLO_TEXT));
    let db = Database::open(&stored).unwrap();
    assert_eq!(Some(blake2s(b"hello world")), db.get("/some/path"));
}

#[test]
fn save_then_open_gives_same_entries() {
    let mut db = Database::new();
    db.insert(String::from("/x/one"), blake2s(b"one"));
    db.insert(String::from("/x/two"), blake2s(b"two"));
    db.insert(String::from("/x/with space"), blake2s(b""));
    let stored = db.save();
    assert_ne!(stored, db.to_text().into_bytes());
    let back = Database::open(&stored).unwrap();
    assert_eq!(3, back.iter().len());
    assert_eq!(Some(blake2s(b"one")), back.get("/x/one"));
    assert_eq!(Some(blake2s(b"two")), back.get("/x/two"));
    assert_eq!(Some(blake2s(b"")), back.get("/x/with space"));
}

#[test]
fn extend_last_writer_wins() {
    let mut db = Database::new();
    db.insert(String::from("/a"), blake2s(b"a"));
    db.extend(vec![
        (String::from("/b"), blake2s(b"b1")),
        (String::from("/a"), blake2s(b"a2")),
        (String::from("/b"), blake2s(b"b2")),
    ]);
    assert_eq!(2, db.iter().len());
    assert_eq!(Some(blake2s(b"a2")), db.get("/a"));
    assert_eq!(Some(blake2s(b"b2")), db.get("/b"));
    assert_eq!(None, db.get("/c"));
}

#[test]
fn retain_drops_the_entries_refused() {
    let mut db = Database::new();
    db.insert(String::from("/exists"), blake2s(b"e"));
    db.insert(String::from("/gone"), blake2s(b"g"));
    let keep: Vec<bool> = db.iter().iter().map(|(p, _)| p == "/exists").collect();
    db.retain(&keep);
    assert_eq!(1, db.iter().len());
    assert_eq!(Some(blake2s(b"e")), db.get("/exists"));
    assert_eq!(None, db.get("/gone"));
}

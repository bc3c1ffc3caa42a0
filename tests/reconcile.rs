use rotsniff::database::Database;
use rotsniff::hash::blake2s;
use rotsniff::reconcile::{new_paths, update, verify, Outcome, Probe};

fn s(p: &str) -> String {
    String::from(p)
}

#[test]
fn append_twice_adds_nothing_the_second_time() {
    let mut db = Database::new();
    db.insert(s("/r/old"), blake2s(b"old"));
    let walked = vec![s("/r/old"), s("/r/new1"), s("/r/new2")];
    let fresh = new_paths(&db, &walked);
    assert_eq!(vec![s("/r/new1"), s("/r/new2")], fresh);
    let hashed: Vec<(String, rotsniff::hash::Hash)> =
        fresh.iter().map(|p| (p.clone(), blake2s(p.as_bytes()))).collect();
    db.extend(hashed);
    let text = db.to_text();
    let again = new_paths(&db, &walked);
    assert!(again.is_empty());
    db.extend(Vec::new());
    assert_eq!(text, db.to_text());
    assert_eq!(3, db.iter().len());
}

#[test]
fn update_reports_exactly_the_changed_file() {
    let mut db = Database::new();
    db.insert(s("/a"), blake2s(b"a"));
    db.insert(s("/b"), blake2s(b"b"));
    db.insert(s("/c"), blake2s(b"c"));
    let probes = vec![
        (s("/a"), Probe::Hashed(blake2s(b"a"))),
        (s("/b"), Probe::Hashed(blake2s(b"b changed"))),
        (s("/c"), Probe::Hashed(blake2s(b"c"))),
    ];
    let changed = update(&mut db, &probes).ok().unwrap();
    assert_eq!(1, changed.len());
    assert_eq!(s("/b"), changed[0].0);
    assert_eq!(Some(blake2s(b"b changed")), db.get("/b"));
    assert_eq!(Some(blake2s(b"a")), db.get("/a"));
    assert_eq!(3, db.iter().len());
}

#[test]
fn update_leaves_missing_file_entry_untouched() {
    let mut db = Database::new();
    db.insert(s("/gone"), blake2s(b"gone"));
    db.insert(s("/here"), blake2s(b"here"));
    let probes = vec![(s("/gone"), Probe::NotFound), (s("/here"), Probe::Hashed(blake2s(b"here")))];
    let changed = update(&mut db, &probes).ok().unwrap();
    assert!(changed.is_empty());
    assert_eq!(Some(blake2s(b"gone")), db.get("/gone"));
    assert_eq!(2, db.iter().len());
}

#[test]
fn update_aborts_on_read_failure() {
    let mut db = Database::new();
    db.insert(s("/a"), blake2s(b"a"));
    db.insert(s("/b"), blake2s(b"b"));
    let probes = vec![(s("/a"), Probe::Hashed(blake2s(b"a2"))), (s("/b"), Probe::Failed)];
    let err = update(&mut db, &probes).err().unwrap();
    assert_eq!(s("/b"), err.path);
    assert_eq!(Some(blake2s(b"a")), db.get("/a"));
}

#[test]
fn verify_reports_modified_and_untracked() {
    let mut db = Database::new();
    db.insert(s("/root/a"), blake2s(b"a"));
    db.insert(s("/root/b"), blake2s(b"b"));
    let probes = vec![
        (s("/root/a"), Probe::Hashed(blake2s(b"a"))),
        (s("/root/b"), Probe::Hashed(blake2s(b"b changed"))),
    ];
    let walked = vec![s("/root/a"), s("/root/b"), s("/root/c")];
    let diff = verify(&db, &probes, &walked).ok().unwrap();
    assert_eq!(2, diff.len());
    assert_eq!(s("/root/b"), diff[0].path);
    match diff[0].outcome {
        Outcome::Modified(old, new) => {
            assert_eq!(blake2s(b"b"), old);
            assert_eq!(blake2s(b"b changed"), new);
        }
        _ => panic!("expected a modification"),
    }
    assert_eq!(s("/root/c"), diff[1].path);
    assert!(matches!(diff[1].outcome, Outcome::Untracked));
}

#[test]
fn verify_of_intact_tree_is_empty() {
    let mut db = Database::new();
    db.insert(s("/root/a"), blake2s(b"a"));
    db.insert(s("/root/b"), blake2s(b"b"));
    let probes = vec![
        (s("/root/a"), Probe::Hashed(blake2s(b"a"))),
        (s("/root/b"), Probe::Hashed(blake2s(b"b"))),
    ];
    let walked = vec![s("/root/b"), s("/root/a")];
    let diff = verify(&db, &probes, &walked).ok().unwrap();
    assert!(diff.is_empty());
}

#[test]
fn verify_reports_missing_file() {
    let mut db = Database::new();
    db.insert(s("/root/a"), blake2s(b"a"));
    let probes = vec![(s("/root/a"), Probe::NotFound)];
    let diff = verify(&db, &probes, &Vec::new()).ok().unwrap();
    assert_eq!(1, diff.len());
    assert_eq!(s("/root/a"), diff[0].path);
    assert!(matches!(diff[0].outcome, Outcome::Missing));
}

#[test]
fn verify_aborts_on_read_failure() {
    let mut db = Database::new();
    db.insert(s("/root/a"), blake2s(b"a"));
    let probes = vec![(s("/root/a"), Probe::Failed)];
    let err = verify(&db, &probes, &vec![s("/root/z")]).err().unwrap();
    assert_eq!(s("/root/a"), err.path);
}

#[test]
fn remove_keeps_only_existing_path() {
    let mut db = Database::new();
    db.insert(s("/exists"), blake2s(b"e"));
    db.insert(s("/missing"), blake2s(b"m"));
    let rows = db.iter();
    let keep: Vec<bool> = rows.iter().map(|(p, _)| p != "/missing").collect();
    let removed: Vec<&String> = rows.iter().zip(keep.iter()).filter(|(_, k)| !**k).map(|(r, _)| &r.0).collect();
    db.retain(&keep);
    assert_eq!(1, removed.len());
    assert_eq!(1, db.iter().len());
    assert!(db.get("/exists").is_some());
    assert!(db.get("/missing").is_none());
}

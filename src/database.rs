use std::io::Read;
use std::io::Write;
use vstd::prelude::*;



verus! {

/// One entry of the index in mathematical form: a path and its digest.
pub type Row = (Seq<char>, Seq<u8>);

/// No path occurs twice.
pub open spec fn unique_paths(rows: Seq<Row>) -> bool {
    forall|i: int, j: int|
        0 <= i < rows.len() && 0 <= j < rows.len() && #[trigger] rows[i].0 == #[trigger] rows[j].0
            ==> i == j
}

/// The path-to-digest map that rows with distinct paths stand for.
pub open spec fn rows_map(rows: Seq<Row>) -> Map<Seq<char>, Seq<u8>> {
    Map::new(
        |p: Seq<char>| exists|i: int| 0 <= i < rows.len() && #[trigger] rows[i].0 == p,
        |p: Seq<char>| rows[choose|i: int| 0 <= i < rows.len() && #[trigger] rows[i].0 == p].1,
    )
}

/// `m` after inserting each row in turn; a later row for a path replaces an
/// earlier one.
pub open spec fn with_rows(m: Map<Seq<char>, Seq<u8>>, rows: Seq<Row>) -> Map<
    Seq<char>,
    Seq<u8>,
>
    decreases rows.len(),
{
    if rows.len() == 0 {
        m
    } else {
        with_rows(m, rows.drop_last()).insert(rows.last().0, rows.last().1)
    }
}

pub open spec fn row_of(e: (String, crate::hash::Hash)) -> Row {
    (e.0@, e.1@)
}

pub open spec fn rows_of(es: Seq<(String, crate::hash::Hash)>) -> Seq<Row> {
    es.map_values(|e: (String, crate::hash::Hash)| row_of(e))
}

pub(crate) proof fn lemma_rows_map_push(rows: Seq<Row>, r: Row)
    requires
        unique_paths(rows),
        !rows_map(rows).contains_key(r.0),
    ensures
        unique_paths(rows.push(r)),
        rows_map(rows.push(r)) == rows_map(rows).insert(r.0, r.1),
{
    let s = rows.push(r);
    assert forall|i: int, j: int|
        0 <= i < s.len() && 0 <= j < s.len() && #[trigger] s[i].0 == #[trigger] s[j].0
            implies i == j by {
        if i < rows.len() && j == rows.len() {
            assert(rows[i].0 == r.0);
        }
        if j < rows.len() && i == rows.len() {
            assert(rows[j].0 == r.0);
        }
    }
    assert forall|p: Seq<char>| #[trigger] rows_map(s).contains_key(p) implies rows_map(s)[p] == rows_map(rows).insert(r.0, r.1)[p] by {
        let i = choose|i: int| 0 <= i < s.len() && #[trigger] s[i].0 == p;
        if p == r.0 {
            assert(s[rows.len() as int].0 == p);
        } else {
            assert(rows[i].0 == p);
        }
    }
    assert(rows_map(s) =~= rows_map(rows).insert(r.0, r.1)) by {
        assert forall|p: Seq<char>| rows_map(rows).insert(r.0, r.1).contains_key(p)
            implies #[trigger] rows_map(s).contains_key(p) by {
            if p == r.0 {
                assert(s[rows.len() as int].0 == p);
            } else {
                let i = choose|i: int| 0 <= i < rows.len() && #[trigger] rows[i].0 == p;
                assert(s[i].0 == p);
            }
        }
    }
}

/// A copy of the entries, in the same order.
pub(crate) fn copy_entries(v: &Vec<(String, crate::hash::Hash)>) -> (r: Vec<(String, crate::hash::Hash)>)
    ensures
        rows_of(r@) == rows_of(v@),
{
    let mut r: Vec<(String, crate::hash::Hash)> = Vec::new();
    let mut i: usize = 0;
    while i < v.len()
        invariant
            i <= v@.len(),
            rows_of(r@) == rows_of(v@).take(i as int),
        decreases v@.len() - i,
    {
        let ghost before = rows_of(r@);
        r.push((v[i].0.clone(), v[i].1));
        proof {
            assert(rows_of(r@) =~= before.push(rows_of(v@)[i as int]));
            assert(rows_of(v@).take(i + 1) =~= rows_of(v@).take(i as int).push(rows_of(v@)[i as int]));
        }
        i = i + 1;
    }
    assert(rows_of(v@).take(v@.len() as int) =~= rows_of(v@));
    r
}

proof fn lemma_rows_map_update(rows: Seq<Row>, k: int, d: Seq<u8>)
    requires
        unique_paths(rows),
        0 <= k < rows.len(),
    ensures
        unique_paths(rows.update(k, (rows[k].0, d))),
        rows_map(rows.update(k, (rows[k].0, d))) == rows_map(rows).insert(rows[k].0, d),
{
    let p0 = rows[k].0;
    let s = rows.update(k, (p0, d));
    assert forall|i: int, j: int|
        0 <= i < s.len() && 0 <= j < s.len() && #[trigger] s[i].0 == #[trigger] s[j].0
            implies i == j by {
        assert(rows[i].0 == s[i].0 && rows[j].0 == s[j].0);
    }
    assert forall|p: Seq<char>| #[trigger] rows_map(s).contains_key(p) implies rows_map(s)[p] == rows_map(rows).insert(p0, d)[p] by {
        let i = choose|i: int| 0 <= i < s.len() && #[trigger] s[i].0 == p;
        assert(rows[i].0 == p);
        if p == p0 {
            assert(i == k);
        } else {
            let j = choose|j: int| 0 <= j < rows.len() && #[trigger] rows[j].0 == p;
            assert(s[j].0 == p);
        }
    }
    assert(rows_map(s) =~= rows_map(rows).insert(p0, d)) by {
        assert forall|p: Seq<char>| rows_map(rows).insert(p0, d).contains_key(p)
            implies #[trigger] rows_map(s).contains_key(p) by {
            if p == p0 {
                assert(s[k].0 == p);
            } else {
                let i = choose|i: int| 0 <= i < rows.len() && #[trigger] rows[i].0 == p;
                assert(s[i].0 == p);
            }
        }
        assert forall|p: Seq<char>| #[trigger] rows_map(s).contains_key(p)
            implies rows_map(rows).insert(p0, d).contains_key(p) by {
            let i = choose|i: int| 0 <= i < s.len() && #[trigger] s[i].0 == p;
            assert(rows[i].0 == p);
        }
    }
}

/// The paths of the rows that the decisions keep.
pub open spec fn kept_paths(rows: Seq<Row>, keep: Seq<bool>) -> Set<Seq<char>> {
    Set::new(|p: Seq<char>| exists|i: int| 0 <= i < rows.len() && keep[i] && #[trigger] rows[i].0 == p)
}

/// The error that reading a stored index ends in.
#[derive(Debug, PartialEq, Eq, Structural)]
pub enum OpenError {
    /// The stored bytes are not gzip-compressed text.
    Unreadable,
    /// A line of the text is not a record.
    Malformed,
}

pub uninterp spec fn gzip_of(text: Seq<char>) -> Seq<u8>;

pub uninterp spec fn gunzip_of(data: Seq<u8>) -> Option<Seq<char>>;

/// Relies on `flate2::write::GzEncoder`: compresses the UTF-8 bytes of `text`
/// at the default level into one gzip member, which depends on the text alone.
/// Writing into a `Vec` cannot fail.
#[verifier::external_body]
fn gzip(text: &str) -> (r: Vec<u8>)
    ensures
        r@ == gzip_of(text@),
{
    let mut e = flate2::write::GzEncoder::new(Vec::new(), flate2::Compression::default());
    e.write_all(text.as_bytes()).expect("writing into memory");
    e.finish().expect("writing into memory")
}

/// Relies on `flate2::read::GzDecoder`: reads the first gzip member of `data`
/// back as UTF-8 text; fails where the bytes are not such a member or the
/// text is not UTF-8. Reading from memory depends on the bytes alone.
#[verifier::external_body]
fn gunzip(data: &[u8]) -> (r: Option<String>)
    ensures
        match r {
            Some(t) => gunzip_of(data@) == Some(t@),
            None => gunzip_of(data@) is None,
        },
{
    let mut t = String::new();
    flate2::read::GzDecoder::new(data).read_to_string(&mut t).ok()?;
    Some(t)
}

/// The fingerprint index: at most one fingerprint per path.
///
/// The entries are kept in a `Vec`: vstd specifies `HashMap` only for key
/// types that it knows to obey its key model, and `String` is not among them,
/// so a map keyed by path would come with no usable contract.
pub struct Database {
    entries: Vec<(String, crate::hash::Hash)>,
}

impl View for Database {
    type V = Map<Seq<char>, Seq<u8>>;

    /// Each tracked path mapped to the digest recorded for it.
    closed spec fn view(&self) -> Map<Seq<char>, Seq<u8>> {
        rows_map(self.rows())
    }
}

impl Database {
    /// The entries in the order in which `iter` hands them out.
    pub closed spec fn rows(&self) -> Seq<Row> {
        rows_of(self.entries@)
    }

    pub closed spec fn wf(&self) -> bool {
        unique_paths(self.rows())
    }

    /// The view is the map of the rows, and the rows have distinct paths.
    pub proof fn lemma_view(&self)
        requires
            self.wf(),
        ensures
            unique_paths(self.rows()),
            self@ == rows_map(self.rows()),
    {
    }

    /// Writing the index as text and reading it back gives the same index,
    /// provided no path holds a comma or a line end.
    pub proof fn lemma_text_round_trip(&self)
        requires
            self.wf(),
            forall|p: Seq<char>| #[trigger] self@.contains_key(p) ==> crate::format::plain_path(p),
        ensures
            crate::format::parse_index(crate::format::index_text(self.rows())) == Some(self@),
    {
        let rows = self.rows();
        assert forall|i: int| 0 <= i < rows.len() implies crate::format::plain_path(#[trigger] rows[i].0)
            && rows[i].1.len() == 64 by {
            assert(self@.contains_key(rows[i].0));
            assert(rows[i].1 == self.entries@[i].1@);
        }
        crate::format::lemma_index_round_trip(rows);
    }

    /// An empty index.
    pub fn new() -> (r: Database)
        ensures
            r.wf(),
            r@ == Map::<Seq<char>, Seq<u8>>::empty(),
            r.rows() == Seq::<Row>::empty(),
    {
        let r = Database { entries: Vec::new() };
        assert(r.rows() =~= Seq::<Row>::empty());
        assert(r@ =~= Map::<Seq<char>, Seq<u8>>::empty());
        r
    }

    /// Where the entry for `path` stands, if there is one.
    fn find(&self, path: &String) -> (r: Option<usize>)
        requires
            self.wf(),
        ensures
            match r {
                Some(i) => i < self.rows().len() && self.rows()[i as int].0 == path@,
                None => !self@.contains_key(path@),
            },
    {
        let mut i: usize = 0;
        while i < self.entries.len()
            invariant
                i <= self.entries@.len(),
                forall|j: int| 0 <= j < i ==> self.rows()[j].0 != path@,
            decreases self.entries@.len() - i,
        {
            if self.entries[i].0 == *path {
                return Some(i);
            }
            i = i + 1;
        }
        proof {
            if self@.contains_key(path@) {
                let j = choose|j: int| 0 <= j < self.rows().len() && #[trigger] self.rows()[j].0
                    == path@;
                assert(self.rows()[j].0 == path@);
            }
        }
        None
    }

    /// The fingerprint recorded for `path`, if any.
    pub fn get(&self, path: &str) -> (r: Option<crate::hash::Hash>)
        requires
            self.wf(),
        ensures
            r is Some <==> self@.contains_key(path@),
            r matches Some(h) ==> h@ == self@[path@],
    {
        let key = path.to_owned();
        match self.find(&key) {
            Some(i) => {
                proof {
                    assert(self.rows()[i as int].0 == path@);
                }
                Some(self.entries[i].1)
            },
            None => None,
        }
    }

    /// Records `hash` for `path`, replacing what was recorded before.
    pub fn insert(&mut self, path: String, hash: crate::hash::Hash)
        requires
            old(self).wf(),
        ensures
            final(self).wf(),
            final(self)@ == old(self)@.insert(path@, hash@),
    {
        match self.find(&path) {
            Some(i) => {
                proof {
                    lemma_rows_map_update(self.rows(), i as int, hash@);
                }
                let ghost before = self.rows();
                self.entries.set(i, (path, hash));
                proof {
                    assert(self.rows() =~= before.update(i as int, (before[i as int].0, hash@)));
                }
            },
            None => {
                proof {
                    lemma_rows_map_push(self.rows(), (path@, hash@));
                }
                let ghost before = self.rows();
                self.entries.push((path, hash));
                proof {
                    assert(self.rows() =~= before.push((path@, hash@)));
                }
            },
        }
    }

    /// Inserts each entry in turn: where a path occurs more than once, the
    /// last one wins.
    pub fn extend(&mut self, items: Vec<(String, crate::hash::Hash)>)
        requires
            old(self).wf(),
        ensures
            final(self).wf(),
            final(self)@ == with_rows(old(self)@, rows_of(items@)),
    {
        let ghost start = self@;
        let mut i: usize = 0;
        while i < items.len()
            invariant
                i <= items@.len(),
                self.wf(),
                self@ == with_rows(start, rows_of(items@).take(i as int)),
            decreases items@.len() - i,
        {
            let p = items[i].0.clone();
            let h = items[i].1;
            self.insert(p, h);
            proof {
                let t = rows_of(items@).take(i + 1);
                assert(t.drop_last() =~= rows_of(items@).take(i as int));
            }
            i = i + 1;
        }
        assert(rows_of(items@).take(items@.len() as int) =~= rows_of(items@));
    }

    /// A copy of every entry, in the order of `rows`.
    pub fn iter(&self) -> (r: Vec<(String, crate::hash::Hash)>)
        ensures
            rows_of(r@) == self.rows(),
    {
        copy_entries(&self.entries)
    }

    /// Keeps the entries whose decision is `true`, the decisions given in the
    /// order of `rows`, and drops the others.
    pub fn retain(&mut self, keep: &Vec<bool>)
        requires
            old(self).wf(),
            keep@.len() == old(self).rows().len(),
        ensures
            final(self).wf(),
            final(self)@ == old(self)@.restrict(kept_paths(old(self).rows(), keep@)),
    {
        let ghost rows = self.rows();
        let mut out: Vec<(String, crate::hash::Hash)> = Vec::new();
        let mut i: usize = 0;
        while i < self.entries.len()
            invariant
                rows == self.rows(),
                unique_paths(rows),
                keep@.len() == rows.len(),
                i <= rows.len(),
                unique_paths(rows_of(out@)),
                forall|j: int| 0 <= j < out@.len() ==> exists|k: int| 0 <= k < i && #[trigger] rows_of(out@)[j].0 == rows[k].0,
                rows_map(rows_of(out@)) == rows_map(rows.take(i as int)).restrict(
                    kept_paths(rows.take(i as int), keep@),
                ),
            decreases rows.len() - i,
        {
            let ghost before = rows_of(out@);
            let ghost t = rows.take(i as int);
            let ghost r = rows[i as int];
            proof {
                assert(rows.take(i + 1) =~= t.push(r));
                assert(unique_paths(t)) by {
                    assert forall|a: int, b: int| 0 <= a < t.len() && 0 <= b < t.len() && #[trigger] t[a].0 == #[trigger] t[b].0 implies a == b by {
                        assert(rows[a].0 == rows[b].0);
                    }
                }
                assert(!rows_map(t).contains_key(r.0)) by {
                    if rows_map(t).contains_key(r.0) {
                        let k = choose|k: int| 0 <= k < t.len() && #[trigger] t[k].0 == r.0;
                        assert(rows[k].0 == rows[i as int].0);
                    }
                }
                lemma_rows_map_push(t, r);
                assert(!rows_map(before).contains_key(r.0)) by {
                    if rows_map(before).contains_key(r.0) {
                        let j = choose|j: int| 0 <= j < before.len() && #[trigger] before[j].0 == r.0;
                        let k = choose|k: int| 0 <= k < i && #[trigger] rows_of(out@)[j].0 == rows[k].0;
                        assert(rows[k].0 == rows[i as int].0);
                    }
                }
            }
            if keep[i] {
                let p = self.entries[i].0.clone();
                let h = self.entries[i].1;
                out.push((p, h));
                proof {
                    assert(rows_of(out@) =~= before.push(r));
                    lemma_rows_map_push(before, r);
                    assert(kept_paths(rows.take(i + 1), keep@) =~= kept_paths(t, keep@).insert(r.0)) by {
                        assert forall|p: Seq<char>| #[trigger] kept_paths(rows.take(i + 1), keep@).contains(p) implies kept_paths(t, keep@).insert(r.0).contains(p) by {
                            let k = choose|k: int| 0 <= k < i + 1 && keep@[k] && #[trigger] rows.take(i + 1)[k].0 == p;
                            if k < i {
                                assert(t[k].0 == p);
                            }
                        }
                        assert forall|p: Seq<char>| kept_paths(t, keep@).insert(r.0).contains(p) implies #[trigger] kept_paths(rows.take(i + 1), keep@).contains(p) by {
                            if p == r.0 {
                                assert(rows.take(i + 1)[i as int].0 == p);
                            } else {
                                let k = choose|k: int| 0 <= k < t.len() && keep@[k] && #[trigger] t[k].0 == p;
                                assert(rows.take(i + 1)[k].0 == p);
                            }
                        }
                    }
                    assert(rows_map(rows_of(out@)) =~= rows_map(rows.take(i + 1)).restrict(
                        kept_paths(rows.take(i + 1), keep@)));
                    assert forall|j: int| 0 <= j < out@.len() implies exists|k: int| 0 <= k < i + 1 && #[trigger] rows_of(out@)[j].0 == rows[k].0 by {
                        if j == out@.len() - 1 {
                            assert(rows_of(out@)[j].0 == rows[i as int].0);
                        } else {
                            assert(rows_of(out@)[j] == before[j]);
                        }
                    }
                }
            } else {
                proof {
                    assert(kept_paths(rows.take(i + 1), keep@) =~= kept_paths(t, keep@)) by {
                        assert forall|p: Seq<char>| #[trigger] kept_paths(rows.take(i + 1), keep@).contains(p) implies kept_paths(t, keep@).contains(p) by {
                            let k = choose|k: int| 0 <= k < i + 1 && keep@[k] && #[trigger] rows.take(i + 1)[k].0 == p;
                            assert(k < i);
                            assert(t[k].0 == p);
                        }
                        assert forall|p: Seq<char>| kept_paths(t, keep@).contains(p) implies #[trigger] kept_paths(rows.take(i + 1), keep@).contains(p) by {
                            let k = choose|k: int| 0 <= k < t.len() && keep@[k] && #[trigger] t[k].0 == p;
                            assert(rows.take(i + 1)[k].0 == p);
                        }
                    }
                    assert(rows_map(rows_of(out@)) =~= rows_map(rows.take(i + 1)).restrict(
                        kept_paths(rows.take(i + 1), keep@)));
                }
            }
            i = i + 1;
        }
        proof {
            assert(rows.take(rows.len() as int) =~= rows);
        }
        self.entries = out;
    }

    /// The index as text: one record per line, in the order of `rows`.
    pub fn to_text(&self) -> (r: String)
        ensures
            r@ == crate::format::index_text(self.rows()),
    {
        crate::format::render_text(&self.entries)
    }

    /// The index that a text stands for; `None` where a line is not a record.
    pub fn from_text(text: &str) -> (r: Option<Database>)
        ensures
            r is Some <==> crate::format::parse_index(text@) is Some,
            r matches Some(db) ==> (db.wf() && Some(db@) == crate::format::parse_index(text@)),
    {
        match crate::format::parse_text(text) {
            Some(rows) => {
                let mut db = Database::new();
                db.extend(rows);
                Some(db)
            },
            None => None,
        }
    }

    /// The stored form of the index: its text, gzip-compressed.
    pub fn save(&self) -> (r: Vec<u8>)
        ensures
            r@ == gzip_of(crate::format::index_text(self.rows())),
    {
        let text = self.to_text();
        gzip(text.as_str())
    }

    /// Reads a stored index. No bytes at all stand for an empty index.
    pub fn open(stored: &[u8]) -> (r: Result<Database, OpenError>)
        ensures
            stored@.len() == 0 ==> (r matches Ok(db) && db.wf() && db@ == Map::<
                Seq<char>,
                Seq<u8>,
            >::empty()),
            stored@.len() > 0 ==> match gunzip_of(stored@) {
                None => r == Err::<Database, OpenError>(OpenError::Unreadable),
                Some(t) => match crate::format::parse_index(t) {
                    None => r == Err::<Database, OpenError>(OpenError::Malformed),
                    Some(m) => (r matches Ok(db) && db.wf() && db@ == m),
                },
            },
    {
        if stored.len() == 0 {
            return Ok(Database::new());
        }
        match gunzip(stored) {
            Some(text) => match Database::from_text(text.as_str()) {
                Some(db) => Ok(db),
                None => Err(OpenError::Malformed),
            },
            None => Err(OpenError::Unreadable),
        }
    }
}

} // verus!

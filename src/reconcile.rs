use vstd::prelude::*;

use crate::database::{copy_entries, rows_of, with_rows, Database, Row};

verus! {

/// What re-hashing one tracked path came to.
#[derive(Clone, Copy, Debug)]
pub enum Probe {
    /// The file was read; its fingerprint.
    Hashed(crate::hash::Hash),
    /// The file no longer exists.
    NotFound,
    /// Reading failed for another reason.
    Failed,
}

/// How a path diverges from the index.
#[derive(Clone, Copy, Debug)]
pub enum Outcome {
    /// The recorded fingerprint, then the one computed now.
    Modified(crate::hash::Hash, crate::hash::Hash),
    /// The recorded file is gone.
    Missing,
    /// The file is on disk but not in the index.
    Untracked,
}

/// An outcome in mathematical form.
pub enum Change {
    Modified(Seq<u8>, Seq<u8>),
    Missing,
    Untracked,
}

impl View for Outcome {
    type V = Change;

    open spec fn view(&self) -> Change {
        match self {
            Outcome::Modified(a, b) => Change::Modified(a@, b@),
            Outcome::Missing => Change::Missing,
            Outcome::Untracked => Change::Untracked,
        }
    }
}

/// One line of a verification report.
#[derive(Clone, Debug)]
pub struct DiffEntry {
    pub path: String,
    pub outcome: Outcome,
}

/// Re-hashing failed for a reason other than the file being gone, which
/// aborts the whole operation.
#[derive(Clone, Debug)]
pub struct HashFailure {
    pub path: String,
}

pub open spec fn diff_view(d: DiffEntry) -> (Seq<char>, Change) {
    (d.path@, d.outcome@)
}

pub open spec fn diffs_view(ds: Seq<DiffEntry>) -> Seq<(Seq<char>, Change)> {
    ds.map_values(|d: DiffEntry| diff_view(d))
}

pub open spec fn paths_view(ps: Seq<String>) -> Seq<Seq<char>> {
    ps.map_values(|p: String| p@)
}

/// The paths of `ps`, in order, that `m` does not track.
pub open spec fn untracked(m: Map<Seq<char>, Seq<u8>>, ps: Seq<Seq<char>>) -> Seq<Seq<char>>
    decreases ps.len(),
{
    if ps.len() == 0 {
        Seq::empty()
    } else if m.contains_key(ps.last()) {
        untracked(m, ps.drop_last())
    } else {
        untracked(m, ps.drop_last()).push(ps.last())
    }
}

pub open spec fn any_failed(ps: Seq<(String, Probe)>) -> bool {
    exists|i: int| 0 <= i < ps.len() && #[trigger] ps[i].1 is Failed
}

/// The new fingerprints to record: one for each tracked path whose file was
/// read and no longer has the recorded fingerprint, in the order of `ps`.
pub open spec fn staged(m: Map<Seq<char>, Seq<u8>>, ps: Seq<(String, Probe)>) -> Seq<Row>
    decreases ps.len(),
{
    if ps.len() == 0 {
        Seq::empty()
    } else {
        let prev = staged(m, ps.drop_last());
        let p = ps.last().0@;
        match ps.last().1 {
            Probe::Hashed(h) => if m.contains_key(p) && m[p] != h@ {
                prev.push((p, h@))
            } else {
                prev
            },
            _ => prev,
        }
    }
}

/// The divergences found among tracked paths, in the order of `ps`.
pub open spec fn tracked_diff(m: Map<Seq<char>, Seq<u8>>, ps: Seq<(String, Probe)>) -> Seq<
    (Seq<char>, Change),
>
    decreases ps.len(),
{
    if ps.len() == 0 {
        Seq::empty()
    } else {
        let prev = tracked_diff(m, ps.drop_last());
        let p = ps.last().0@;
        match ps.last().1 {
            Probe::Hashed(h) => if m.contains_key(p) && m[p] != h@ {
                prev.push((p, Change::Modified(m[p], h@)))
            } else {
                prev
            },
            Probe::NotFound => prev.push((p, Change::Missing)),
            Probe::Failed => prev,
        }
    }
}

/// The walked paths that the index does not track, each reported untracked.
pub open spec fn untracked_diff(m: Map<Seq<char>, Seq<u8>>, ps: Seq<Seq<char>>) -> Seq<
    (Seq<char>, Change),
> {
    untracked(m, ps).map_values(|p: Seq<char>| (p, Change::Untracked))
}

/// The walked paths that still need a fingerprint: those the index does not
/// track, in the order of the walk.
pub fn new_paths(db: &Database, walked: &Vec<String>) -> (r: Vec<String>)
    requires
        db.wf(),
    ensures
        paths_view(r@) == untracked(db@, paths_view(walked@)),
{
    let mut r: Vec<String> = Vec::new();
    let mut i: usize = 0;
    while i < walked.len()
        invariant
            db.wf(),
            i <= walked@.len(),
            paths_view(r@) == untracked(db@, paths_view(walked@).take(i as int)),
        decreases walked@.len() - i,
    {
        let ghost before = paths_view(r@);
        proof {
            assert(paths_view(walked@).take(i + 1).drop_last() =~= paths_view(walked@).take(
                i as int,
            ));
        }
        if db.get(walked[i].as_str()).is_none() {
            r.push(walked[i].clone());
            proof {
                assert(paths_view(r@) =~= before.push(walked@[i as int]@));
            }
        }
        i = i + 1;
    }
    assert(paths_view(walked@).take(walked@.len() as int) =~= paths_view(walked@));
    r
}

fn first_failure(probes: &Vec<(String, Probe)>) -> (r: Option<usize>)
    ensures
        r is None <==> !any_failed(probes@),
        r matches Some(i) ==> i < probes@.len() && probes@[i as int].1 is Failed,
{
    let mut i: usize = 0;
    while i < probes.len()
        invariant
            i <= probes@.len(),
            forall|j: int| 0 <= j < i ==> !(#[trigger] probes@[j].1 is Failed),
        decreases probes@.len() - i,
    {
        if let Probe::Failed = probes[i].1 {
            return Some(i);
        }
        i = i + 1;
    }
    None
}

/// Records the fingerprints that changed. Any failed probe aborts the whole
/// update and leaves the index as it was; a file that is gone is skipped.
/// Returns what was recorded.
pub fn update(db: &mut Database, probes: &Vec<(String, Probe)>) -> (r: Result<
    Vec<(String, crate::hash::Hash)>,
    HashFailure,
>)
    requires
        old(db).wf(),
    ensures
        final(db).wf(),
        r is Err <==> any_failed(probes@),
        r matches Err(e) ==> (final(db)@ == old(db)@ && exists|i: int|
            0 <= i < probes@.len() && #[trigger] probes@[i].1 is Failed && probes@[i].0@
                == e.path@),
        r matches Ok(s) ==> (rows_of(s@) == staged(old(db)@, probes@) && final(db)@ == with_rows(
            old(db)@,
            staged(old(db)@, probes@),
        )),
{
    if let Some(i) = first_failure(probes) {
        return Err(HashFailure { path: probes[i].0.clone() });
    }
    let mut s: Vec<(String, crate::hash::Hash)> = Vec::new();
    let mut i: usize = 0;
    while i < probes.len()
        invariant
            db.wf(),
            i <= probes@.len(),
            rows_of(s@) == staged(db@, probes@.take(i as int)),
        decreases probes@.len() - i,
    {
        let ghost before = rows_of(s@);
        proof {
            assert(probes@.take(i + 1).drop_last() =~= probes@.take(i as int));
        }
        match probes[i].1 {
            Probe::Hashed(h) => {
                match db.get(probes[i].0.as_str()) {
                    Some(old_hash) => {
                        if !(old_hash == h) {
                            s.push((probes[i].0.clone(), h));
                            proof {
                                assert(rows_of(s@) =~= before.push((probes@[i as int].0@, h@)));
                            }
                        }
                    },
                    None => {},
                }
            },
            _ => {},
        }
        i = i + 1;
    }
    assert(probes@.take(probes@.len() as int) =~= probes@);
    db.extend(copy_entries(&s));
    Ok(s)
}

/// The verification report: first the tracked paths that diverge, in the
/// order of `probes` (a path that is gone is missing, one whose fingerprint
/// differs is modified), then the walked paths that the index does not
/// track. Any failed probe aborts the whole verification.
pub fn verify(db: &Database, probes: &Vec<(String, Probe)>, walked: &Vec<String>) -> (r: Result<
    Vec<DiffEntry>,
    HashFailure,
>)
    requires
        db.wf(),
    ensures
        r is Err <==> any_failed(probes@),
        r matches Err(e) ==> exists|i: int|
            0 <= i < probes@.len() && #[trigger] probes@[i].1 is Failed && probes@[i].0@
                == e.path@,
        r matches Ok(d) ==> diffs_view(d@) == tracked_diff(db@, probes@) + untracked_diff(
            db@,
            paths_view(walked@),
        ),
{
    if let Some(i) = first_failure(probes) {
        return Err(HashFailure { path: probes[i].0.clone() });
    }
    let mut d: Vec<DiffEntry> = Vec::new();
    let mut i: usize = 0;
    while i < probes.len()
        invariant
            db.wf(),
            i <= probes@.len(),
            diffs_view(d@) == tracked_diff(db@, probes@.take(i as int)),
        decreases probes@.len() - i,
    {
        let ghost before = diffs_view(d@);
        proof {
            assert(probes@.take(i + 1).drop_last() =~= probes@.take(i as int));
        }
        match probes[i].1 {
            Probe::Hashed(h) => {
                match db.get(probes[i].0.as_str()) {
                    Some(old_hash) => {
                        if !(old_hash == h) {
                            d.push(
                                DiffEntry {
                                    path: probes[i].0.clone(),
                                    outcome: Outcome::Modified(old_hash, h),
                                },
                            );
                            proof {
                                assert(diffs_view(d@) =~= before.push(
                                    (probes@[i as int].0@, Change::Modified(old_hash@, h@)),
                                ));
                            }
                        }
                    },
                    None => {},
                }
            },
            Probe::NotFound => {
                d.push(DiffEntry { path: probes[i].0.clone(), outcome: Outcome::Missing });
                proof {
                    assert(diffs_view(d@) =~= before.push((probes@[i as int].0@, Change::Missing)));
                }
            },
            Probe::Failed => {},
        }
        i = i + 1;
    }
    assert(probes@.take(probes@.len() as int) =~= probes@);
    let ghost found = diffs_view(d@);
    let fresh = new_paths(db, walked);
    let mut k: usize = 0;
    while k < fresh.len()
        invariant
            k <= fresh@.len(),
            diffs_view(d@) == found + paths_view(fresh@).take(k as int).map_values(
                |p: Seq<char>| (p, Change::Untracked),
            ),
        decreases fresh@.len() - k,
    {
        let ghost before = diffs_view(d@);
        d.push(DiffEntry { path: fresh[k].clone(), outcome: Outcome::Untracked });
        proof {
            assert(paths_view(fresh@).take(k + 1).map_values(
                |p: Seq<char>| (p, Change::Untracked),
            ) =~= paths_view(fresh@).take(k as int).map_values(
                |p: Seq<char>| (p, Change::Untracked),
            ).push((fresh@[k as int]@, Change::Untracked)));
            assert(diffs_view(d@) =~= before.push((fresh@[k as int]@, Change::Untracked)));
        }
        k = k + 1;
    }
    assert(paths_view(fresh@).take(fresh@.len() as int) =~= paths_view(fresh@));
    Ok(d)
}

proof fn lemma_with_rows_keys(m: Map<Seq<char>, Seq<u8>>, rows: Seq<Row>)
    ensures
        forall|p: Seq<char>| m.contains_key(p) ==> #[trigger] with_rows(m, rows).contains_key(p),
        forall|i: int| 0 <= i < rows.len() ==> with_rows(m, rows).contains_key(#[trigger] rows[i].0),
        forall|p: Seq<char>| #[trigger] with_rows(m, rows).contains_key(p) ==> m.contains_key(p) || exists|i: int| 0 <= i < rows.len() && #[trigger] rows[i].0 == p,
        forall|p: Seq<char>| m.contains_key(p) && (forall|i: int| 0 <= i < rows.len() ==> #[trigger] rows[i].0 != p) ==> #[trigger] with_rows(m, rows)[p] == m[p],
    decreases rows.len(),
{
    if rows.len() > 0 {
        let front = rows.drop_last();
        lemma_with_rows_keys(m, front);
        assert forall|p: Seq<char>| m.contains_key(p) implies #[trigger] with_rows(m, rows).contains_key(p) by {
            assert(with_rows(m, front).contains_key(p));
        }
        assert forall|i: int| 0 <= i < rows.len() implies with_rows(m, rows).contains_key(#[trigger] rows[i].0) by {
            if i < rows.len() - 1 {
                assert(front[i] == rows[i]);
            }
        }
        assert forall|p: Seq<char>| #[trigger] with_rows(m, rows).contains_key(p) implies m.contains_key(p) || exists|i: int| 0 <= i < rows.len() && #[trigger] rows[i].0 == p by {
            if p != rows.last().0 && !m.contains_key(p) {
                assert(with_rows(m, front).contains_key(p));
                let i = choose|i: int| 0 <= i < front.len() && #[trigger] front[i].0 == p;
                assert(rows[i].0 == p);
            }
        }
        assert forall|p: Seq<char>| m.contains_key(p) && (forall|i: int| 0 <= i < rows.len() ==> #[trigger] rows[i].0 != p) implies #[trigger] with_rows(m, rows)[p] == m[p] by {
            assert(rows[rows.len() - 1].0 != p);
            assert forall|i: int| 0 <= i < front.len() implies #[trigger] front[i].0 != p by {
                assert(rows[i].0 != p);
            }
            assert(with_rows(m, front)[p] == m[p]);
            assert(with_rows(m, rows) == with_rows(m, front).insert(rows.last().0, rows.last().1));
        }
    }
}

proof fn lemma_untracked_covers(m: Map<Seq<char>, Seq<u8>>, ps: Seq<Seq<char>>)
    ensures
        forall|i: int| 0 <= i < ps.len() && !m.contains_key(ps[i]) ==> #[trigger] untracked(m, ps).contains(ps[i]),
        forall|j: int| 0 <= j < untracked(m, ps).len() ==> !m.contains_key(#[trigger] untracked(m, ps)[j]),
        (forall|i: int| 0 <= i < ps.len() ==> m.contains_key(#[trigger] ps[i])) ==> untracked(m, ps).len() == 0,
    decreases ps.len(),
{
    if ps.len() > 0 {
        let front = ps.drop_last();
        lemma_untracked_covers(m, front);
        let u = untracked(m, ps);
        let uf = untracked(m, front);
        assert forall|i: int| 0 <= i < ps.len() && !m.contains_key(ps[i]) implies #[trigger] u.contains(ps[i]) by {
            if i < ps.len() - 1 {
                assert(front[i] == ps[i]);
                assert(uf.contains(front[i]));
                let j = choose|j: int| 0 <= j < uf.len() && uf[j] == front[i];
                if !m.contains_key(ps.last()) {
                    assert(u[j] == uf[j]);
                }
            } else {
                assert(u[u.len() - 1] == ps[i]);
            }
        }
        assert forall|j: int| 0 <= j < u.len() implies !m.contains_key(#[trigger] u[j]) by {
            if j < uf.len() {
                assert(u[j] == uf[j]);
            }
        }
        if forall|i: int| 0 <= i < ps.len() ==> m.contains_key(#[trigger] ps[i]) {
            assert forall|i: int| 0 <= i < front.len() implies m.contains_key(#[trigger] front[i]) by {
                assert(front[i] == ps[i]);
            }
            assert(m.contains_key(ps[ps.len() - 1]));
        }
    }
}

/// Appending twice over the same walk, with nothing changed on disk between
/// the runs: once the first run has recorded a fingerprint for each path it
/// found untracked, the second run finds no path to add, and recording its
/// (empty) batch leaves the index as it was.
pub proof fn lemma_append_idempotent(
    m: Map<Seq<char>, Seq<u8>>,
    walked: Seq<Seq<char>>,
    hashed: Seq<Row>,
)
    requires
        hashed.len() == untracked(m, walked).len(),
        forall|i: int| 0 <= i < hashed.len() ==> #[trigger] hashed[i].0 == untracked(m, walked)[i],
    ensures
        untracked(with_rows(m, hashed), walked) == Seq::<Seq<char>>::empty(),
        with_rows(with_rows(m, hashed), Seq::<Row>::empty()) == with_rows(m, hashed),
{
    let m1 = with_rows(m, hashed);
    lemma_with_rows_keys(m, hashed);
    lemma_untracked_covers(m, walked);
    assert forall|i: int| 0 <= i < walked.len() implies m1.contains_key(#[trigger] walked[i]) by {
        if !m.contains_key(walked[i]) {
            let u = untracked(m, walked);
            assert(u.contains(walked[i]));
            let j = choose|j: int| 0 <= j < u.len() && u[j] == walked[i];
            assert(hashed[j].0 == walked[i]);
        }
    }
    lemma_untracked_covers(m1, walked);
    assert(untracked(m1, walked) =~= Seq::<Seq<char>>::empty());
}

proof fn lemma_staged_paths(m: Map<Seq<char>, Seq<u8>>, ps: Seq<(String, Probe)>)
    ensures
        forall|i: int| 0 <= i < staged(m, ps).len() ==> m.contains_key(#[trigger] staged(m, ps)[i].0),
        forall|i: int|
            #![trigger staged(m, ps)[i]]
            0 <= i < staged(m, ps).len() ==> exists|k: int|
                0 <= k < ps.len() && ps[k].1 is Hashed && #[trigger] ps[k].0@ == staged(m, ps)[i].0,
    decreases ps.len(),
{
    if ps.len() > 0 {
        let front = ps.drop_last();
        lemma_staged_paths(m, front);
        let s = staged(m, ps);
        let sf = staged(m, front);
        assert forall|i: int| 0 <= i < s.len() implies m.contains_key(#[trigger] s[i].0) && exists|k: int| 0 <= k < ps.len() && ps[k].1 is Hashed && #[trigger] ps[k].0@ == s[i].0 by {
            if i < sf.len() {
                assert(s[i] == sf[i]);
                let k = choose|k: int| 0 <= k < front.len() && front[k].1 is Hashed && #[trigger] front[k].0@ == sf[i].0;
                assert(ps[k] == front[k]);
            } else {
                assert(ps[ps.len() - 1].0@ == s[i].0);
            }
        }
    }
}

/// An update records new fingerprints only for paths already in the index:
/// it adds no path and removes none. A path for which no file was read (it
/// is gone, say) keeps the fingerprint it had.
pub proof fn lemma_update_keeps_paths(m: Map<Seq<char>, Seq<u8>>, ps: Seq<(String, Probe)>)
    ensures
        with_rows(m, staged(m, ps)).dom() == m.dom(),
        forall|p: Seq<char>|
            m.contains_key(p) && (forall|k: int| 0 <= k < ps.len() && #[trigger] ps[k].0@ == p ==> !(ps[k].1 is Hashed))
                ==> #[trigger] with_rows(m, staged(m, ps))[p] == m[p],
{
    let s = staged(m, ps);
    lemma_staged_paths(m, ps);
    lemma_with_rows_keys(m, s);
    assert(with_rows(m, s).dom() =~= m.dom());
    assert forall|p: Seq<char>|
        m.contains_key(p) && (forall|k: int| 0 <= k < ps.len() && #[trigger] ps[k].0@ == p ==> !(ps[k].1 is Hashed))
            implies #[trigger] with_rows(m, s)[p] == m[p] by {
        assert forall|i: int| 0 <= i < s.len() implies #[trigger] s[i].0 != p by {
            let k = choose|k: int| 0 <= k < ps.len() && ps[k].1 is Hashed && #[trigger] ps[k].0@ == s[i].0;
        }
    }
}

proof fn lemma_tracked_diff_empty(m: Map<Seq<char>, Seq<u8>>, ps: Seq<(String, Probe)>)
    requires
        forall|i: int|
            0 <= i < ps.len() ==> (#[trigger] ps[i].1 matches Probe::Hashed(h) && m.contains_key(
                ps[i].0@,
            ) && m[ps[i].0@] == h@),
    ensures
        tracked_diff(m, ps).len() == 0,
    decreases ps.len(),
{
    if ps.len() > 0 {
        let front = ps.drop_last();
        assert forall|i: int|
            0 <= i < front.len() implies (#[trigger] front[i].1 matches Probe::Hashed(h)
            && m.contains_key(front[i].0@) && m[front[i].0@] == h@) by {
            assert(front[i] == ps[i]);
        }
        lemma_tracked_diff_empty(m, front);
        assert(ps[ps.len() - 1].1 is Hashed);
    }
}

/// Verifying an index that matches the disk: when every tracked file was
/// read with the fingerprint on record and every walked path is tracked,
/// the report is empty.
pub proof fn lemma_verify_intact(
    m: Map<Seq<char>, Seq<u8>>,
    ps: Seq<(String, Probe)>,
    walked: Seq<Seq<char>>,
)
    requires
        forall|i: int|
            0 <= i < ps.len() ==> (#[trigger] ps[i].1 matches Probe::Hashed(h) && m.contains_key(
                ps[i].0@,
            ) && m[ps[i].0@] == h@),
        forall|i: int| 0 <= i < walked.len() ==> m.contains_key(#[trigger] walked[i]),
    ensures
        !any_failed(ps),
        tracked_diff(m, ps) + untracked_diff(m, walked) == Seq::<(Seq<char>, Change)>::empty(),
{
    lemma_tracked_diff_empty(m, ps);
    lemma_untracked_covers(m, walked);
    assert(!any_failed(ps)) by {
        if any_failed(ps) {
            let i = choose|i: int| 0 <= i < ps.len() && #[trigger] ps[i].1 is Failed;
            assert(ps[i].1 is Hashed);
        }
    }
    assert(tracked_diff(m, ps) + untracked_diff(m, walked) =~= Seq::<(Seq<char>, Change)>::empty());
}

proof fn lemma_staged_empty(m: Map<Seq<char>, Seq<u8>>, ps: Seq<(String, Probe)>)
    requires
        forall|i: int|
            0 <= i < ps.len() ==> (#[trigger] ps[i].1 matches Probe::Hashed(h) && m.contains_key(
                ps[i].0@,
            ) && m[ps[i].0@] == h@),
    ensures
        staged(m, ps).len() == 0,
    decreases ps.len(),
{
    if ps.len() > 0 {
        let front = ps.drop_last();
        assert forall|i: int|
            0 <= i < front.len() implies (#[trigger] front[i].1 matches Probe::Hashed(h)
            && m.contains_key(front[i].0@) && m[front[i].0@] == h@) by {
            assert(front[i] == ps[i]);
        }
        lemma_staged_empty(m, front);
        assert(ps[ps.len() - 1].1 is Hashed);
    }
}

/// An update where exactly one tracked file was read with a new fingerprint,
/// and every other file with the fingerprint on record, stages exactly that
/// one change.
pub proof fn lemma_update_single_change(
    m: Map<Seq<char>, Seq<u8>>,
    ps: Seq<(String, Probe)>,
    k: int,
    h: crate::hash::Hash,
)
    requires
        0 <= k < ps.len(),
        ps[k].1 == Probe::Hashed(h),
        m.contains_key(ps[k].0@),
        m[ps[k].0@] != h@,
        forall|i: int|
            0 <= i < ps.len() && i != k ==> (#[trigger] ps[i].1 matches Probe::Hashed(g)
                && m.contains_key(ps[i].0@) && m[ps[i].0@] == g@),
    ensures
        staged(m, ps) == seq![(ps[k].0@, h@)],
    decreases ps.len(),
{
    let front = ps.drop_last();
    if k == ps.len() - 1 {
        assert forall|i: int|
            0 <= i < front.len() implies (#[trigger] front[i].1 matches Probe::Hashed(g)
            && m.contains_key(front[i].0@) && m[front[i].0@] == g@) by {
            assert(front[i] == ps[i]);
        }
        lemma_staged_empty(m, front);
        assert(staged(m, ps) =~= seq![(ps[k].0@, h@)]);
    } else {
        assert forall|i: int|
            0 <= i < front.len() && i != k implies (#[trigger] front[i].1 matches Probe::Hashed(g)
            && m.contains_key(front[i].0@) && m[front[i].0@] == g@) by {
            assert(front[i] == ps[i]);
        }
        assert(front[k] == ps[k]);
        lemma_update_single_change(m, front, k, h);
        assert(ps[ps.len() - 1].1 is Hashed);
    }
}

} // verus!

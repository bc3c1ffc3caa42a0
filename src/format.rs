use vstd::prelude::*;

use crate::database::{rows_of, unique_paths, rows_map, with_rows, Row};
use crate::hash::{fingerprint_text, is_hex_char, parse_fingerprint, tag};
use crate::text::{chars_of, string_of};
use vstd::string::StringExecFns;

verus! {

broadcast use vstd::string::group_string_axioms;

/// Where the first `c` in `s` stands, or the length of `s` if there is none.
pub open spec fn first_index(s: Seq<char>, c: char) -> nat
    decreases s.len(),
{
    if s.len() == 0 {
        0
    } else if s[0] == c {
        0
    } else {
        1 + first_index(s.drop_first(), c)
    }
}

/// One record: the path, a comma, the fingerprint's text form, a line end.
pub open spec fn record_text(r: Row) -> Seq<char> {
    r.0 + seq![','] + fingerprint_text(r.1) + seq!['\n']
}

/// The whole index as text, one record per line in the order of the rows.
pub open spec fn index_text(rows: Seq<Row>) -> Seq<char>
    decreases rows.len(),
{
    if rows.len() == 0 {
        Seq::empty()
    } else {
        index_text(rows.drop_last()) + record_text(rows.last())
    }
}

/// A line read as a record: the path runs up to the first comma, and all
/// that follows it must be a fingerprint's text form.
pub open spec fn parse_record(line: Seq<char>) -> Option<Row> {
    let c = first_index(line, ',');
    if c >= line.len() {
        None
    } else {
        match parse_fingerprint(line.skip(c + 1 as int)) {
            Some(d) => Some((line.take(c as int), d)),
            None => None,
        }
    }
}

/// What follows the first line end of `t`; empty where there is none.
pub open spec fn after_line(t: Seq<char>) -> Seq<char> {
    let n = first_index(t, '\n');
    if n < t.len() {
        t.skip(n + 1 as int)
    } else {
        Seq::empty()
    }
}

/// The records of a text, one per line; a last line may lack its line end.
/// Any line that is not a record makes the whole text malformed.
pub open spec fn parse_records(t: Seq<char>) -> Option<Seq<Row>>
    decreases t.len(),
{
    if t.len() == 0 {
        Some(Seq::empty())
    } else {
        let line = t.take(first_index(t, '\n') as int);
        match parse_record(line) {
            Some(r) => match parse_records(after_line(t)) {
                Some(rs) => Some(seq![r] + rs),
                None => None,
            },
            None => None,
        }
    }
}

pub open spec fn prepend(a: Seq<Row>, o: Option<Seq<Row>>) -> Option<Seq<Row>> {
    match o {
        Some(rs) => Some(a + rs),
        None => None,
    }
}

proof fn lemma_first_index_bound(s: Seq<char>, c: char)
    ensures
        first_index(s, c) <= s.len(),
        first_index(s, c) < s.len() ==> s[first_index(s, c) as int] == c,
        forall|k: int| 0 <= k < first_index(s, c) ==> s[k] != c,
    decreases s.len(),
{
    if s.len() > 0 && s[0] != c {
        lemma_first_index_bound(s.drop_first(), c);
        assert forall|k: int| 0 <= k < first_index(s, c) implies s[k] != c by {
            if k > 0 {
                assert(s[k] == s.drop_first()[k - 1]);
            }
        }
    }
}

proof fn lemma_first_index_at(s: Seq<char>, c: char, j: int)
    requires
        0 <= j <= s.len(),
        forall|k: int| 0 <= k < j ==> s[k] != c,
        j == s.len() || s[j] == c,
    ensures
        first_index(s, c) == j,
    decreases j,
{
    if j > 0 {
        assert forall|k: int| 0 <= k < j - 1 implies s.drop_first()[k] != c by {
            assert(s.drop_first()[k] == s[k + 1]);
        }
        lemma_first_index_at(s.drop_first(), c, j - 1);
    }
}

fn sub_chars(cs: &Vec<char>, from: usize, to: usize) -> (r: Vec<char>)
    requires
        from <= to <= cs@.len(),
    ensures
        r@ == cs@.subrange(from as int, to as int),
{
    let mut r: Vec<char> = Vec::new();
    let mut i: usize = from;
    while i < to
        invariant
            from <= i <= to <= cs@.len(),
            r@ == cs@.subrange(from as int, i as int),
        decreases to - i,
    {
        r.push(cs[i]);
        proof {
            assert(cs@.subrange(from as int, i + 1) =~= cs@.subrange(from as int, i as int).push(
                cs@[i as int],
            ));
        }
        i = i + 1;
    }
    r
}

fn first_from(cs: &Vec<char>, from: usize, to: usize, c: char) -> (r: usize)
    requires
        from <= to <= cs@.len(),
    ensures
        from <= r <= to,
        r - from == first_index(cs@.subrange(from as int, to as int), c),
{
    let mut j: usize = from;
    while j < to && cs[j] != c
        invariant
            from <= j <= to <= cs@.len(),
            forall|k: int| from <= k < j ==> cs@[k] != c,
        decreases to - j,
    {
        j = j + 1;
    }
    proof {
        let s = cs@.subrange(from as int, to as int);
        assert forall|k: int| 0 <= k < j - from implies s[k] != c by {
            assert(s[k] == cs@[from + k]);
        }
        if j < to {
            assert(s[j - from] == cs@[j as int]);
        }
        lemma_first_index_at(s, c, j - from);
    }
    j
}

/// Reads the line `cs[from..to]` as a record.
fn parse_line(cs: &Vec<char>, from: usize, to: usize) -> (r: Option<(String, crate::hash::Hash)>)
    requires
        from <= to <= cs@.len(),
    ensures
        match r {
            Some(e) => parse_record(cs@.subrange(from as int, to as int)) == Some(
                crate::database::row_of(e),
            ),
            None => parse_record(cs@.subrange(from as int, to as int)) is None,
        },
{
    let ghost line = cs@.subrange(from as int, to as int);
    let c = first_from(cs, from, to, ',');
    if c >= to {
        return None;
    }
    let path = string_of(&sub_chars(cs, from, c));
    let text = string_of(&sub_chars(cs, c + 1, to));
    proof {
        assert(text@ =~= line.skip(c - from + 1));
        assert(path@ =~= line.take(c - from));
    }
    match crate::hash::Hash::parse(text.as_str()) {
        Some(h) => Some((path, h)),
        None => None,
    }
}

/// Reads a whole text as records; `None` where a line is not one.
pub fn parse_text(text: &str) -> (r: Option<Vec<(String, crate::hash::Hash)>>)
    ensures
        match r {
            Some(v) => parse_records(text@) == Some(rows_of(v@)),
            None => parse_records(text@) is None,
        },
{
    let cs = chars_of(text);
    let ghost t = text@;
    let mut out: Vec<(String, crate::hash::Hash)> = Vec::new();
    let mut pos: usize = 0;
    assert(t.skip(0) =~= t);
    while pos < cs.len()
        invariant
            t == text@,
            cs@ == t,
            pos <= cs@.len(),
            parse_records(t) == prepend(rows_of(out@), parse_records(t.skip(pos as int))),
        decreases cs@.len() - pos,
    {
        let len = cs.len();
        let j = first_from(&cs, pos, len, '\n');
        let ghost u = t.skip(pos as int);
        proof {
            assert(cs@.subrange(pos as int, len as int) =~= u);
            lemma_first_index_bound(u, '\n');
            assert(u.take(j - pos) =~= cs@.subrange(pos as int, j as int));
        }
        let next = if j < len {
            j + 1
        } else {
            len
        };
        proof {
            assert(after_line(u) =~= t.skip(next as int));
        }
        match parse_line(&cs, pos, j) {
            Some(e) => {
                let ghost before = rows_of(out@);
                out.push(e);
                proof {
                    assert(rows_of(out@) =~= before.push(crate::database::row_of(e)));
                    match parse_records(t.skip(next as int)) {
                        Some(rs) => {
                            assert(before + (seq![crate::database::row_of(e)] + rs) =~= before.push(
                                crate::database::row_of(e),
                            ) + rs);
                        },
                        None => {},
                    }
                }
            },
            None => {
                proof {
                    assert(parse_records(u) is None);
                }
                return None;
            },
        }
        pos = next;
    }
    proof {
        assert(t.skip(pos as int) =~= Seq::<char>::empty());
        assert(rows_of(out@) + Seq::<Row>::empty() =~= rows_of(out@));
    }
    Some(out)
}

/// The text of the entries, one record per line in their order.
pub fn render_text(entries: &Vec<(String, crate::hash::Hash)>) -> (r: String)
    ensures
        r@ == index_text(rows_of(entries@)),
{
    let mut r = String::new();
    let mut i: usize = 0;
    while i < entries.len()
        invariant
            i <= entries@.len(),
            r@ == index_text(rows_of(entries@).take(i as int)),
        decreases entries@.len() - i,
    {
        let ghost before = r@;
        let text = entries[i].1.to_string();
        r.append(entries[i].0.as_str());
        r.push(',');
        r.append(text.as_str());
        r.push('\n');
        proof {
            let rows = rows_of(entries@);
            assert(rows.take(i + 1).drop_last() =~= rows.take(i as int));
            assert(r@ =~= before + record_text(rows[i as int]));
        }
        i = i + 1;
    }
    assert(rows_of(entries@).take(entries@.len() as int) =~= rows_of(entries@));
    r
}

/// Neither a field separator nor a line end occurs in the path.
pub open spec fn plain_path(p: Seq<char>) -> bool {
    !p.contains(',') && !p.contains('\n')
}

pub open spec fn plain_rows(rows: Seq<Row>) -> bool {
    forall|i: int| 0 <= i < rows.len() ==> plain_path(#[trigger] rows[i].0) && rows[i].1.len()
        == 64
}

proof fn lemma_index_text_front(rows: Seq<Row>)
    requires
        rows.len() > 0,
    ensures
        index_text(rows) == record_text(rows[0]) + index_text(rows.drop_first()),
    decreases rows.len(),
{
    if rows.len() > 1 {
        lemma_index_text_front(rows.drop_last());
        assert(rows.drop_last().drop_first() =~= rows.drop_first().drop_last());
        assert(rows.drop_last()[0] == rows[0]);
        assert(rows.drop_first().last() == rows.last());
    } else {
        assert(rows.drop_first() =~= Seq::<Row>::empty());
        assert(rows.drop_last() =~= Seq::<Row>::empty());
    }
}

proof fn lemma_fingerprint_text_plain(d: Seq<u8>)
    requires
        d.len() == 64,
    ensures
        !fingerprint_text(d).contains(','),
        !fingerprint_text(d).contains('\n'),
        parse_fingerprint(fingerprint_text(d)) == Some(d),
{
    crate::hash::lemma_digest_round_trip(d);
    let f = fingerprint_text(d);
    assert forall|k: int| 0 <= k < f.len() implies f[k] != ',' && f[k] != '\n' by {
        if k < 8 {
            assert(f[k] == tag()[k]);
        } else {
            assert(is_hex_char(f[k]));
        }
    }
}

proof fn lemma_parse_records_render(rows: Seq<Row>)
    requires
        plain_rows(rows),
    ensures
        parse_records(index_text(rows)) == Some(rows),
    decreases rows.len(),
{
    if rows.len() == 0 {
        assert(index_text(rows) =~= Seq::<char>::empty());
        assert(rows =~= Seq::<Row>::empty());
    } else {
        lemma_index_text_front(rows);
        let r = rows[0];
        let rest = rows.drop_first();
        assert(plain_rows(rest)) by {
            assert forall|i: int| 0 <= i < rest.len() implies plain_path(#[trigger] rest[i].0)
                && rest[i].1.len() == 64 by {
                assert(rest[i] == rows[i + 1]);
            }
        }
        lemma_parse_records_render(rest);
        lemma_fingerprint_text_plain(r.1);
        let f = fingerprint_text(r.1);
        let line = r.0 + seq![','] + f;
        let t = index_text(rows);
        assert(t =~= line + seq!['\n'] + index_text(rest));
        assert forall|k: int| 0 <= k < line.len() implies line[k] != '\n' by {
            if k < r.0.len() {
                assert(line[k] == r.0[k]);
            } else if k > r.0.len() {
                assert(line[k] == f[k - r.0.len() - 1]);
            }
        }
        assert(t[line.len() as int] == '\n');
        lemma_first_index_at(t, '\n', line.len() as int);
        assert(t.take(line.len() as int) =~= line);
        assert(after_line(t) =~= index_text(rest));
        assert forall|k: int| 0 <= k < r.0.len() implies line[k] != ',' by {
            assert(line[k] == r.0[k]);
        }
        lemma_first_index_at(line, ',', r.0.len() as int);
        assert(line.skip(r.0.len() + 1 as int) =~= f);
        assert(line.take(r.0.len() as int) =~= r.0);
        assert(seq![r] + rest =~= rows);
    }
}

/// The map that a text stands for: its records inserted in order, so that a
/// later record for a path replaces an earlier one.
pub open spec fn parse_index(t: Seq<char>) -> Option<Map<Seq<char>, Seq<u8>>> {
    match parse_records(t) {
        Some(rows) => Some(with_rows(Map::empty(), rows)),
        None => None,
    }
}

proof fn lemma_with_rows_unique(rows: Seq<Row>)
    requires
        unique_paths(rows),
    ensures
        with_rows(Map::empty(), rows) == rows_map(rows),
    decreases rows.len(),
{
    if rows.len() == 0 {
        assert(rows_map(rows) =~= Map::<Seq<char>, Seq<u8>>::empty());
    } else {
        let front = rows.drop_last();
        assert(unique_paths(front)) by {
            assert forall|i: int, j: int|
                0 <= i < front.len() && 0 <= j < front.len() && #[trigger] front[i].0
                    == #[trigger] front[j].0 implies i == j by {
                assert(rows[i].0 == front[i].0 && rows[j].0 == front[j].0);
            }
        }
        lemma_with_rows_unique(front);
        let r = rows.last();
        assert(!rows_map(front).contains_key(r.0)) by {
            if rows_map(front).contains_key(r.0) {
                let i = choose|i: int| 0 <= i < front.len() && #[trigger] front[i].0 == r.0;
                assert(rows[i].0 == rows[rows.len() - 1].0);
            }
        }
        crate::database::lemma_rows_map_push(front, r);
        assert(front.push(r) =~= rows);
    }
}

/// Writing rows with distinct, plain paths as text and reading the text back
/// gives exactly the map that the rows stand for.
pub proof fn lemma_index_round_trip(rows: Seq<Row>)
    requires
        unique_paths(rows),
        plain_rows(rows),
    ensures
        parse_index(index_text(rows)) == Some(rows_map(rows)),
{
    lemma_parse_records_render(rows);
    lemma_with_rows_unique(rows);
}

} // verus!

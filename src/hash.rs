use blake2::Digest;
use vstd::prelude::*;

use crate::text::{chars_of, string_of};

verus! {

broadcast use vstd::string::group_string_axioms;

/// Number of bytes in a fingerprint's digest.
pub const DIGEST_LEN: usize = 64;

/// Number of characters in the text form of a fingerprint.
pub const TEXT_LEN: usize = 136;

/// A content fingerprint: a digest tagged with the algorithm that made it.
#[derive(Clone, Copy, Debug)]
pub enum Hash {
    Blake2b512([u8; 64]),
}

impl View for Hash {
    type V = Seq<u8>;

    /// The digest bytes.
    open spec fn view(&self) -> Seq<u8> {
        match self {
            Hash::Blake2b512(bytes) => bytes@,
        }
    }
}

impl PartialEq for Hash {
    fn eq(&self, other: &Hash) -> (r: bool) {
        let a = self.digest();
        let b = other.digest();
        let mut i: usize = 0;
        while i < DIGEST_LEN
            invariant
                a@ == self@,
                b@ == other@,
                a@.len() == 64,
                b@.len() == 64,
                i <= 64,
                forall|j: int| 0 <= j < i ==> a@[j] == b@[j],
            decreases 64 - i,
        {
            if a[i] != b[i] {
                assert(self@[i as int] != other@[i as int]);
                return false;
            }
            i = i + 1;
        }
        assert(a@ =~= b@);
        true
    }
}

impl vstd::std_specs::cmp::PartialEqSpecImpl for Hash {
    open spec fn obeys_eq_spec() -> bool {
        true
    }

    open spec fn eq_spec(&self, other: &Hash) -> bool {
        self@ == other@
    }
}

/// The algorithm tag that starts the text form.
pub open spec fn tag() -> Seq<char> {
    seq!['b', 'l', 'a', 'k', 'e', '2', 'b', ':']
}

/// The upper-case hexadecimal digit of a value below sixteen.
pub open spec fn hex_digit(v: u8) -> char {
    if v < 10 {
        (v + 48) as char
    } else {
        (v + 55) as char
    }
}

pub open spec fn is_hex_char(c: char) -> bool {
    ('0' <= c && c <= '9') || ('A' <= c && c <= 'F') || ('a' <= c && c <= 'f')
}

/// The value of a hexadecimal digit of either case.
pub open spec fn hex_value(c: char) -> u8 {
    if '0' <= c && c <= '9' {
        (c as u32 - 48) as u8
    } else if 'A' <= c && c <= 'F' {
        (c as u32 - 55) as u8
    } else {
        (c as u32 - 87) as u8
    }
}

/// Two upper-case hexadecimal digits per byte, high digit first.
pub open spec fn upper_hex(b: Seq<u8>) -> Seq<char> {
    Seq::new(
        2 * b.len(),
        |i: int|
            if i % 2 == 0 {
                hex_digit(b[i / 2] / 16)
            } else {
                hex_digit(b[i / 2] % 16)
            },
    )
}

/// The bytes that a sequence of hexadecimal digit pairs stands for.
pub open spec fn parse_hex(s: Seq<char>) -> Seq<u8> {
    Seq::new(
        s.len() / 2,
        |i: int| (hex_value(s[2 * i]) * 16 + hex_value(s[2 * i + 1])) as u8,
    )
}

/// The text form of a fingerprint with the given digest.
pub open spec fn fingerprint_text(digest: Seq<u8>) -> Seq<char> {
    tag() + upper_hex(digest)
}

/// `s` is the tag followed by exactly 128 hexadecimal digits, of either case.
pub open spec fn is_fingerprint_text(s: Seq<char>) -> bool {
    &&& s.len() == 136
    &&& s.take(8) == tag()
    &&& forall|i: int| 8 <= i < 136 ==> is_hex_char(#[trigger] s[i])
}

/// The digest that a text form stands for, if it is well formed.
pub open spec fn parse_fingerprint(s: Seq<char>) -> Option<Seq<u8>> {
    if is_fingerprint_text(s) {
        Some(parse_hex(s.skip(8)))
    } else {
        None
    }
}

proof fn lemma_hex_digit(v: u8)
    requires
        v < 16,
    ensures
        is_hex_char(hex_digit(v)),
        hex_value(hex_digit(v)) == v,
{
}

/// Encoding a fingerprint as text and reading the text back gives the same
/// digest, and the text has the exact shape that reading accepts.
pub proof fn lemma_fingerprint_round_trip(h: Hash)
    ensures
        is_fingerprint_text(h.text()),
        parse_fingerprint(h.text()) == Some(h@),
{
    lemma_digest_round_trip(h@);
}

/// A 64-byte digest survives its text form.
pub proof fn lemma_digest_round_trip(d: Seq<u8>)
    requires
        d.len() == 64,
    ensures
        is_fingerprint_text(fingerprint_text(d)),
        parse_fingerprint(fingerprint_text(d)) == Some(d),
{
    let t = fingerprint_text(d);
    assert(t.take(8) =~= tag());
    assert forall|i: int| 8 <= i < 136 implies is_hex_char(#[trigger] t[i]) by {
        let k = (i - 8) / 2;
        lemma_hex_digit(d[k] / 16);
        lemma_hex_digit(d[k] % 16);
    }
    let p = parse_hex(t.skip(8));
    assert forall|k: int| 0 <= k < 64 implies #[trigger] p[k] == d[k] by {
        lemma_hex_digit(d[k] / 16);
        lemma_hex_digit(d[k] % 16);
        assert(t.skip(8)[2 * k] == hex_digit(d[k] / 16));
        assert(t.skip(8)[2 * k + 1] == hex_digit(d[k] % 16));
    }
    assert(p =~= d);
}

/// The code of a character with upper-case letters mapped to lower case,
/// for the letters of hexadecimal digits.
pub open spec fn folded_code(c: char) -> u32 {
    if 'A' <= c && c <= 'F' {
        (c as u32 + 32) as u32
    } else {
        c as u32
    }
}

/// Hexadecimal digits are read without regard to case: a text that differs
/// from a well-formed one only in the case of its digits is well formed too
/// and stands for the same digest.
pub proof fn lemma_parse_ignores_case(s: Seq<char>, t: Seq<char>)
    requires
        is_fingerprint_text(s),
        t.len() == s.len(),
        t.take(8) == s.take(8),
        forall|i: int| 8 <= i < 136 ==> is_hex_char(#[trigger] t[i]),
        forall|i: int| 8 <= i < 136 ==> folded_code(#[trigger] s[i]) == folded_code(t[i]),
    ensures
        is_fingerprint_text(t),
        parse_fingerprint(t) == parse_fingerprint(s),
{
    assert forall|i: int| 8 <= i < 136 implies hex_value(#[trigger] s[i]) == hex_value(t[i]) by {
        assert(folded_code(s[i]) == folded_code(t[i]));
        assert(is_hex_char(s[i]));
    }
    let ps = parse_hex(s.skip(8));
    let pt = parse_hex(t.skip(8));
    assert forall|k: int| 0 <= k < 64 implies #[trigger] ps[k] == pt[k] by {
        assert(s.skip(8)[2 * k] == s[8 + 2 * k]);
        assert(t.skip(8)[2 * k] == t[8 + 2 * k]);
        assert(s.skip(8)[2 * k + 1] == s[8 + 2 * k + 1]);
        assert(t.skip(8)[2 * k + 1] == t[8 + 2 * k + 1]);
        assert(hex_value(s[8 + 2 * k]) == hex_value(t[8 + 2 * k]));
        assert(hex_value(s[8 + 2 * k + 1]) == hex_value(t[8 + 2 * k + 1]));
    }
    assert(ps =~= pt);
}

pub uninterp spec fn blake2b_512_of(data: Seq<u8>) -> Seq<u8>;

/// Relies on `blake2::Blake2b512::digest`: the BLAKE2b-512 digest of `data`,
/// which depends on the bytes alone and is 64 bytes long.
#[verifier::external_body]
fn blake2b_512(data: &[u8]) -> (r: [u8; 64])
    ensures
        r@ == blake2b_512_of(data@),
{
    let digest = blake2::Blake2b512::digest(data);
    let mut out = [0u8; 64];
    out.copy_from_slice(digest.as_slice());
    out
}

/// The fingerprint of a file's content.
pub fn blake2s(data: &[u8]) -> (r: Hash)
    ensures
        r@ == blake2b_512_of(data@),
{
    Hash::Blake2b512(blake2b_512(data))
}

fn hex_digit_of(v: u8) -> (r: char)
    requires
        v < 16,
    ensures
        r == hex_digit(v),
{
    if v < 10 {
        (v + 48) as char
    } else {
        (v + 55) as char
    }
}

fn hex_value_of(c: char) -> (r: Option<u8>)
    ensures
        r == (if is_hex_char(c) {
            Some(hex_value(c))
        } else {
            None::<u8>
        }),
{
    if '0' <= c && c <= '9' {
        Some((c as u32 - 48) as u8)
    } else if 'A' <= c && c <= 'F' {
        Some((c as u32 - 55) as u8)
    } else if 'a' <= c && c <= 'f' {
        Some((c as u32 - 87) as u8)
    } else {
        None
    }
}

fn tag_chars() -> (r: Vec<char>)
    ensures
        r@ == tag(),
{
    let r = vec!['b', 'l', 'a', 'k', 'e', '2', 'b', ':'];
    assert(r@ =~= tag());
    r
}

impl Hash {
    /// The digest bytes.
    pub fn digest(&self) -> (r: &[u8; 64])
        ensures
            r@ == self@,
    {
        match self {
            Hash::Blake2b512(bytes) => bytes,
        }
    }
    pub open spec fn text(&self) -> Seq<char> {
        fingerprint_text(self@)
    }

    /// The text form: the tag, then the digest in upper-case hexadecimal.
    pub fn to_string(&self) -> (r: String)
        ensures
            r@ == fingerprint_text(self@),
    {
        let bytes = self.digest();
        let mut cs = tag_chars();
        let mut i: usize = 0;
        while i < DIGEST_LEN
            invariant
                bytes@.len() == 64,
                i <= 64,
                cs@ == tag() + upper_hex(bytes@.take(i as int)),
            decreases 64 - i,
        {
            let b = bytes[i];
            cs.push(hex_digit_of(b / 16));
            cs.push(hex_digit_of(b % 16));
            proof {
                let p = bytes@.take(i as int);
                let q = bytes@.take(i + 1);
                assert(upper_hex(q) =~= upper_hex(p).push(hex_digit(b / 16)).push(
                    hex_digit(b % 16),
                )) by {
                    assert forall|k: int| 0 <= k < 2 * q.len() implies #[trigger] upper_hex(q)[k]
                        == upper_hex(p).push(hex_digit(b / 16)).push(hex_digit(b % 16))[k] by {
                        if k < 2 * p.len() {
                            assert(q[k / 2] == p[k / 2]);
                        }
                    }
                }
            }
            i = i + 1;
        }
        assert(bytes@.take(64) =~= bytes@);
        string_of(&cs)
    }

    /// Reads a text form back: the tag, then exactly 128 hexadecimal digits of
    /// either case. Any other text is refused.
    pub fn parse(s: &str) -> (r: Option<Hash>)
        ensures
            r is Some <==> is_fingerprint_text(s@),
            r matches Some(h) ==> Some(h@) == parse_fingerprint(s@),
    {
        let cs = chars_of(s);
        if cs.len() != TEXT_LEN {
            return None;
        }
        let t = tag_chars();
        let mut i: usize = 0;
        while i < 8
            invariant
                cs@ == s@,
                cs@.len() == 136,
                t@ == tag(),
                i <= 8,
                forall|j: int| 0 <= j < i ==> cs@[j] == t@[j],
            decreases 8 - i,
        {
            if cs[i] != t[i] {
                proof {
                    assert(s@.take(8)[i as int] != tag()[i as int]);
                }
                return None;
            }
            i = i + 1;
        }
        assert(s@.take(8) =~= tag());
        let mut bytes = [0u8; 64];
        let mut k: usize = 0;
        while k < DIGEST_LEN
            invariant
                cs@ == s@,
                cs@.len() == 136,
                s@.take(8) == tag(),
                k <= 64,
                bytes@.len() == 64,
                forall|j: int| 8 <= j < 8 + 2 * k ==> is_hex_char(#[trigger] s@[j]),
                forall|j: int|
                    0 <= j < k ==> bytes@[j] == #[trigger] parse_hex(s@.skip(8))[j],
            decreases 64 - k,
        {
            let hi = hex_value_of(cs[8 + 2 * k]);
            let lo = hex_value_of(cs[9 + 2 * k]);
            match (hi, lo) {
                (Some(h), Some(l)) => {
                    bytes[k] = h * 16 + l;
                },
                _ => {
                    return None;
                },
            }
            k = k + 1;
        }
        let h = Hash::Blake2b512(bytes);
        assert(h@ =~= parse_hex(s@.skip(8)));
        Some(h)
    }
}

} // verus!

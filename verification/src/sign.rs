//! Request signing: canonicalization of a query-parameter set and the
//! checksum credential derived from it.
//!
//! The canonical form of a parameter set is its pairs sorted by name
//! (byte-wise ascending, value as tie-break), each pair written as
//! `name=value` with no separator between pairs, followed by the
//! secret. The checksum is the 128-bit content digest of that byte
//! sequence, rendered as 32 lowercase hexadecimal characters.

use vstd::prelude::*;
use vstd::relations::{sorted_by, total_ordering};
use vstd::multiset::Multiset;
use vstd::seq_lib::lemma_sorted_unique;
use vstd::seq_lib::to_multiset_insert;
use vstd::seq_lib::to_multiset_remove;
use vstd::seq_lib::group_to_multiset_ensures;
use vstd::utf8::encode_utf8;
use vstd::utf8::decode_utf8;
use vstd::utf8::valid_utf8;
use vstd::utf8::is_ascii_chars;
use vstd::utf8::is_ascii_chars_encode_utf8;
use vstd::utf8::encode_utf8_valid_utf8;
use vstd::utf8::encode_utf8_decode_utf8;
use vstd::string::StrSliceExecFns;

verus! {

/// Byte-wise (lexicographic) order on byte sequences: `a` is at most
/// `b` when `a` is a prefix of `b` or differs first with a smaller byte.
pub open spec fn bytes_le(a: Seq<u8>, b: Seq<u8>) -> bool
    decreases a.len(),
{
    if a.len() == 0 {
        true
    } else if b.len() == 0 {
        false
    } else if a[0] < b[0] {
        true
    } else if a[0] > b[0] {
        false
    } else {
        bytes_le(a.drop_first(), b.drop_first())
    }
}

/// Order on encoded parameter pairs: by name, value as tie-break.
pub open spec fn pair_le(x: (Seq<u8>, Seq<u8>), y: (Seq<u8>, Seq<u8>)) -> bool {
    if x.0 == y.0 {
        bytes_le(x.1, y.1)
    } else {
        bytes_le(x.0, y.0)
    }
}

/// `pair_le` as a relation value, for the sorting specifications.
pub open spec fn pair_leq() -> spec_fn((Seq<u8>, Seq<u8>), (Seq<u8>, Seq<u8>)) -> bool {
    |x: (Seq<u8>, Seq<u8>), y: (Seq<u8>, Seq<u8>)| pair_le(x, y)
}

pub proof fn lemma_bytes_le_refl(a: Seq<u8>)
    ensures
        bytes_le(a, a),
    decreases a.len(),
{
    if a.len() > 0 {
        lemma_bytes_le_refl(a.drop_first());
    }
}

pub proof fn lemma_bytes_le_connected(a: Seq<u8>, b: Seq<u8>)
    ensures
        bytes_le(a, b) || bytes_le(b, a),
    decreases a.len(),
{
    if a.len() > 0 && b.len() > 0 && a[0] == b[0] {
        lemma_bytes_le_connected(a.drop_first(), b.drop_first());
    }
}

pub proof fn lemma_bytes_le_antisym(a: Seq<u8>, b: Seq<u8>)
    requires
        bytes_le(a, b),
        bytes_le(b, a),
    ensures
        a == b,
    decreases a.len(),
{
    if a.len() == 0 {
        assert(b.len() == 0);
        assert(a =~= b);
    } else {
        assert(b.len() > 0);
        assert(a[0] == b[0]);
        lemma_bytes_le_antisym(a.drop_first(), b.drop_first());
        assert(a.drop_first().len() == b.drop_first().len());
        assert(a.len() == b.len());
        assert(forall|i: int|
            1 <= i < a.len() ==> a[i] == a.drop_first()[i - 1] && b[i] == b.drop_first()[i - 1]);
        assert(a =~= b);
    }
}

pub proof fn lemma_bytes_le_trans(a: Seq<u8>, b: Seq<u8>, c: Seq<u8>)
    requires
        bytes_le(a, b),
        bytes_le(b, c),
    ensures
        bytes_le(a, c),
    decreases a.len(),
{
    if a.len() > 0 {
        assert(b.len() > 0);
        if b.len() > 0 && c.len() > 0 && a[0] == b[0] && b[0] == c[0] {
            lemma_bytes_le_trans(a.drop_first(), b.drop_first(), c.drop_first());
        }
    }
}

/// The pair order is a total ordering, so sorting by it is
/// well-defined and yields one sequence per multiset of pairs.
pub proof fn lemma_pair_le_total_ordering()
    ensures
        total_ordering(pair_leq()),
{
    let r = pair_leq();
    assert forall|x: (Seq<u8>, Seq<u8>)| #[trigger] r(x, x) by {
        lemma_bytes_le_refl(x.1);
    }
    assert forall|x: (Seq<u8>, Seq<u8>), y: (Seq<u8>, Seq<u8>)| #[trigger] r(x, y) && #[trigger] r(
        y,
        x,
    ) implies x == y by {
        if x.0 == y.0 {
            lemma_bytes_le_antisym(x.1, y.1);
            assert(x =~= y);
        } else {
            lemma_bytes_le_antisym(x.0, y.0);
        }
    }
    assert forall|x: (Seq<u8>, Seq<u8>), y: (Seq<u8>, Seq<u8>), z: (Seq<u8>, Seq<u8>)|
        #[trigger] r(x, y) && #[trigger] r(y, z) implies r(x, z) by {
        if x.0 == y.0 && y.0 == z.0 {
            lemma_bytes_le_trans(x.1, y.1, z.1);
        } else if x.0 == y.0 || y.0 == z.0 {
        } else {
            lemma_bytes_le_trans(x.0, y.0, z.0);
            if x.0 == z.0 {
                lemma_bytes_le_antisym(x.0, y.0);
            }
        }
    }
    assert forall|x: (Seq<u8>, Seq<u8>), y: (Seq<u8>, Seq<u8>)| #[trigger] r(x, y) || #[trigger] r(
        y,
        x,
    ) by {
        if x.0 == y.0 {
            lemma_bytes_le_connected(x.1, y.1);
        } else {
            lemma_bytes_le_connected(x.0, y.0);
        }
    }
}

/// Byte-wise equality of two byte slices.
pub fn eq_bytes(a: &[u8], b: &[u8]) -> (r: bool)
    ensures
        r == (a@ == b@),
{
    if a.len() != b.len() {
        assert(a@ != b@);
        return false;
    }
    let mut i: usize = 0;
    while i < a.len()
        invariant
            0 <= i <= a.len(),
            a@.len() == b@.len(),
            forall|k: int| 0 <= k < i ==> a@[k] == b@[k],
        decreases a.len() - i,
    {
        if a[i] != b[i] {
            assert(a@ != b@);
            return false;
        }
        i = i + 1;
    }
    assert(a@ =~= b@);
    true
}

/// Decides `bytes_le` on two byte slices.
pub fn le_bytes(a: &[u8], b: &[u8]) -> (r: bool)
    ensures
        r == bytes_le(a@, b@),
{
    let mut i: usize = 0;
    assert(a@.skip(0) =~= a@);
    assert(b@.skip(0) =~= b@);
    while i < a.len() && i < b.len()
        invariant
            0 <= i <= a.len(),
            0 <= i <= b.len(),
            bytes_le(a@, b@) == bytes_le(a@.skip(i as int), b@.skip(i as int)),
        decreases a.len() - i,
    {
        let x = a[i];
        let y = b[i];
        assert(a@.skip(i as int)[0] == x && b@.skip(i as int)[0] == y);
        if x < y {
            return true;
        }
        if x > y {
            return false;
        }
        assert(a@.skip(i as int).drop_first() =~= a@.skip(i + 1));
        assert(b@.skip(i as int).drop_first() =~= b@.skip(i + 1));
        i = i + 1;
    }
    if i >= a.len() {
        assert(a@.skip(i as int) =~= Seq::<u8>::empty());
        true
    } else {
        assert(b@.skip(i as int) =~= Seq::<u8>::empty());
        assert(a@.skip(i as int).len() > 0);
        false
    }
}

/// Decides `pair_le` on two (name, value) pairs held as byte vectors.
pub fn le_pair(x: &(Vec<u8>, Vec<u8>), y: &(Vec<u8>, Vec<u8>)) -> (r: bool)
    ensures
        r == pair_le((x.0@, x.1@), (y.0@, y.1@)),
{
    if eq_bytes(x.0.as_slice(), y.0.as_slice()) {
        le_bytes(x.1.as_slice(), y.1.as_slice())
    } else {
        le_bytes(x.0.as_slice(), y.0.as_slice())
    }
}

/// The (name, value) byte sequences held by a sequence of pairs of
/// byte vectors.
pub open spec fn dv(s: Seq<(Vec<u8>, Vec<u8>)>) -> Seq<(Seq<u8>, Seq<u8>)> {
    s.map_values(|p: (Vec<u8>, Vec<u8>)| (p.0@, p.1@))
}

/// The position at which a pair has to be placed to keep the sorted
/// order: the first index whose element is not below the new pair.
fn find_insert_pos(out: &Vec<(Vec<u8>, Vec<u8>)>, e: &(Vec<u8>, Vec<u8>)) -> (j: usize)
    ensures
        0 <= j <= out@.len(),
        forall|k: int| 0 <= k < j ==> pair_le(#[trigger] dv(out@)[k], (e.0@, e.1@)),
        j < out@.len() ==> !pair_le(dv(out@)[j as int], (e.0@, e.1@)),
{
    let mut j: usize = 0;
    while j < out.len()
        invariant
            0 <= j <= out@.len(),
            forall|k: int| 0 <= k < j ==> pair_le(#[trigger] dv(out@)[k], (e.0@, e.1@)),
        decreases out@.len() - j,
    {
        let below = le_pair(&out[j], e);
        proof {
            assert(dv(out@)[j as int] == (out@[j as int].0@, out@[j as int].1@));
        }
        if !below {
            return j;
        }
        j = j + 1;
    }
    j
}

/// Sorts parameter pairs into canonical order: ascending by name
/// (byte-wise), value as tie-break.
fn sort_pairs(input: Vec<(Vec<u8>, Vec<u8>)>) -> (r: Vec<(Vec<u8>, Vec<u8>)>)
    ensures
        dv(r@) == dv(input@).sort_by(pair_leq()),
{
    broadcast use group_to_multiset_ensures, to_multiset_insert, to_multiset_remove, vstd::multiset::group_multiset_axioms;

    proof {
        lemma_pair_le_total_ordering();
    }
    let ghost orig: Seq<(Seq<u8>, Seq<u8>)> = dv(input@);
    let mut rest = input;
    let mut out: Vec<(Vec<u8>, Vec<u8>)> = Vec::new();
    proof {
        assert(dv(out@) =~= Seq::<(Seq<u8>, Seq<u8>)>::empty());
        assert(dv(rest@) == orig);
        assert(dv(out@).to_multiset().add(dv(rest@).to_multiset()) =~= orig.to_multiset());
    }
    while rest.len() > 0
        invariant
            sorted_by(dv(out@), pair_leq()),
            total_ordering(pair_leq()),
            dv(out@).to_multiset().add(dv(rest@).to_multiset()) == orig.to_multiset(),
        decreases rest.len(),
    {
        let ghost rest0 = rest@;
        let e = rest.remove(0);
        let ghost ed: (Seq<u8>, Seq<u8>) = (e.0@, e.1@);
        proof {
            assert(dv(rest0)[0] == ed);
            assert(dv(rest@) =~= dv(rest0).remove(0));
            to_multiset_remove(dv(rest0), 0);
            assert(dv(rest@).to_multiset() == dv(rest0).to_multiset().remove(ed));
            assert(dv(rest0).contains(ed)) by {
                assert(dv(rest0)[0] == ed && dv(rest0).len() > 0);
            }
            dv(rest0).to_multiset_ensures();
            assert(dv(rest0).to_multiset().count(ed) > 0);
        }
        let j = find_insert_pos(&out, &e);
        let ghost outpre = dv(out@);
        proof {
            let r = pair_leq();
            if j < out@.len() {
                assert(!pair_le(dv(out@)[j as int], ed));
                assert(r(dv(out@)[j as int], ed) || r(ed, dv(out@)[j as int]));
                assert(pair_le(ed, dv(out@)[j as int]));
            }
        }
        out.insert(j, e);
        proof {
            let r = pair_leq();
            assert(dv(out@) =~= outpre.insert(j as int, ed));
            assert forall|a: int, b: int| 0 <= a < b < dv(out@).len() implies #[trigger] r(
                dv(out@)[a],
                dv(out@)[b],
            ) by {
                let s = dv(out@);
                let ji = j as int;
                if b < ji {
                    assert(s[a] == outpre[a] && s[b] == outpre[b]);
                } else if a > ji {
                    assert(s[a] == outpre[a - 1] && s[b] == outpre[b - 1]);
                } else if a == ji {
                    // s[a] is the new element; everything at or after j was not below it
                    assert(s[b] == outpre[b - 1]);
                    if ji < outpre.len() {
                        assert(r(ed, outpre[ji]));
                        if b - 1 > ji {
                            assert(r(outpre[ji], outpre[b - 1]));
                        }
                    }
                } else if b == ji {
                    assert(s[a] == outpre[a]);
                    assert(pair_le(outpre[a], ed));
                } else {
                    // a < ji < b: both stand where they stood in outpre
                    assert(s[a] == outpre[a] && s[b] == outpre[b - 1]);
                }
            }
            to_multiset_insert(outpre, j as int, ed);
            assert(dv(out@).to_multiset() == outpre.to_multiset().insert(ed));
            assert(dv(out@).to_multiset().add(dv(rest@).to_multiset()) =~= orig.to_multiset());
        }
    }
    proof {
        assert(dv(rest@) =~= Seq::<(Seq<u8>, Seq<u8>)>::empty());
        assert(dv(rest@).to_multiset() =~= Multiset::<(Seq<u8>, Seq<u8>)>::empty());
        assert(dv(out@).to_multiset() =~= orig.to_multiset());
        orig.lemma_sort_by_ensures(pair_leq());
        lemma_sorted_unique(dv(out@), orig.sort_by(pair_leq()), pair_leq());
    }
    out
}

/// The canonical concatenation of sorted pairs: each pair written as
/// `name=value`, with nothing between pairs.
pub open spec fn glue(ps: Seq<(Seq<u8>, Seq<u8>)>) -> Seq<u8>
    decreases ps.len(),
{
    if ps.len() == 0 {
        Seq::empty()
    } else {
        ps[0].0 + seq![61u8] + ps[0].1 + glue(ps.drop_first())
    }
}

pub proof fn lemma_glue_append(s1: Seq<(Seq<u8>, Seq<u8>)>, s2: Seq<(Seq<u8>, Seq<u8>)>)
    ensures
        glue(s1 + s2) == glue(s1) + glue(s2),
    decreases s1.len(),
{
    if s1.len() == 0 {
        assert(s1 + s2 =~= s2);
        assert(glue(s1) + glue(s2) =~= glue(s2));
    } else {
        assert((s1 + s2).len() > 0);
        assert((s1 + s2)[0] == s1[0]);
        assert((s1 + s2).drop_first() =~= s1.drop_first() + s2);
        lemma_glue_append(s1.drop_first(), s2);
        assert(glue(s1 + s2) =~= glue(s1) + glue(s2));
    }
}

/// The byte sequence the checksum is computed over: the sorted pairs
/// glued together, followed by the secret.
pub open spec fn canonical_bytes(ps: Seq<(Seq<u8>, Seq<u8>)>, secret: Seq<u8>) -> Seq<u8> {
    glue(ps.sort_by(pair_leq())) + secret
}

/// The 16-byte MD5 digest of a byte sequence, a function of the input
/// alone. Given meaning only through the digest wrapper below.
pub uninterp spec fn md5_of(input: Seq<u8>) -> Seq<u8>;

/// The lowercase hexadecimal digit for a value below 16.
pub open spec fn hex_digit(n: u8) -> char {
    if n < 10 {
        (((n + 0x30) as u8) as char)
    } else {
        (((n + 0x57) as u8) as char)
    }
}

/// Two lowercase hexadecimal digits per byte, in byte order.
pub open spec fn hex_of(bytes: Seq<u8>) -> Seq<char>
    decreases bytes.len(),
{
    if bytes.len() == 0 {
        Seq::empty()
    } else {
        seq![hex_digit(bytes[0] / 16), hex_digit(bytes[0] % 16)] + hex_of(bytes.drop_first())
    }
}

pub open spec fn is_lower_hex_char(c: char) -> bool {
    ('0' <= c && c <= '9') || ('a' <= c && c <= 'f')
}

/// The checksum credential for a parameter set and secret, as a
/// character sequence.
pub open spec fn signature_of(ps: Seq<(Seq<u8>, Seq<u8>)>, secret: Seq<u8>) -> Seq<char> {
    hex_of(md5_of(canonical_bytes(ps, secret)))
}

/// The UTF-8 encoded (name, value) pairs of a parameter sequence.
pub open spec fn param_views(s: Seq<(String, String)>) -> Seq<(Seq<u8>, Seq<u8>)> {
    s.map_values(|p: (String, String)| (encode_utf8(p.0@), encode_utf8(p.1@)))
}

/// The (name, value) character sequences of a parameter sequence.
pub open spec fn pairs_view(s: Seq<(String, String)>) -> Seq<(Seq<char>, Seq<char>)> {
    s.map_values(|p: (String, String)| (p.0@, p.1@))
}

/// The UTF-8 encoding of (name, value) character pairs.
pub open spec fn enc_pairs(s: Seq<(Seq<char>, Seq<char>)>) -> Seq<(Seq<u8>, Seq<u8>)> {
    s.map_values(|p: (Seq<char>, Seq<char>)| (encode_utf8(p.0), encode_utf8(p.1)))
}

pub proof fn lemma_param_views_enc(s: Seq<(String, String)>)
    ensures
        param_views(s) == enc_pairs(pairs_view(s)),
{
    assert(param_views(s) =~= enc_pairs(pairs_view(s)));
}

pub proof fn lemma_hex_of_push(s: Seq<u8>, x: u8)
    ensures
        hex_of(s.push(x)) == hex_of(s) + seq![hex_digit(x / 16), hex_digit(x % 16)],
    decreases s.len(),
{
    if s.len() == 0 {
        assert(s.push(x)[0] == x);
        assert(s.push(x).drop_first() =~= Seq::<u8>::empty());
        assert(hex_of(Seq::<u8>::empty()) == Seq::<char>::empty());
        assert(s =~= Seq::<u8>::empty());
        assert(hex_of(s.push(x)) =~= hex_of(s) + seq![hex_digit(x / 16), hex_digit(x % 16)]);
    } else {
        assert(s.push(x)[0] == s[0]);
        assert(s.push(x).drop_first() =~= s.drop_first().push(x));
        lemma_hex_of_push(s.drop_first(), x);
        assert(hex_of(s.push(x)) =~= hex_of(s) + seq![hex_digit(x / 16), hex_digit(x % 16)]);
    }
}

pub proof fn lemma_hex_of_props(s: Seq<u8>)
    ensures
        hex_of(s).len() == 2 * s.len(),
        forall|i: int| 0 <= i < hex_of(s).len() ==> is_lower_hex_char(#[trigger] hex_of(s)[i]),
        is_ascii_chars(hex_of(s)),
    decreases s.len(),
{
    if s.len() > 0 {
        lemma_hex_of_props(s.drop_first());
        assert(is_lower_hex_char(hex_digit(s[0] / 16)));
        assert(is_lower_hex_char(hex_digit(s[0] % 16)));
        assert(forall|i: int|
            2 <= i < hex_of(s).len() ==> hex_of(s)[i] == hex_of(s.drop_first())[i - 2]);
    }
}

/// The bytes of an ASCII character sequence, one per character.
pub open spec fn ascii_bytes(cs: Seq<char>) -> Seq<u8> {
    Seq::new(cs.len(), |i: int| cs[i] as u8)
}

/// Relies on `md5::compute`: the 16-byte (128-bit) MD5 digest of the
/// input, a function of the input bytes alone.
#[verifier::external_body]
fn md5_digest(input: &Vec<u8>) -> (r: Vec<u8>)
    ensures
        r@ == md5_of(input@),
        r@.len() == 16,
{
    md5::compute(input.as_slice()).0.to_vec()
}

/// Relies on `String::from_utf8`: succeeds exactly on valid UTF-8
/// input and decodes the bytes to their character sequence.
#[verifier::external_body]
pub(crate) fn bytes_to_string(b: Vec<u8>) -> (r: Option<String>)
    ensures
        r is Some <==> valid_utf8(b@),
        r matches Some(s) ==> s@ == decode_utf8(b@),
{
    String::from_utf8(b).ok()
}

/// Appends every byte of a slice to a vector.
fn push_all(out: &mut Vec<u8>, s: &[u8])
    ensures
        final(out)@ == old(out)@ + s@,
{
    let mut i: usize = 0;
    assert(out@ =~= old(out)@ + s@.take(0));
    while i < s.len()
        invariant
            0 <= i <= s@.len(),
            out@ == old(out)@ + s@.take(i as int),
        decreases s@.len() - i,
    {
        out.push(s[i]);
        proof {
            assert(s@.take(i + 1) =~= s@.take(i as int).push(s@[i as int]));
            assert(out@ =~= old(out)@ + s@.take(i + 1));
        }
        i = i + 1;
    }
    proof {
        assert(s@.take(s@.len() as int) =~= s@);
    }
}

/// Renders a byte string as lowercase hexadecimal, two digits per byte.
fn hex_string(bytes: &Vec<u8>) -> (r: String)
    ensures
        r@ == hex_of(bytes@),
{
    let mut hv: Vec<u8> = Vec::new();
    let mut i: usize = 0;
    proof {
        assert(bytes@.take(0) =~= Seq::<u8>::empty());
        assert(hv@ =~= ascii_bytes(hex_of(bytes@.take(0))));
    }
    while i < bytes.len()
        invariant
            0 <= i <= bytes@.len(),
            hv@ == ascii_bytes(hex_of(bytes@.take(i as int))),
        decreases bytes@.len() - i,
    {
        let b = bytes[i];
        let hi = b / 16;
        let lo = b % 16;
        let hb: u8 = if hi < 10 {
            hi + 0x30
        } else {
            hi + 0x57
        };
        let lb: u8 = if lo < 10 {
            lo + 0x30
        } else {
            lo + 0x57
        };
        hv.push(hb);
        hv.push(lb);
        proof {
            lemma_hex_of_props(bytes@.take(i as int));
            lemma_hex_of_push(bytes@.take(i as int), b);
            assert(bytes@.take(i + 1) =~= bytes@.take(i as int).push(b));
            assert(hb == hex_digit(hi) as u8);
            assert(lb == hex_digit(lo) as u8);
            assert(hv@ =~= ascii_bytes(hex_of(bytes@.take(i + 1))));
        }
        i = i + 1;
    }
    proof {
        assert(bytes@.take(bytes@.len() as int) =~= bytes@);
        lemma_hex_of_props(bytes@);
        is_ascii_chars_encode_utf8(hex_of(bytes@));
        assert(hv@ =~= encode_utf8(hex_of(bytes@)));
        encode_utf8_valid_utf8(hex_of(bytes@));
        encode_utf8_decode_utf8(hex_of(bytes@));
    }
    match bytes_to_string(hv) {
        Some(s) => s,
        None => vstd::pervasive::unreached(),
    }
}

/// Produces the checksum credential for a parameter set: the pairs are
/// sorted by name (byte-wise, value as tie-break), written as
/// `name=value` with no separator, the secret is appended, and the
/// 128-bit content digest of those bytes is rendered as exactly 32
/// lowercase hexadecimal characters.
///
/// Total: defined for every finite parameter set and any secret.
pub fn sign(params: &Vec<(String, String)>, secret: &str) -> (r: String)
    ensures
        r@ == signature_of(param_views(params@), encode_utf8(secret@)),
        r@.len() == 32,
        forall|i: int| 0 <= i < r@.len() ==> is_lower_hex_char(#[trigger] r@[i]),
{
    let mut bv: Vec<(Vec<u8>, Vec<u8>)> = Vec::new();
    let mut i: usize = 0;
    proof {
        assert(dv(bv@) =~= param_views(params@.take(0)));
    }
    while i < params.len()
        invariant
            0 <= i <= params@.len(),
            dv(bv@) == param_views(params@.take(i as int)),
        decreases params@.len() - i,
    {
        let n = params[i].0.as_str().as_bytes_vec();
        let v = params[i].1.as_str().as_bytes_vec();
        let ghost pre = bv@;
        bv.push((n, v));
        proof {
            assert(params@.take(i + 1) =~= params@.take(i as int).push(params@[i as int]));
            assert(bv@ =~= pre.push((n, v)));
            assert(pre.len() == dv(pre).len());
            assert(param_views(params@.take(i as int)).len() == params@.take(i as int).len());
            assert(pre.len() == i);
            assert forall|j: int| 0 <= j < bv@.len() implies dv(bv@)[j] == param_views(
                params@.take(i + 1),
            )[j] by {
                if j < i {
                    assert(bv@[j] == pre[j]);
                    assert(dv(pre)[j] == param_views(params@.take(i as int))[j]);
                    assert(params@.take(i + 1)[j] == params@.take(i as int)[j]);
                } else {
                    assert(bv@[j] == (n, v));
                    assert(params@.take(i + 1)[j] == params@[i as int]);
                }
            }
            assert(dv(bv@) =~= param_views(params@.take(i + 1)));
        }
        i = i + 1;
    }
    proof {
        assert(params@.take(params@.len() as int) =~= params@);
    }
    let sorted = sort_pairs(bv);
    let ghost sdv: Seq<(Seq<u8>, Seq<u8>)> = dv(sorted@);
    let mut canon: Vec<u8> = Vec::new();
    let mut k: usize = 0;
    proof {
        assert(sdv.take(0) =~= Seq::<(Seq<u8>, Seq<u8>)>::empty());
        assert(canon@ =~= glue(sdv.take(0)));
    }
    while k < sorted.len()
        invariant
            0 <= k <= sorted@.len(),
            sdv == dv(sorted@),
            canon@ == glue(sdv.take(k as int)),
        decreases sorted@.len() - k,
    {
        push_all(&mut canon, sorted[k].0.as_slice());
        canon.push(61);
        push_all(&mut canon, sorted[k].1.as_slice());
        proof {
            assert(sdv[k as int] == (sorted@[k as int].0@, sorted@[k as int].1@));
            assert(sdv.take(k + 1) =~= sdv.take(k as int) + seq![sdv[k as int]]);
            lemma_glue_append(sdv.take(k as int), seq![sdv[k as int]]);
            assert(seq![sdv[k as int]].drop_first() =~= Seq::<(Seq<u8>, Seq<u8>)>::empty());
            assert(glue(Seq::<(Seq<u8>, Seq<u8>)>::empty()) == Seq::<u8>::empty());
            assert(seq![sdv[k as int]][0] == sdv[k as int]);
            assert(glue(seq![sdv[k as int]]) =~= sdv[k as int].0 + seq![61u8] + sdv[k as int].1);
            assert(canon@ =~= glue(sdv.take(k + 1)));
        }
        k = k + 1;
    }
    proof {
        assert(sdv.take(sdv.len() as int) =~= sdv);
    }
    push_all(&mut canon, secret.as_bytes());
    proof {
        assert(canon@ == glue(sdv) + encode_utf8(secret@));
        assert(canon@ == canonical_bytes(param_views(params@), encode_utf8(secret@)));
    }
    let digest = md5_digest(&canon);
    let r = hex_string(&digest);
    proof {
        lemma_hex_of_props(digest@);
    }
    r
}

/// Maps preserve permutation: two sequences with the same multiset of
/// elements have the same multiset of mapped elements.
proof fn lemma_map_values_multiset<A, B>(s1: Seq<A>, s2: Seq<A>, f: spec_fn(A) -> B)
    requires
        s1.to_multiset() == s2.to_multiset(),
    ensures
        s1.map_values(f).to_multiset() == s2.map_values(f).to_multiset(),
    decreases s1.len(),
{
    broadcast use group_to_multiset_ensures, vstd::multiset::group_multiset_axioms;

    s1.to_multiset_ensures();
    s2.to_multiset_ensures();
    if s1.len() == 0 {
        assert(s2.len() == 0);
        assert(s1.map_values(f) =~= s2.map_values(f));
    } else {
        let x = s1[0];
        assert(s1.contains(x));
        assert(s1.to_multiset().count(x) > 0);
        assert(s2.to_multiset().count(x) > 0);
        assert(s2.contains(x));
        let i = choose|i: int| 0 <= i < s2.len() && s2[i] == x;
        to_multiset_remove(s1, 0);
        to_multiset_remove(s2, i);
        lemma_map_values_multiset(s1.remove(0), s2.remove(i), f);
        let m1 = s1.map_values(f);
        let m2 = s2.map_values(f);
        m1.to_multiset_ensures();
        m2.to_multiset_ensures();
        assert(s1.remove(0).map_values(f) =~= m1.remove(0));
        assert(s2.remove(i).map_values(f) =~= m2.remove(i));
        to_multiset_remove(m1, 0);
        to_multiset_remove(m2, i);
        assert(m1.remove(0).to_multiset() == m1.to_multiset().remove(f(x)));
        assert(m2.remove(i).to_multiset() == m2.to_multiset().remove(f(x)));
        assert(m1.contains(f(x))) by {
            assert(m1[0] == f(x));
        }
        assert(m2.contains(f(x))) by {
            assert(m2[i] == f(x));
        }
        assert(m1.to_multiset().count(f(x)) > 0);
        assert(m2.to_multiset().count(f(x)) > 0);
        assert(m1.to_multiset() =~= m2.to_multiset()) by {
            assert(forall|y: B|
                y != f(x) ==> #[trigger] m1.to_multiset().count(y) == m1.to_multiset().remove(
                    f(x),
                ).count(y) && m2.to_multiset().count(y) == m2.to_multiset().remove(f(x)).count(y));
            assert(m1.to_multiset().count(f(x)) == m1.to_multiset().remove(f(x)).count(f(x)) + 1);
            assert(m2.to_multiset().count(f(x)) == m2.to_multiset().remove(f(x)).count(f(x)) + 1);
        }
    }
}

/// Law: the checksum is deterministic and order-independent. The
/// checksum of a parameter sequence is a function (`signature_of`) of
/// its pairs and the secret alone — so signing the same set twice
/// yields the same string — and any two sequences holding the same
/// pairs, in any order, sign to the same checksum.
pub proof fn lemma_signature_order_independent(
    p1: Seq<(String, String)>,
    p2: Seq<(String, String)>,
    secret: Seq<u8>,
)
    requires
        p1.to_multiset() == p2.to_multiset(),
    ensures
        signature_of(param_views(p1), secret) == signature_of(param_views(p2), secret),
{
    lemma_pair_le_total_ordering();
    lemma_map_values_multiset(
        p1,
        p2,
        |p: (String, String)| (encode_utf8(p.0@), encode_utf8(p.1@)),
    );
    let b1 = param_views(p1);
    let b2 = param_views(p2);
    b1.lemma_sort_by_ensures(pair_leq());
    b2.lemma_sort_by_ensures(pair_leq());
    lemma_sorted_unique(b1.sort_by(pair_leq()), b2.sort_by(pair_leq()), pair_leq());
    assert(b1.sort_by(pair_leq()) == b2.sort_by(pair_leq()));
}

} // verus!

//! Client library for a third-party analytics export API.
//!
//! The library builds signed query-parameter sets for the export
//! endpoint and parses the newline-delimited JSON responses into typed
//! records. The network round trip itself is left to the host program;
//! everything that computes — canonicalization, signing, parameter
//! assembly, response parsing — lives here, with contracts.

use vstd::prelude::*;

pub mod export;
pub mod record;
pub mod services;
pub mod sign;

pub use export::ExportBuilder;
pub use record::ExportProperties;
pub use record::ExportResult;
pub use services::Service;

use vstd::utf8::encode_utf8;
use vstd::utf8::is_ascii_chars;
use vstd::utf8::is_ascii_chars_encode_utf8;
use vstd::utf8::encode_utf8_valid_utf8;
use vstd::utf8::encode_utf8_decode_utf8;
use crate::sign::signature_of;
use crate::sign::enc_pairs;
use crate::sign::pairs_view;
use crate::sign::ascii_bytes;
use crate::sign::lemma_param_views_enc;

verus! {

/// The decimal digit character for a value below 10.
pub open spec fn digit_char(d: u8) -> char {
    (((d + 0x30) as u8) as char)
}

/// The decimal digits of a natural number, most significant first,
/// with no leading zeros (a single `0` for zero).
pub open spec fn dec_digits(n: nat) -> Seq<char>
    decreases n,
{
    if n < 10 {
        seq![digit_char(n as u8)]
    } else {
        dec_digits(n / 10) + seq![digit_char((n % 10) as u8)]
    }
}

/// The decimal rendering of an integer, `-` first when negative.
pub open spec fn decimal(n: int) -> Seq<char> {
    if n >= 0 {
        dec_digits(n as nat)
    } else {
        seq!['-'] + dec_digits((-n) as nat)
    }
}

proof fn lemma_dec_digits_ascii(n: nat)
    ensures
        forall|i: int|
            0 <= i < dec_digits(n).len() ==> '0' <= #[trigger] dec_digits(n)[i] <= '9',
        is_ascii_chars(dec_digits(n)),
    decreases n,
{
    if n >= 10 {
        lemma_dec_digits_ascii(n / 10);
        assert(forall|i: int|
            0 <= i < dec_digits(n / 10).len() ==> dec_digits(n)[i] == dec_digits(n / 10)[i]);
        assert(dec_digits(n).last() == digit_char((n % 10) as u8));
    }
}

/// Appends the decimal digits of `n`, as ASCII bytes.
fn push_dec(out: &mut Vec<u8>, n: u64)
    ensures
        final(out)@ == old(out)@ + ascii_bytes(dec_digits(n as nat)),
    decreases n,
{
    if n >= 10 {
        push_dec(out, n / 10);
    }
    let d: u8 = (n % 10) as u8 + 0x30;
    out.push(d);
    proof {
        if n < 10 {
            assert(d == digit_char(n as u8) as u8);
            assert(out@ =~= old(out)@ + ascii_bytes(dec_digits(n as nat)));
        } else {
            assert(d == digit_char((n % 10) as u8) as u8);
            assert(out@ =~= old(out)@ + ascii_bytes(dec_digits(n as nat)));
        }
    }
}

/// Renders an integer in decimal, as the original transmits the
/// expiration timestamp.
fn int_string(n: i64) -> (r: String)
    ensures
        r@ == decimal(n as int),
{
    let mut buf: Vec<u8> = Vec::new();
    if n >= 0 {
        push_dec(&mut buf, n as u64);
        proof {
            assert(buf@ =~= ascii_bytes(dec_digits(n as nat)));
        }
    } else {
        buf.push(0x2d);
        let m: u64 = ((-(n + 1)) as u64) + 1;
        push_dec(&mut buf, m);
        proof {
            assert(m as nat == (-(n as int)) as nat);
            assert('-' as u8 == 0x2d);
            assert(buf@ =~= ascii_bytes(decimal(n as int)));
        }
    }
    proof {
        let cs = decimal(n as int);
        lemma_dec_digits_ascii(if n >= 0 { n as nat } else { (-(n as int)) as nat });
        assert(is_ascii_chars(cs)) by {
            assert(forall|i: int| 0 <= i < cs.len() ==> '\0' <= #[trigger] cs[i] <= '\u{7f}');
        }
        is_ascii_chars_encode_utf8(cs);
        assert(buf@ =~= encode_utf8(cs));
        encode_utf8_valid_utf8(cs);
        encode_utf8_decode_utf8(cs);
    }
    match crate::sign::bytes_to_string(buf) {
        Some(s) => s,
        None => vstd::pervasive::unreached(),
    }
}

/// The outgoing parameter set of a signed request: `api_key` and
/// `expire` (the given time plus 600 seconds) before the caller-chosen
/// parameters, and the `sig` checksum over all of them appended last.
/// The secret itself never appears in the set.
pub open spec fn signed_query_spec(
    foreign: Seq<(Seq<char>, Seq<char>)>,
    key: Seq<char>,
    secret: Seq<char>,
    now: int,
) -> Seq<(Seq<char>, Seq<char>)> {
    let base = seq![("api_key"@, key), ("expire"@, decimal(now + 600))] + foreign;
    base.push(("sig"@, signature_of(enc_pairs(base), encode_utf8(secret))))
}

/// The errors a `send` can surface. Transport failures are reported by
/// the host that performs the HTTP round trip; the parsing stages
/// report the encoding and parse failures themselves.
#[derive(Clone, Copy, PartialEq, Eq, Structural, Debug)]
pub enum ExportError {
    /// The base URL could not be parsed or the connection failed.
    Transport,
    /// A response line is not valid UTF-8.
    InvalidUtf8,
    /// A response line is not a JSON object.
    InvalidJson,
}

/// Credentials for the API: a public key and a private secret,
/// immutable after construction. The secret is only ever used to
/// derive checksums; it is never placed in a parameter set.
pub struct MixPanel {
    pub api_key: String,
    pub api_secret: String,
}

impl MixPanel {
    pub fn new(key: &str, secret: &str) -> (r: MixPanel)
        ensures
            r.api_key@ == key@,
            r.api_secret@ == secret@,
    {
        MixPanel { api_key: key.to_owned(), api_secret: secret.to_owned() }
    }

    /// Starts an export query over the given date range.
    pub fn export(&self, from_date: &str, to_date: &str) -> (r: ExportBuilder)
        ensures
            r.api_key@ == self.api_key@,
            r.api_secret@ == self.api_secret@,
            r.from_date@ == from_date@,
            r.to_date@ == to_date@,
            r.event@.len() == 0,
            r.filter is None,
            r.bucket is None,
    {
        ExportBuilder::new(self, from_date, to_date)
    }

    /// Builds the outgoing parameter set for one request: `api_key`,
    /// `expire` (`now` plus 600 seconds, in decimal), the given
    /// parameters, and the `sig` checksum computed over all of them
    /// with this client's secret.
    pub fn signed_query(&self, foreign: &Vec<(String, String)>, now: i64) -> (r: Vec<
        (String, String),
    >)
        requires
            now + 600 <= i64::MAX,
        ensures
            pairs_view(r@) == signed_query_spec(
                pairs_view(foreign@),
                self.api_key@,
                self.api_secret@,
                now as int,
            ),
    {
        let mut q: Vec<(String, String)> = Vec::new();
        q.push(("api_key".to_owned(), self.api_key.clone()));
        q.push(("expire".to_owned(), int_string(now + 600)));
        let ghost base0: Seq<(Seq<char>, Seq<char>)> = seq![
            ("api_key"@, self.api_key@),
            ("expire"@, decimal(now as int + 600)),
        ];
        proof {
            assert(pairs_view(q@) =~= base0 + pairs_view(foreign@.take(0)));
        }
        let mut i: usize = 0;
        while i < foreign.len()
            invariant
                0 <= i <= foreign@.len(),
                base0.len() == 2,
                pairs_view(q@) == base0 + pairs_view(foreign@.take(i as int)),
            decreases foreign@.len() - i,
        {
            let ghost pre = q@;
            q.push((foreign[i].0.clone(), foreign[i].1.clone()));
            proof {
                assert(foreign@.take(i + 1) =~= foreign@.take(i as int).push(
                    foreign@[i as int],
                ));
                assert(pairs_view(pre).len() == pre.len());
                assert(pairs_view(foreign@.take(i as int)).len() == i);
                assert(base0.len() == 2);
                assert(pre.len() == i + 2);
                assert forall|j: int| 0 <= j < q@.len() implies pairs_view(q@)[j] == (base0
                    + pairs_view(foreign@.take(i + 1)))[j] by {
                    if j < pre.len() {
                        assert(q@[j] == pre[j]);
                        assert(pairs_view(pre)[j] == (base0 + pairs_view(
                            foreign@.take(i as int),
                        ))[j]);
                    } else {
                        assert(q@[j] == (foreign@[i as int].0, foreign@[i as int].1));
                    }
                }
                assert(pairs_view(q@) =~= base0 + pairs_view(foreign@.take(i + 1)));
            }
            i = i + 1;
        }
        proof {
            assert(foreign@.take(foreign@.len() as int) =~= foreign@);
        }
        let sig = crate::sign::sign(&q, self.api_secret.as_str());
        let ghost base: Seq<(Seq<char>, Seq<char>)> = base0 + pairs_view(foreign@);
        proof {
            lemma_param_views_enc(q@);
        }
        q.push(("sig".to_owned(), sig));
        proof {
            assert(pairs_view(q@) =~= base.push(
                ("sig"@, signature_of(enc_pairs(base), encode_utf8(self.api_secret@))),
            ));
        }
        q
    }
}

} // verus!

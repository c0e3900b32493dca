//! The export request builder: accumulates the caller-chosen
//! parameters of one export call and assembles the outgoing,
//! signed parameter set.

use vstd::prelude::*;
use crate::MixPanel;
use crate::services::Service;
use crate::services::export_url;
use crate::signed_query_spec;
use crate::sign::pairs_view;

verus! {

/// One export query under construction: the required date range, and
/// the optional event filters, boolean filter expression and bucket
/// hint. Built incrementally and consumed by the host that performs
/// the network call.
pub struct ExportBuilder {
    pub api_key: String,
    pub api_secret: String,
    pub from_date: String,
    pub to_date: String,
    pub event: Vec<String>,
    pub filter: Option<String>,
    pub bucket: Option<String>,
}

/// The character sequences of a sequence of strings.
pub open spec fn str_views(s: Seq<String>) -> Seq<Seq<char>> {
    s.map_values(|e: String| e@)
}

/// The comma-separated join of event names.
pub open spec fn joined(evs: Seq<Seq<char>>) -> Seq<char>
    decreases evs.len(),
{
    if evs.len() == 0 {
        Seq::empty()
    } else if evs.len() == 1 {
        evs[0]
    } else {
        evs[0] + seq![','] + joined(evs.drop_first())
    }
}

pub open spec fn opt_view(o: Option<String>) -> Option<Seq<char>> {
    match o {
        Some(s) => Some(s@),
        None => None,
    }
}

proof fn lemma_joined_push(s: Seq<Seq<char>>, x: Seq<char>)
    ensures
        s.len() == 0 ==> joined(s.push(x)) == x,
        s.len() > 0 ==> joined(s.push(x)) == joined(s) + seq![','] + x,
    decreases s.len(),
{
    if s.len() == 0 {
        assert(s.push(x)[0] == x);
        assert(joined(s.push(x)) == x);
    } else if s.len() == 1 {
        assert(s.push(x)[0] == s[0]);
        assert(s.push(x).drop_first() =~= seq![x]);
        assert(joined(seq![x]) == x);
        assert(joined(s.push(x)) =~= joined(s) + seq![','] + x);
    } else {
        assert(s.push(x)[0] == s[0]);
        assert(s.push(x).drop_first() =~= s.drop_first().push(x));
        lemma_joined_push(s.drop_first(), x);
        assert(joined(s.push(x)) =~= joined(s) + seq![','] + x);
    }
}

/// Joins event names with commas, in order of addition.
fn join_events(evs: &Vec<String>) -> (r: String)
    ensures
        r@ == joined(str_views(evs@)),
{
    proof {
        reveal_strlit(",");
    }
    let mut out = String::new();
    let mut i: usize = 0;
    proof {
        assert(str_views(evs@.take(0)) =~= Seq::<Seq<char>>::empty());
        assert(out@ =~= joined(str_views(evs@.take(0))));
    }
    while i < evs.len()
        invariant
            0 <= i <= evs@.len(),
            out@ == joined(str_views(evs@.take(i as int))),
        decreases evs@.len() - i,
    {
        if i > 0 {
            out.append(",");
        }
        out.append(evs[i].as_str());
        proof {
            let s = str_views(evs@.take(i as int));
            let x = evs@[i as int]@;
            assert(evs@.take(i + 1) =~= evs@.take(i as int).push(evs@[i as int]));
            assert(str_views(evs@.take(i + 1)) =~= s.push(x));
            lemma_joined_push(s, x);
            assert(s.len() == i);
            reveal_strlit(",");
            assert(","@ =~= seq![',']);
            if i == 0 {
                assert(joined(s) =~= Seq::<char>::empty());
                assert(out@ =~= joined(s.push(x)));
            } else {
                assert(out@ =~= joined(s) + seq![','] + x);
                assert(out@ =~= joined(s.push(x)));
            }
        }
        i = i + 1;
    }
    proof {
        assert(evs@.take(evs@.len() as int) =~= evs@);
    }
    out
}

impl ExportBuilder {
    /// The caller-chosen parameters of this query: the two dates, then
    /// `event`, `where` and `bucket` when set.
    pub open spec fn foreign_params(self) -> Seq<(Seq<char>, Seq<char>)> {
        seq![("to_date"@, self.to_date@), ("from_date"@, self.from_date@)] + (
        if self.event@.len() > 0 {
            seq![("event"@, joined(str_views(self.event@)))]
        } else {
            Seq::empty()
        }) + (match self.filter {
            Some(f) => seq![("where"@, f@)],
            None => Seq::empty(),
        }) + (match self.bucket {
            Some(b) => seq![("bucket"@, b@)],
            None => Seq::empty(),
        })
    }

    pub fn new(client: &MixPanel, from_date: &str, to_date: &str) -> (r: ExportBuilder)
        ensures
            r.api_key@ == client.api_key@,
            r.api_secret@ == client.api_secret@,
            r.from_date@ == from_date@,
            r.to_date@ == to_date@,
            r.event@.len() == 0,
            r.filter is None,
            r.bucket is None,
    {
        ExportBuilder {
            api_key: client.api_key.clone(),
            api_secret: client.api_secret.clone(),
            from_date: from_date.to_owned(),
            to_date: to_date.to_owned(),
            event: Vec::new(),
            filter: None,
            bucket: None,
        }
    }

    /// Adds one event-name filter; the order of addition is preserved.
    pub fn add_event(self, event: &str) -> (r: ExportBuilder)
        ensures
            str_views(r.event@) == str_views(self.event@).push(event@),
            r.api_key == self.api_key,
            r.api_secret == self.api_secret,
            r.from_date == self.from_date,
            r.to_date == self.to_date,
            r.filter == self.filter,
            r.bucket == self.bucket,
    {
        let mut s = self;
        s.event.push(event.to_owned());
        proof {
            assert(str_views(s.event@) =~= str_views(self.event@).push(event@));
        }
        s
    }

    /// Sets the boolean filter expression, passed through verbatim.
    pub fn set_filter(self, filter: &str) -> (r: ExportBuilder)
        ensures
            opt_view(r.filter) == Some(filter@),
            r.api_key == self.api_key,
            r.api_secret == self.api_secret,
            r.from_date == self.from_date,
            r.to_date == self.to_date,
            r.event == self.event,
            r.bucket == self.bucket,
    {
        let mut s = self;
        s.filter = Some(filter.to_owned());
        s
    }

    /// Sets the bucket hint, passed through verbatim.
    pub fn set_bucket(self, bucket: &str) -> (r: ExportBuilder)
        ensures
            opt_view(r.bucket) == Some(bucket@),
            r.api_key == self.api_key,
            r.api_secret == self.api_secret,
            r.from_date == self.from_date,
            r.to_date == self.to_date,
            r.event == self.event,
            r.filter == self.filter,
    {
        let mut s = self;
        s.bucket = Some(bucket.to_owned());
        s
    }

    /// Assembles the caller-chosen parameter pairs: `to_date` and
    /// `from_date` always; `event`, `where` and `bucket` only when set.
    pub fn query_params(&self) -> (r: Vec<(String, String)>)
        ensures
            pairs_view(r@) == self.foreign_params(),
    {
        let mut q: Vec<(String, String)> = Vec::new();
        q.push(("to_date".to_owned(), self.to_date.clone()));
        q.push(("from_date".to_owned(), self.from_date.clone()));
        if self.event.len() > 0 {
            q.push(("event".to_owned(), join_events(&self.event)));
        }
        match &self.filter {
            Some(f) => { q.push(("where".to_owned(), f.clone())); },
            None => {},
        }
        match &self.bucket {
            Some(b) => { q.push(("bucket".to_owned(), b.clone())); },
            None => {},
        }
        proof {
            assert(pairs_view(q@) =~= self.foreign_params());
        }
        q
    }

    /// The full, signed request for this query: the export URL and the
    /// outgoing parameter set — the caller-chosen parameters plus
    /// `api_key`, `expire` (`now` plus 600 seconds) and the `sig`
    /// checksum. The host only has to percent-encode the pairs and
    /// perform the GET.
    pub fn prepare(&self, now: i64) -> (r: (String, Vec<(String, String)>))
        requires
            now + 600 <= i64::MAX,
        ensures
            r.0@ == export_url(),
            pairs_view(r.1@) == signed_query_spec(
                self.foreign_params(),
                self.api_key@,
                self.api_secret@,
                now as int,
            ),
    {
        let url = Service::Export.construct_url();
        let q = self.query_params();
        let client = MixPanel::new(self.api_key.as_str(), self.api_secret.as_str());
        let signed = client.signed_query(&q, now);
        (url, signed)
    }

    /// The signed request for this query at the current time, or
    /// `None` if the clock stands so late that the expiration
    /// timestamp cannot be represented.
    pub fn prepare_now(&self) -> (r: Option<(String, Vec<(String, String)>)>)
        ensures
            r matches Some(p) ==> p.0@ == export_url() && (exists|now: int|
                pairs_view(p.1@) == #[trigger] signed_query_spec(
                    self.foreign_params(),
                    self.api_key@,
                    self.api_secret@,
                    now,
                )),
    {
        let now = now_unix();
        if now <= i64::MAX - 600 {
            let p = self.prepare(now);
            proof {
                assert(pairs_view(p.1@) == signed_query_spec(
                    self.foreign_params(),
                    self.api_key@,
                    self.api_secret@,
                    now as int,
                ));
            }
            Some(p)
        } else {
            None
        }
    }
}

/// Relies on `chrono::Local::now`: the current Unix timestamp in
/// seconds. Nothing is promised of the clock's value.
#[verifier::external_body]
fn now_unix() -> i64 {
    chrono::Local::now().timestamp()
}

/// Law: a query with no event filter, no filter expression and no
/// bucket hint goes out with exactly five parameters — `api_key`,
/// `expire`, `to_date`, `from_date` and `sig` — and the two dates
/// carry the builder's values.
pub proof fn lemma_plain_query_five_params(
    b: ExportBuilder,
    key: Seq<char>,
    secret: Seq<char>,
    now: int,
)
    requires
        b.event@.len() == 0,
        b.filter is None,
        b.bucket is None,
    ensures
        signed_query_spec(b.foreign_params(), key, secret, now).len() == 5,
        signed_query_spec(b.foreign_params(), key, secret, now)[0].0 == "api_key"@,
        signed_query_spec(b.foreign_params(), key, secret, now)[1].0 == "expire"@,
        signed_query_spec(b.foreign_params(), key, secret, now)[2] == ("to_date"@, b.to_date@),
        signed_query_spec(b.foreign_params(), key, secret, now)[3] == ("from_date"@, b.from_date@),
        signed_query_spec(b.foreign_params(), key, secret, now)[4].0 == "sig"@,
{
    assert(b.foreign_params() =~= seq![
        ("to_date"@, b.to_date@),
        ("from_date"@, b.from_date@),
    ]);
}

/// Law: as soon as at least one event filter was added, the outgoing
/// parameter set carries an `event` parameter, holding the added
/// names joined with commas in order of addition.
pub proof fn lemma_event_filter_present(
    b: ExportBuilder,
    key: Seq<char>,
    secret: Seq<char>,
    now: int,
)
    requires
        b.event@.len() > 0,
    ensures
        signed_query_spec(b.foreign_params(), key, secret, now)[4] == (
            "event"@,
            joined(str_views(b.event@)),
        ),
        signed_query_spec(b.foreign_params(), key, secret, now).len() >= 6,
{
    assert(b.foreign_params()[2] == ("event"@, joined(str_views(b.event@))));
    assert(b.foreign_params().len() >= 3);
}

} // verus!

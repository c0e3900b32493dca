//! The record parser: decodes one line of the export response — one
//! JSON object — into a typed record, tolerating unknown and missing
//! fields.
//!
//! The JSON text itself is read by an outside parser. Its result is
//! modelled by two names: `top_entries_of` gives the entries a line
//! parses to, and `value_model` gives the two-level shape of one
//! parsed value. The classification of values and the field-by-field
//! mapping over the classified entries are specified and verified
//! here, so a successful parse returns exactly
//! `record_of(top_entries_of(line))`. Recognized keys land in the
//! record's fields; a missing or mis-typed field falls back to the
//! type's zero value; unrecognized property keys are collected, not
//! dropped silently and not an error.

use vstd::prelude::*;
use crate::export::opt_view;
use crate::export::str_views;
use crate::sign::bytes_to_string;
use crate::ExportError;
use vstd::slice::slice_to_vec;
use vstd::utf8::valid_utf8;
use vstd::utf8::decode_utf8;

verus! {

#[verifier::external_type_specification]
#[verifier::external_body]
pub struct ExValue(serde_json::Value);

#[verifier::external_type_specification]
#[verifier::external_body]
pub struct ExError(serde_json::Error);

/// The shape of a parsed value where it stands under a property key:
/// text, an integer, or something else (null, boolean, fraction,
/// array, nested object).
#[verifier::ext_equal]
pub ghost enum PropModel {
    Text(Seq<char>),
    Int(int),
    Other,
}

/// The shape of a parsed top-level value: text, an integer, an object
/// of property entries, or something else.
#[verifier::ext_equal]
pub ghost enum TopModel {
    Text(Seq<char>),
    Int(int),
    Object(Seq<(Seq<char>, PropModel)>),
    Other,
}

/// A classified property value, as the mapping reads it.
pub enum PropValue {
    Text(String),
    Int(i64),
    Other,
}

/// A classified top-level value.
pub enum TopValue {
    Text(String),
    Int(i64),
    Object(Vec<(String, PropValue)>),
    Other,
}

/// The shape a classified property value stands for.
pub open spec fn prop_view(p: PropValue) -> PropModel {
    match p {
        PropValue::Text(s) => PropModel::Text(s@),
        PropValue::Int(n) => PropModel::Int(n as int),
        PropValue::Other => PropModel::Other,
    }
}

/// The shapes of classified property entries.
pub open spec fn prop_entries_view(s: Seq<(String, PropValue)>) -> Seq<(Seq<char>, PropModel)> {
    s.map_values(|p: (String, PropValue)| (p.0@, prop_view(p.1)))
}

/// The shape a classified top-level value stands for.
pub open spec fn top_view(t: TopValue) -> TopModel {
    match t {
        TopValue::Text(s) => TopModel::Text(s@),
        TopValue::Int(n) => TopModel::Int(n as int),
        TopValue::Object(es) => TopModel::Object(prop_entries_view(es@)),
        TopValue::Other => TopModel::Other,
    }
}

/// The shapes of classified top-level entries.
pub open spec fn entries_view(s: Seq<(String, TopValue)>) -> Seq<(Seq<char>, TopModel)> {
    s.map_values(|p: (String, TopValue)| (p.0@, top_view(p.1)))
}

/// A top-level shape seen from under a property key: an object there
/// is out of the mapping's reach and collapses to `Other`.
pub open spec fn prop_of(m: TopModel) -> PropModel {
    match m {
        TopModel::Text(s) => PropModel::Text(s),
        TopModel::Int(n) => PropModel::Int(n),
        _ => PropModel::Other,
    }
}

/// The decoded properties of one event record.
#[derive(Debug, Default)]
pub struct ExportProperties {
    pub time: i64,
    pub distinct_id: String,
    pub browser: Option<String>,
    pub browser_version: Option<String>,
    pub city: Option<String>,
    pub initial_referrer: Option<String>,
    pub initial_referring_domain: Option<String>,
    pub lib_version: Option<String>,
    pub os: Option<String>,
    pub referrer: Option<String>,
    pub referring_domain: Option<String>,
    pub region: Option<String>,
    pub screen_height: Option<String>,
    pub screen_width: Option<String>,
    pub mp_country_code: Option<String>,
    pub mp_lib: Option<String>,
    pub search_engine: Option<String>,
    pub device: Option<String>,
    pub origin: Option<String>,
    pub origin_referrer: Option<String>,
    pub origin_domain: Option<String>,
    pub tab: Option<String>,
    /// Property keys outside the recognized set, kept for diagnosis.
    pub unknown: Vec<String>,
}

/// One decoded event record.
#[derive(Debug, Default)]
pub struct ExportResult {
    pub event: String,
    pub properties: ExportProperties,
}

/// The mathematical value of `ExportProperties`.
#[verifier::ext_equal]
pub ghost struct PropertiesModel {
    pub time: int,
    pub distinct_id: Seq<char>,
    pub browser: Option<Seq<char>>,
    pub browser_version: Option<Seq<char>>,
    pub city: Option<Seq<char>>,
    pub initial_referrer: Option<Seq<char>>,
    pub initial_referring_domain: Option<Seq<char>>,
    pub lib_version: Option<Seq<char>>,
    pub os: Option<Seq<char>>,
    pub referrer: Option<Seq<char>>,
    pub referring_domain: Option<Seq<char>>,
    pub region: Option<Seq<char>>,
    pub screen_height: Option<Seq<char>>,
    pub screen_width: Option<Seq<char>>,
    pub mp_country_code: Option<Seq<char>>,
    pub mp_lib: Option<Seq<char>>,
    pub search_engine: Option<Seq<char>>,
    pub device: Option<Seq<char>>,
    pub origin: Option<Seq<char>>,
    pub origin_referrer: Option<Seq<char>>,
    pub origin_domain: Option<Seq<char>>,
    pub tab: Option<Seq<char>>,
    pub unknown: Seq<Seq<char>>,
}

/// The mathematical value of `ExportResult`.
#[verifier::ext_equal]
pub ghost struct RecordModel {
    pub event: Seq<char>,
    pub properties: PropertiesModel,
}

impl View for ExportProperties {
    type V = PropertiesModel;

    open spec fn view(&self) -> PropertiesModel {
        PropertiesModel {
            time: self.time as int,
            distinct_id: self.distinct_id@,
            browser: opt_view(self.browser),
            browser_version: opt_view(self.browser_version),
            city: opt_view(self.city),
            initial_referrer: opt_view(self.initial_referrer),
            initial_referring_domain: opt_view(self.initial_referring_domain),
            lib_version: opt_view(self.lib_version),
            os: opt_view(self.os),
            referrer: opt_view(self.referrer),
            referring_domain: opt_view(self.referring_domain),
            region: opt_view(self.region),
            screen_height: opt_view(self.screen_height),
            screen_width: opt_view(self.screen_width),
            mp_country_code: opt_view(self.mp_country_code),
            mp_lib: opt_view(self.mp_lib),
            search_engine: opt_view(self.search_engine),
            device: opt_view(self.device),
            origin: opt_view(self.origin),
            origin_referrer: opt_view(self.origin_referrer),
            origin_domain: opt_view(self.origin_domain),
            tab: opt_view(self.tab),
            unknown: str_views(self.unknown@),
        }
    }
}

impl View for ExportResult {
    type V = RecordModel;

    open spec fn view(&self) -> RecordModel {
        RecordModel { event: self.event@, properties: self.properties@ }
    }
}

/// The zero value every field starts from.
pub open spec fn empty_props() -> PropertiesModel {
    PropertiesModel {
        time: 0,
        distinct_id: Seq::empty(),
        browser: None,
        browser_version: None,
        city: None,
        initial_referrer: None,
        initial_referring_domain: None,
        lib_version: None,
        os: None,
        referrer: None,
        referring_domain: None,
        region: None,
        screen_height: None,
        screen_width: None,
        mp_country_code: None,
        mp_lib: None,
        search_engine: None,
        device: None,
        origin: None,
        origin_referrer: None,
        origin_domain: None,
        tab: None,
        unknown: Seq::empty(),
    }
}

pub open spec fn empty_record() -> RecordModel {
    RecordModel { event: Seq::empty(), properties: empty_props() }
}

/// The text of a property value; anything but text falls back to the
/// empty string.
pub open spec fn prop_text(v: PropModel) -> Seq<char> {
    match v {
        PropModel::Text(s) => s,
        _ => Seq::empty(),
    }
}

/// The integer of a property value; anything else falls back to zero.
pub open spec fn prop_int(v: PropModel) -> int {
    match v {
        PropModel::Int(n) => n,
        _ => 0,
    }
}

/// One property entry applied to the model: the two core fields and
/// the allow-list by name, every other key collected as unknown.
pub open spec fn apply_prop(m: PropertiesModel, k: Seq<char>, v: PropModel) -> PropertiesModel {
    if k == "distinct_id"@ {
        PropertiesModel { distinct_id: prop_text(v), ..m }
    } else if k == "time"@ {
        PropertiesModel { time: prop_int(v), ..m }
    } else if k == "$browser"@ {
        PropertiesModel { browser: Some(prop_text(v)), ..m }
    } else if k == "$browser_version"@ {
        PropertiesModel { browser_version: Some(prop_text(v)), ..m }
    } else if k == "$city"@ {
        PropertiesModel { city: Some(prop_text(v)), ..m }
    } else if k == "$initial_referrer"@ {
        PropertiesModel { initial_referrer: Some(prop_text(v)), ..m }
    } else if k == "$initial_referring_domain"@ {
        PropertiesModel { initial_referring_domain: Some(prop_text(v)), ..m }
    } else if k == "$lib_version"@ {
        PropertiesModel { lib_version: Some(prop_text(v)), ..m }
    } else if k == "$os"@ {
        PropertiesModel { os: Some(prop_text(v)), ..m }
    } else if k == "$referrer"@ {
        PropertiesModel { referrer: Some(prop_text(v)), ..m }
    } else if k == "$referring_domain"@ {
        PropertiesModel { referring_domain: Some(prop_text(v)), ..m }
    } else if k == "$region"@ {
        PropertiesModel { region: Some(prop_text(v)), ..m }
    } else if k == "$screen_height"@ {
        PropertiesModel { screen_height: Some(prop_text(v)), ..m }
    } else if k == "$screen_width"@ {
        PropertiesModel { screen_width: Some(prop_text(v)), ..m }
    } else if k == "mp_country_code"@ {
        PropertiesModel { mp_country_code: Some(prop_text(v)), ..m }
    } else if k == "mp_lib"@ {
        PropertiesModel { mp_lib: Some(prop_text(v)), ..m }
    } else if k == "$search_engine"@ {
        PropertiesModel { search_engine: Some(prop_text(v)), ..m }
    } else if k == "$device"@ {
        PropertiesModel { device: Some(prop_text(v)), ..m }
    } else if k == "origin"@ {
        PropertiesModel { origin: Some(prop_text(v)), ..m }
    } else if k == "origin_referrer"@ {
        PropertiesModel { origin_referrer: Some(prop_text(v)), ..m }
    } else if k == "origin_domain"@ {
        PropertiesModel { origin_domain: Some(prop_text(v)), ..m }
    } else if k == "tab"@ {
        PropertiesModel { tab: Some(prop_text(v)), ..m }
    } else {
        PropertiesModel { unknown: m.unknown.push(k), ..m }
    }
}

/// The properties decoded from an entry sequence, entries applied in
/// order (a later entry overrides an earlier one with the same key).
pub open spec fn props_of(entries: Seq<(Seq<char>, PropModel)>) -> PropertiesModel
    decreases entries.len(),
{
    if entries.len() == 0 {
        empty_props()
    } else {
        apply_prop(props_of(entries.drop_last()), entries.last().0, entries.last().1)
    }
}

/// The text of a top-level value, empty for anything but text.
pub open spec fn top_text(v: TopModel) -> Seq<char> {
    match v {
        TopModel::Text(s) => s,
        _ => Seq::empty(),
    }
}

/// One top-level entry applied to the model: `event` and `properties`
/// are read, every other key is consumed and discarded.
pub open spec fn apply_top(m: RecordModel, k: Seq<char>, v: TopModel) -> RecordModel {
    if k == "event"@ {
        RecordModel { event: top_text(v), ..m }
    } else if k == "properties"@ {
        RecordModel {
            properties: match v {
                TopModel::Object(es) => props_of(es),
                _ => empty_props(),
            },
            ..m
        }
    } else {
        m
    }
}

/// The record decoded from a top-level entry sequence.
pub open spec fn record_of(entries: Seq<(Seq<char>, TopModel)>) -> RecordModel
    decreases entries.len(),
{
    if entries.len() == 0 {
        empty_record()
    } else {
        apply_top(record_of(entries.drop_last()), entries.last().0, entries.last().1)
    }
}

/// String equality, decided character-wise.
fn str_eq(a: &str, b: &str) -> (r: bool)
    ensures
        r == (a@ == b@),
{
    let sa = a.to_owned();
    let sb = b.to_owned();
    sa == sb
}

/// The text held by a classified property value, the empty string
/// otherwise.
fn take_text(v: PropValue) -> (r: String)
    ensures
        r@ == prop_text(prop_view(v)),
{
    match v {
        PropValue::Text(s) => s,
        _ => String::new(),
    }
}

/// Decodes properties from classified entries: the core fields and
/// the allow-list by name, defaults on a type mismatch, unrecognized
/// keys collected in order of appearance.
pub fn props_from_entries(entries: Vec<(String, PropValue)>) -> (r: ExportProperties)
    ensures
        r@ == props_of(prop_entries_view(entries@)),
{
    let ghost orig = entries@;
    let mut rest = entries;
    let mut r = ExportProperties {
        time: 0,
        distinct_id: String::new(),
        browser: None,
        browser_version: None,
        city: None,
        initial_referrer: None,
        initial_referring_domain: None,
        lib_version: None,
        os: None,
        referrer: None,
        referring_domain: None,
        region: None,
        screen_height: None,
        screen_width: None,
        mp_country_code: None,
        mp_lib: None,
        search_engine: None,
        device: None,
        origin: None,
        origin_referrer: None,
        origin_domain: None,
        tab: None,
        unknown: Vec::new(),
    };
    let ghost i: int = 0;
    proof {
        assert(prop_entries_view(orig.take(0)) =~= Seq::<(Seq<char>, PropModel)>::empty());
        assert(r@ =~= props_of(prop_entries_view(orig.take(0))));
        assert(rest@ =~= orig.skip(0));
    }
    while rest.len() > 0
        invariant
            0 <= i <= orig.len(),
            rest@ == orig.skip(i),
            r@ == props_of(prop_entries_view(orig.take(i))),
        decreases rest@.len(),
    {
        let (k, v) = rest.remove(0);
        proof {
            assert(orig.skip(i)[0] == orig[i]);
            assert(rest@ =~= orig.skip(i + 1));
        }
        let ghost pre = r@;
        if str_eq(k.as_str(), "distinct_id") {
            r.distinct_id = take_text(v);
        } else if str_eq(k.as_str(), "time") {
            r.time = match v {
                PropValue::Int(n) => n,
                _ => 0,
            };
        } else if str_eq(k.as_str(), "$browser") {
            r.browser = Some(take_text(v));
        } else if str_eq(k.as_str(), "$browser_version") {
            r.browser_version = Some(take_text(v));
        } else if str_eq(k.as_str(), "$city") {
            r.city = Some(take_text(v));
        } else if str_eq(k.as_str(), "$initial_referrer") {
            r.initial_referrer = Some(take_text(v));
        } else if str_eq(k.as_str(), "$initial_referring_domain") {
            r.initial_referring_domain = Some(take_text(v));
        } else if str_eq(k.as_str(), "$lib_version") {
            r.lib_version = Some(take_text(v));
        } else if str_eq(k.as_str(), "$os") {
            r.os = Some(take_text(v));
        } else if str_eq(k.as_str(), "$referrer") {
            r.referrer = Some(take_text(v));
        } else if str_eq(k.as_str(), "$referring_domain") {
            r.referring_domain = Some(take_text(v));
        } else if str_eq(k.as_str(), "$region") {
            r.region = Some(take_text(v));
        } else if str_eq(k.as_str(), "$screen_height") {
            r.screen_height = Some(take_text(v));
        } else if str_eq(k.as_str(), "$screen_width") {
            r.screen_width = Some(take_text(v));
        } else if str_eq(k.as_str(), "mp_country_code") {
            r.mp_country_code = Some(take_text(v));
        } else if str_eq(k.as_str(), "mp_lib") {
            r.mp_lib = Some(take_text(v));
        } else if str_eq(k.as_str(), "$search_engine") {
            r.search_engine = Some(take_text(v));
        } else if str_eq(k.as_str(), "$device") {
            r.device = Some(take_text(v));
        } else if str_eq(k.as_str(), "origin") {
            r.origin = Some(take_text(v));
        } else if str_eq(k.as_str(), "origin_referrer") {
            r.origin_referrer = Some(take_text(v));
        } else if str_eq(k.as_str(), "origin_domain") {
            r.origin_domain = Some(take_text(v));
        } else if str_eq(k.as_str(), "tab") {
            r.tab = Some(take_text(v));
        } else {
            r.unknown.push(k);
            proof {
                assert(str_views(r.unknown@) =~= pre.unknown.push(orig[i].0@));
            }
        }
        proof {
            assert(prop_entries_view(orig.take(i + 1)).drop_last() =~= prop_entries_view(
                orig.take(i),
            ));
            assert(prop_entries_view(orig.take(i + 1)).last() == (
                orig[i].0@,
                prop_view(orig[i].1),
            ));
            assert(r@ =~= apply_prop(pre, orig[i].0@, prop_view(orig[i].1)));
            assert(r@ =~= props_of(prop_entries_view(orig.take(i + 1))));
        }
        proof {
            i = i + 1;
        }
    }
    proof {
        assert(rest@.len() == 0);
        assert(orig.skip(i).len() == orig.len() - i);
        assert(orig.take(i) =~= orig);
    }
    r
}

/// Decodes one record from classified top-level entries: `event` and
/// `properties` are read, other keys consumed and discarded.
pub fn record_from_entries(entries: Vec<(String, TopValue)>) -> (r: ExportResult)
    ensures
        r@ == record_of(entries_view(entries@)),
{
    let ghost orig = entries@;
    let mut rest = entries;
    let mut r = ExportResult { event: String::new(), properties: props_from_entries(Vec::new()) };
    let ghost i: int = 0;
    proof {
        assert(entries_view(orig.take(0)) =~= Seq::<(Seq<char>, TopModel)>::empty());
        assert(prop_entries_view(Seq::<(String, PropValue)>::empty()) =~= Seq::<
            (Seq<char>, PropModel),
        >::empty());
        assert(r@ =~= record_of(entries_view(orig.take(0))));
        assert(rest@ =~= orig.skip(0));
    }
    while rest.len() > 0
        invariant
            0 <= i <= orig.len(),
            rest@ == orig.skip(i),
            r@ == record_of(entries_view(orig.take(i))),
        decreases rest@.len(),
    {
        let (k, v) = rest.remove(0);
        proof {
            assert(orig.skip(i)[0] == orig[i]);
            assert(rest@ =~= orig.skip(i + 1));
        }
        let ghost pre = r@;
        if str_eq(k.as_str(), "event") {
            r.event = match v {
                TopValue::Text(s) => s,
                _ => String::new(),
            };
        } else if str_eq(k.as_str(), "properties") {
            r.properties = match v {
                TopValue::Object(es) => props_from_entries(es),
                _ => props_from_entries(Vec::new()),
            };
            proof {
                assert(prop_entries_view(Seq::<(String, PropValue)>::empty()) =~= Seq::<
                    (Seq<char>, PropModel),
                >::empty());
            }
        } else {
            // consumed and discarded, by design
        }
        proof {
            assert(entries_view(orig.take(i + 1)).drop_last() =~= entries_view(orig.take(i)));
            assert(entries_view(orig.take(i + 1)).last() == (orig[i].0@, top_view(orig[i].1)));
            assert(r@ =~= apply_top(pre, orig[i].0@, top_view(orig[i].1)));
            assert(r@ =~= record_of(entries_view(orig.take(i + 1))));
        }
        proof {
            i = i + 1;
        }
    }
    proof {
        assert(orig.take(i) =~= orig);
    }
    r
}

/// Whether one line of text is a single JSON object. Given meaning
/// only through the parsing wrapper below.
pub uninterp spec fn is_json_object(s: Seq<char>) -> bool;

/// The two-level shape of one parsed JSON value: a function of the
/// value's structure alone, so two structurally equal values carry
/// the same shape. Given meaning only through the value wrappers
/// below.
pub uninterp spec fn value_model(v: serde_json::Value) -> TopModel;

/// The entries a line of text parses to, keys with their values'
/// shapes: a function of the text alone, since the outside parser is.
/// Given meaning only through the parsing wrapper below.
pub uninterp spec fn top_entries_of(s: Seq<char>) -> Seq<(Seq<char>, TopModel)>;

/// The keys and shapes of parsed entries still held as outside
/// values.
pub open spec fn raw_entries_view(es: Seq<(String, serde_json::Value)>) -> Seq<
    (Seq<char>, TopModel),
> {
    es.map_values(|p: (String, serde_json::Value)| (p.0@, value_model(p.1)))
}

/// The keys and property-level shapes of parsed entries still held as
/// outside values.
pub open spec fn raw_prop_entries_view(es: Seq<(String, serde_json::Value)>) -> Seq<
    (Seq<char>, PropModel),
> {
    es.map_values(|p: (String, serde_json::Value)| (p.0@, prop_of(value_model(p.1))))
}

/// Relies on `serde_json::from_str` with `serde_json::Map` as the
/// target type: parsing succeeds exactly when the input is one JSON
/// object that the parser accepts (nesting within its depth limit),
/// and yields its key/value entries (one value per key; a later
/// duplicate replaces an earlier one). `is_json_object` names exactly
/// that acceptance, and `top_entries_of` the entries and their
/// shapes; both depend on the input text alone.
#[verifier::external_body]
fn parse_object(s: &str) -> (r: Result<Vec<(String, serde_json::Value)>, serde_json::Error>)
    ensures
        r is Ok <==> is_json_object(s@),
        r matches Ok(es) ==> raw_entries_view(es@) == top_entries_of(s@),
{
    serde_json::from_str::<serde_json::Map<String, serde_json::Value>>(s).map(
        |m| m.into_iter().collect(),
    )
}

/// Relies on `serde_json::Value::as_i64`: yields the value of a JSON
/// number representable as a 64-bit signed integer — the integer
/// shape — and `None` on every other value.
#[verifier::external_body]
fn value_i64(v: &serde_json::Value) -> (r: Option<i64>)
    ensures
        r matches Some(n) ==> value_model(*v) == TopModel::Int(n as int),
        r is None ==> !(value_model(*v) is Int),
{
    v.as_i64()
}

/// Relies on `serde_json::Value`: a JSON string yields its text — the
/// text shape — and any other value is handed back unchanged.
#[verifier::external_body]
fn value_text(v: serde_json::Value) -> (r: Result<String, serde_json::Value>)
    ensures
        r matches Ok(s) ==> value_model(v) == TopModel::Text(s@),
        r matches Err(w) ==> value_model(w) == value_model(v) && !(value_model(v) is Text),
{
    match v {
        serde_json::Value::String(s) => Ok(s),
        other => Err(other),
    }
}

/// Relies on `serde_json::Value`: a JSON object yields its entries —
/// whose property-level shapes make up the object shape — and any
/// other value is handed back unchanged.
#[verifier::external_body]
fn value_entries(v: serde_json::Value) -> (r: Result<
    Vec<(String, serde_json::Value)>,
    serde_json::Value,
>)
    ensures
        r matches Ok(es) ==> value_model(v) == TopModel::Object(raw_prop_entries_view(es@)),
        r matches Err(w) ==> value_model(w) == value_model(v) && !(value_model(v) is Object),
{
    match v {
        serde_json::Value::Object(m) => Ok(m.into_iter().collect()),
        other => Err(other),
    }
}

/// Classifies a property-level JSON value into its shape.
fn classify_prop(v: serde_json::Value) -> (r: PropValue)
    ensures
        prop_view(r) == prop_of(value_model(v)),
{
    match value_i64(&v) {
        Some(n) => PropValue::Int(n),
        None => match value_text(v) {
            Ok(s) => PropValue::Text(s),
            Err(_) => PropValue::Other,
        },
    }
}

/// Classifies a top-level JSON value into its shape, flattening an
/// object into classified property entries.
fn classify_top(v: serde_json::Value) -> (r: TopValue)
    ensures
        top_view(r) == value_model(v),
{
    match value_i64(&v) {
        Some(n) => {
            return TopValue::Int(n);
        },
        None => {},
    }
    let v = match value_text(v) {
        Ok(s) => {
            return TopValue::Text(s);
        },
        Err(o) => o,
    };
    match value_entries(v) {
        Ok(es) => {
            let ghost es0 = es@;
            let mut es = es;
            let mut out: Vec<(String, PropValue)> = Vec::new();
            let ghost i: int = 0;
            proof {
                assert(prop_entries_view(out@) =~= raw_prop_entries_view(es0).take(0));
                assert(es@ =~= es0.skip(0));
            }
            while es.len() > 0
                invariant
                    0 <= i <= es0.len(),
                    es@ == es0.skip(i),
                    prop_entries_view(out@) == raw_prop_entries_view(es0).take(i),
                decreases es@.len(),
            {
                let (k, w) = es.remove(0);
                proof {
                    assert(es0.skip(i)[0] == es0[i]);
                    assert(es@ =~= es0.skip(i + 1));
                }
                let c = classify_prop(w);
                let ghost outpre = out@;
                out.push((k, c));
                proof {
                    assert(out@ =~= outpre.push((k, c)));
                    assert(prop_entries_view(outpre).len() == outpre.len());
                    assert(raw_prop_entries_view(es0).take(i).len() == i);
                    assert(outpre.len() == i);
                    assert forall|j: int| 0 <= j < out@.len() implies prop_entries_view(out@)[j]
                        == raw_prop_entries_view(es0).take(i + 1)[j] by {
                        if j < i {
                            assert(out@[j] == outpre[j]);
                            assert(prop_entries_view(outpre)[j] == raw_prop_entries_view(
                                es0,
                            ).take(i)[j]);
                        } else {
                            assert(out@[j] == (k, c));
                            assert(raw_prop_entries_view(es0).take(i + 1)[j] == (
                                es0[i].0@,
                                prop_of(value_model(es0[i].1)),
                            ));
                        }
                    }
                    assert(prop_entries_view(out@) =~= raw_prop_entries_view(es0).take(i + 1));
                }
                proof {
                    i = i + 1;
                }
            }
            proof {
                assert(raw_prop_entries_view(es0).take(i) =~= raw_prop_entries_view(es0));
            }
            TopValue::Object(out)
        },
        Err(_) => TopValue::Other,
    }
}

/// Parses one line as one JSON object and decodes it into a record.
/// Succeeds exactly on JSON-object input; any other input — text that
/// is not JSON, or a JSON value that is not an object — is the hard
/// parse error. A success is exactly the field mapping `record_of`
/// applied to the line's parsed entries.
pub fn parse_record(line: &str) -> (r: Result<ExportResult, ExportError>)
    ensures
        r is Ok <==> is_json_object(line@),
        r matches Ok(rec) ==> rec@ == record_of(top_entries_of(line@)),
        r matches Err(e) ==> e == ExportError::InvalidJson,
{
    match parse_object(line) {
        Err(_) => Err(ExportError::InvalidJson),
        Ok(vals) => {
            let ghost vals0 = vals@;
            let mut vals = vals;
            let mut entries: Vec<(String, TopValue)> = Vec::new();
            let ghost i: int = 0;
            proof {
                assert(entries_view(entries@) =~= raw_entries_view(vals0).take(0));
                assert(vals@ =~= vals0.skip(0));
            }
            while vals.len() > 0
                invariant
                    0 <= i <= vals0.len(),
                    vals@ == vals0.skip(i),
                    entries_view(entries@) == raw_entries_view(vals0).take(i),
                decreases vals@.len(),
            {
                let (k, v) = vals.remove(0);
                proof {
                    assert(vals0.skip(i)[0] == vals0[i]);
                    assert(vals@ =~= vals0.skip(i + 1));
                }
                let c = classify_top(v);
                let ghost epre = entries@;
                entries.push((k, c));
                proof {
                    assert(entries@ =~= epre.push((k, c)));
                    assert(entries_view(epre).len() == epre.len());
                    assert(raw_entries_view(vals0).take(i).len() == i);
                    assert(epre.len() == i);
                    assert forall|j: int| 0 <= j < entries@.len() implies entries_view(entries@)[j]
                        == raw_entries_view(vals0).take(i + 1)[j] by {
                        if j < i {
                            assert(entries@[j] == epre[j]);
                            assert(entries_view(epre)[j] == raw_entries_view(vals0).take(i)[j]);
                        } else {
                            assert(entries@[j] == (k, c));
                            assert(raw_entries_view(vals0).take(i + 1)[j] == (
                                vals0[i].0@,
                                value_model(vals0[i].1),
                            ));
                        }
                    }
                    assert(entries_view(entries@) =~= raw_entries_view(vals0).take(i + 1));
                }
                proof {
                    i = i + 1;
                }
            }
            proof {
                assert(raw_entries_view(vals0).take(i) =~= raw_entries_view(vals0));
            }
            Ok(record_from_entries(entries))
        },
    }
}

/// The index of the first newline byte, or the length if none occurs.
pub open spec fn line_end(b: Seq<u8>) -> int
    decreases b.len(),
{
    if b.len() == 0 {
        0
    } else if b[0] == 10 {
        0
    } else {
        1 + line_end(b.drop_first())
    }
}

proof fn lemma_line_end_bounds(b: Seq<u8>)
    ensures
        0 <= line_end(b) <= b.len(),
        forall|k: int| 0 <= k < line_end(b) ==> b[k] != 10,
        line_end(b) < b.len() ==> b[line_end(b)] == 10,
    decreases b.len(),
{
    if b.len() > 0 && b[0] != 10 {
        lemma_line_end_bounds(b.drop_first());
        assert(forall|k: int| 1 <= k < b.len() ==> b[k] == b.drop_first()[k - 1]);
    }
}

/// The body split on the ASCII newline byte.
pub open spec fn split_lines(b: Seq<u8>) -> Seq<Seq<u8>>
    decreases b.len(),
    via split_lines_decreases
{
    if line_end(b) >= b.len() {
        seq![b]
    } else {
        seq![b.take(line_end(b))] + split_lines(b.skip(line_end(b) + 1))
    }
}

#[via_fn]
proof fn split_lines_decreases(b: Seq<u8>) {
    lemma_line_end_bounds(b);
}

proof fn lemma_line_end_no_nl(c: Seq<u8>)
    requires
        forall|k: int| 0 <= k < c.len() ==> c[k] != 10,
    ensures
        line_end(c) == c.len(),
    decreases c.len(),
{
    if c.len() > 0 {
        assert(forall|k: int| 0 <= k < c.drop_first().len() ==> c.drop_first()[k] == c[k + 1]);
        lemma_line_end_no_nl(c.drop_first());
    }
}

/// Splitting detaches a first, newline-free line.
proof fn lemma_split_step(c: Seq<u8>, rest: Seq<u8>)
    requires
        forall|k: int| 0 <= k < c.len() ==> c[k] != 10,
    ensures
        split_lines(c + seq![10u8] + rest) == seq![c] + split_lines(rest),
    decreases c.len(),
{
    let b = c + seq![10u8] + rest;
    assert(b[c.len() as int] == 10);
    assert(line_end(b) == c.len()) by {
        lemma_line_end_bounds(b);
        if line_end(b) < c.len() {
            assert(b[line_end(b)] == c[line_end(b)]);
        }
        if line_end(b) > c.len() {
            assert(forall|k: int| 0 <= k < line_end(b) ==> b[k] != 10);
        }
    }
    assert(line_end(b) < b.len());
    assert(b.take(c.len() as int) =~= c);
    assert(b.skip(c.len() as int + 1) =~= rest);
    assert(split_lines(b) =~= seq![c] + split_lines(rest));
}

proof fn lemma_split_whole(c: Seq<u8>)
    requires
        forall|k: int| 0 <= k < c.len() ==> c[k] != 10,
    ensures
        split_lines(c) == seq![c],
{
    lemma_line_end_no_nl(c);
}

/// The nonempty lines of a split body, in response order: one record
/// is owed per each.
pub open spec fn nonempty_lines(lines: Seq<Seq<u8>>) -> Seq<Seq<u8>>
    decreases lines.len(),
{
    if lines.len() == 0 {
        Seq::empty()
    } else {
        (if lines[0].len() > 0 {
            seq![lines[0]]
        } else {
            Seq::<Seq<u8>>::empty()
        }) + nonempty_lines(lines.drop_first())
    }
}

proof fn lemma_nonempty_lines_push(s: Seq<Seq<u8>>, x: Seq<u8>)
    ensures
        nonempty_lines(s.push(x)) == nonempty_lines(s) + (if x.len() > 0 {
            seq![x]
        } else {
            Seq::<Seq<u8>>::empty()
        }),
    decreases s.len(),
{
    if s.len() == 0 {
        assert(s.push(x)[0] == x);
        assert(s.push(x).drop_first() =~= Seq::<Seq<u8>>::empty());
        assert(nonempty_lines(Seq::<Seq<u8>>::empty()) == Seq::<Seq<u8>>::empty());
        assert(s =~= Seq::<Seq<u8>>::empty());
        assert(nonempty_lines(s.push(x)) =~= nonempty_lines(s) + (if x.len() > 0 {
            seq![x]
        } else {
            Seq::<Seq<u8>>::empty()
        }));
    } else {
        assert(s.push(x)[0] == s[0]);
        assert(s.push(x).drop_first() =~= s.drop_first().push(x));
        lemma_nonempty_lines_push(s.drop_first(), x);
        assert(nonempty_lines(s.push(x)) =~= nonempty_lines(s) + (if x.len() > 0 {
            seq![x]
        } else {
            Seq::<Seq<u8>>::empty()
        }));
    }
}

/// The byte sequences held by a vector of byte vectors.
pub open spec fn vec_views(s: Seq<Vec<u8>>) -> Seq<Seq<u8>> {
    s.map_values(|v: Vec<u8>| v@)
}

/// A line passes when it is empty (skipped) or decodes to one JSON
/// object.
pub open spec fn line_ok(l: Seq<u8>) -> bool {
    l.len() == 0 || (valid_utf8(l) && is_json_object(decode_utf8(l)))
}

/// Every line of the body passes.
pub open spec fn body_ok(b: Seq<u8>) -> bool {
    forall|i: int| 0 <= i < split_lines(b).len() ==> line_ok(#[trigger] split_lines(b)[i])
}

/// The record a nonempty line decodes to.
pub open spec fn record_of_line(l: Seq<u8>) -> RecordModel {
    record_of(top_entries_of(decode_utf8(l)))
}

/// Some nonempty line is not valid UTF-8.
pub open spec fn has_utf8_error(b: Seq<u8>) -> bool {
    exists|i: int|
        0 <= i < split_lines(b).len() && (#[trigger] split_lines(b)[i]).len() > 0 && !valid_utf8(
            split_lines(b)[i],
        )
}

/// Some nonempty line decodes but is not one JSON object.
pub open spec fn has_json_error(b: Seq<u8>) -> bool {
    exists|i: int|
        0 <= i < split_lines(b).len() && (#[trigger] split_lines(b)[i]).len() > 0 && valid_utf8(
            split_lines(b)[i],
        ) && !is_json_object(decode_utf8(split_lines(b)[i]))
}

/// Splits a response body on the ASCII newline byte.
fn split_body(body: &Vec<u8>) -> (r: Vec<Vec<u8>>)
    ensures
        vec_views(r@) == split_lines(body@),
{
    let mut out: Vec<Vec<u8>> = Vec::new();
    let mut cur: Vec<u8> = Vec::new();
    let mut i: usize = 0;
    proof {
        assert(cur@ + body@.skip(0) =~= body@);
        assert(vec_views(out@) =~= Seq::<Seq<u8>>::empty());
        assert(vec_views(out@) + split_lines(cur@ + body@.skip(0)) =~= split_lines(body@));
    }
    while i < body.len()
        invariant
            0 <= i <= body@.len(),
            forall|k: int| 0 <= k < cur@.len() ==> cur@[k] != 10,
            split_lines(body@) == vec_views(out@) + split_lines(cur@ + body@.skip(i as int)),
        decreases body@.len() - i,
    {
        let b = body[i];
        if b == 10 {
            proof {
                assert(body@.skip(i as int)[0] == 10);
                assert(cur@ + body@.skip(i as int) =~= cur@ + seq![10u8] + body@.skip(i + 1));
                lemma_split_step(cur@, body@.skip(i + 1));
            }
            let ghost outpre = vec_views(out@);
            let ghost curv = cur@;
            out.push(cur);
            cur = Vec::new();
            proof {
                assert(vec_views(out@) =~= outpre.push(curv));
                assert(cur@ + body@.skip(i + 1) =~= body@.skip(i + 1));
                assert(vec_views(out@) + split_lines(cur@ + body@.skip(i + 1)) =~= outpre + (
                seq![curv] + split_lines(body@.skip(i + 1))));
                assert(split_lines(curv + body@.skip(i as int)) == seq![curv] + split_lines(
                    body@.skip(i + 1),
                ));
                assert(outpre + (seq![curv] + split_lines(body@.skip(i + 1))) =~= outpre
                    + split_lines(curv + body@.skip(i as int)));
                assert(split_lines(body@) == vec_views(out@) + split_lines(
                    cur@ + body@.skip(i + 1),
                ));
            }
        } else {
            let ghost curpre = cur@;
            cur.push(b);
            proof {
                assert(cur@ =~= curpre.push(b));
                assert(cur@ + body@.skip(i + 1) =~= curpre + body@.skip(i as int));
                assert(split_lines(body@) == vec_views(out@) + split_lines(
                    cur@ + body@.skip(i + 1),
                ));
            }
        }
        i = i + 1;
    }
    proof {
        assert(body@.skip(body@.len() as int) =~= Seq::<u8>::empty());
        assert(cur@ + body@.skip(body@.len() as int) =~= cur@);
        lemma_split_whole(cur@);
    }
    let ghost outpre = vec_views(out@);
    let ghost curv = cur@;
    out.push(cur);
    proof {
        assert(vec_views(out@) =~= outpre.push(curv));
        assert(outpre.push(curv) =~= outpre + seq![curv]);
    }
    out
}

/// Splits the response body into lines, skips empty lines, and parses
/// each remaining line as one JSON object into a record — all or
/// nothing: one bad line fails the whole call, and no record of a
/// valid prefix is handed out. On success the result holds one record
/// per nonempty line, in response order, each the decode of its line.
/// A line that is not UTF-8 is the encoding error; one that is not
/// one JSON object is the parse error.
pub fn parse_body(body: &Vec<u8>) -> (r: Result<Vec<ExportResult>, ExportError>)
    ensures
        r is Ok <==> body_ok(body@),
        r matches Ok(v) ==> {
            let good = nonempty_lines(split_lines(body@));
            &&& v@.len() == good.len()
            &&& forall|i: int| 0 <= i < good.len() ==> v@[i]@ == record_of_line(#[trigger] good[i])
        },
        r matches Err(e) ==> (e == ExportError::InvalidUtf8 && has_utf8_error(body@)) || (e
            == ExportError::InvalidJson && has_json_error(body@)),
{
    let lines = split_body(body);
    let ghost ls = split_lines(body@);
    let mut recs: Vec<ExportResult> = Vec::new();
    let mut idx: usize = 0;
    proof {
        assert(ls.take(0) =~= Seq::<Seq<u8>>::empty());
        assert(nonempty_lines(ls.take(0)) == Seq::<Seq<u8>>::empty());
    }
    while idx < lines.len()
        invariant
            vec_views(lines@) == ls,
            ls == split_lines(body@),
            0 <= idx <= lines@.len(),
            forall|k: int| 0 <= k < idx ==> line_ok(#[trigger] ls[k]),
            recs@.len() == nonempty_lines(ls.take(idx as int)).len(),
            forall|j: int|
                0 <= j < recs@.len() ==> recs@[j]@ == record_of_line(
                    #[trigger] nonempty_lines(ls.take(idx as int))[j],
                ),
        decreases lines@.len() - idx,
    {
        proof {
            assert(ls[idx as int] == lines@[idx as int]@);
        }
        if lines[idx].len() > 0 {
            let owned = slice_to_vec(lines[idx].as_slice());
            match bytes_to_string(owned) {
                Some(s) => {
                    match parse_record(s.as_str()) {
                        Ok(rec) => {
                            recs.push(rec);
                            proof {
                                assert(rec@ == record_of_line(ls[idx as int]));
                            }
                        },
                        Err(_) => {
                            proof {
                                assert(ls[idx as int].len() > 0 && valid_utf8(ls[idx as int])
                                    && !is_json_object(decode_utf8(ls[idx as int])));
                                assert(has_json_error(body@));
                                assert(!line_ok(ls[idx as int]));
                                assert(!body_ok(body@));
                            }
                            return Err(ExportError::InvalidJson);
                        },
                    }
                },
                None => {
                    proof {
                        assert(ls[idx as int].len() > 0 && !valid_utf8(ls[idx as int]));
                        assert(has_utf8_error(body@));
                        assert(!line_ok(ls[idx as int]));
                        assert(!body_ok(body@));
                    }
                    return Err(ExportError::InvalidUtf8);
                },
            }
        }
        proof {
            assert(ls.take(idx + 1) =~= ls.take(idx as int).push(ls[idx as int]));
            lemma_nonempty_lines_push(ls.take(idx as int), ls[idx as int]);
        }
        idx = idx + 1;
    }
    proof {
        assert(ls.take(ls.len() as int) =~= ls);
        assert(body_ok(body@));
    }
    Ok(recs)
}

} // verus!

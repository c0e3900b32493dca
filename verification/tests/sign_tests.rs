use mixpanel::sign::sign;
use mixpanel::MixPanel;
use mixpanel::Service;

fn params(v: &[(&str, &str)]) -> Vec<(String, String)> {
    let mut out: Vec<(String, String)> = Vec::new();
    for p in v {
        out.push((p.0.to_string(), p.1.to_string()));
    }
    out
}

#[test]
fn checksum_deterministic() {
    let p = params(&[("from_date", "2023-01-01"), ("to_date", "2023-01-31")]);
    let a = sign(&p, "secret");
    let b = sign(&p, "secret");
    assert_eq!(a, b);
}

#[test]
fn checksum_order_independent() {
    let p1 = params(&[("a", "1"), ("b", "2"), ("c", "3")]);
    let p2 = params(&[("c", "3"), ("a", "1"), ("b", "2")]);
    assert_eq!(sign(&p1, "s"), sign(&p2, "s"));
}

#[test]
fn checksum_changes_on_value_change() {
    let base = params(&[("a", "1"), ("b", "2")]);
    let ref_sig = sign(&base, "s");
    assert_ne!(ref_sig, sign(&params(&[("a", "x"), ("b", "2")]), "s"));
    assert_ne!(ref_sig, sign(&params(&[("a", "1"), ("b", "x")]), "s"));
    assert_ne!(ref_sig, sign(&params(&[("a", "2"), ("b", "2")]), "s"));
    assert_ne!(ref_sig, sign(&base, "other"));
}

#[test]
fn checksum_is_32_lowercase_hex() {
    let sigs = vec![
        sign(&params(&[]), ""),
        sign(&params(&[("k", "v")]), "secret"),
        sign(&params(&[("x", "\u{e9}t\u{e9}")]), "\u{263a}"),
    ];
    for s in sigs {
        assert_eq!(s.len(), 32);
        assert!(s.chars().all(|c| ('0'..='9').contains(&c) || ('a'..='f').contains(&c)));
    }
}

#[test]
fn checksum_matches_known_digests() {
    // canonical input is empty + secret "abc" -> the well-known digest of "abc"
    assert_eq!(sign(&params(&[]), "abc"), "900150983cd24fb0d6963f7d28e17f72");
    // empty canonical input -> the well-known digest of ""
    assert_eq!(sign(&params(&[]), ""), "d41d8cd98f00b204e9800998ecf8427e");
}

#[test]
fn checksum_matches_direct_digest_of_canonical_form() {
    // pairs sorted by name, written name=value with no separator, secret last
    let p = params(&[("b", "2"), ("a", "1")]);
    let expected = format!("{:x}", md5::compute("a=1b=2sec"));
    assert_eq!(sign(&p, "sec"), expected);
}

#[test]
fn signed_query_holds_key_expire_and_sig() {
    let client = MixPanel::new("KEY", "SECRET");
    let foreign = params(&[("to_date", "2023-01-31"), ("from_date", "2023-01-01")]);
    let now: i64 = 1_700_000_000;
    let q = client.signed_query(&foreign, now);
    assert_eq!(q.len(), 5);
    assert_eq!(q[0], ("api_key".to_string(), "KEY".to_string()));
    assert_eq!(q[1], ("expire".to_string(), "1700000600".to_string()));
    assert_eq!(q[2], foreign[0]);
    assert_eq!(q[3], foreign[1]);
    assert_eq!(q[4].0, "sig");
    // the checksum is computed over every parameter before it
    let base: Vec<(String, String)> = q[..4].to_vec();
    assert_eq!(q[4].1, sign(&base, "SECRET"));
}

#[test]
fn export_url_is_fixed() {
    assert_eq!(
        Service::Export.construct_url(),
        "http://data.mixpanel.com/api/2.0/export"
    );
}

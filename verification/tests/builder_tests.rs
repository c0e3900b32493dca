use mixpanel::MixPanel;
use mixpanel::ExportBuilder;

fn names(q: &Vec<(String, String)>) -> Vec<String> {
    let mut out: Vec<String> = Vec::new();
    for p in q {
        out.push(p.0.clone());
    }
    out
}

fn value_of<'a>(q: &'a Vec<(String, String)>, name: &str) -> Option<&'a String> {
    for p in q {
        if p.0 == name {
            return Some(&p.1);
        }
    }
    None
}

#[test]
fn plain_query_holds_exactly_five_parameters() {
    let client = MixPanel::new("KEY", "SECRET");
    let builder = client.export("2023-01-01", "2023-01-31");
    let (url, q) = builder.prepare(1_700_000_000);
    assert_eq!(url, "http://data.mixpanel.com/api/2.0/export");
    assert_eq!(q.len(), 5);
    let mut ns = names(&q);
    ns.sort();
    assert_eq!(ns, vec!["api_key", "expire", "from_date", "sig", "to_date"]);
    assert_eq!(value_of(&q, "to_date").unwrap(), "2023-01-31");
    assert_eq!(value_of(&q, "from_date").unwrap(), "2023-01-01");
    assert!(value_of(&q, "event").is_none());
    assert!(value_of(&q, "where").is_none());
    assert!(value_of(&q, "bucket").is_none());
}

#[test]
fn event_filters_appear_as_event_parameter() {
    let client = MixPanel::new("KEY", "SECRET");
    let builder = client
        .export("2023-01-01", "2023-01-31")
        .add_event("signup")
        .add_event("purchase");
    let (_, q) = builder.prepare(1_700_000_000);
    assert_eq!(value_of(&q, "event").unwrap(), "signup,purchase");
}

#[test]
fn filter_and_bucket_are_passed_through() {
    let client = MixPanel::new("KEY", "SECRET");
    let builder = client
        .export("2023-01-01", "2023-01-31")
        .set_filter("properties[\"$os\"]==\"Linux\"")
        .set_bucket("b1");
    let (_, q) = builder.prepare(1_700_000_000);
    assert_eq!(value_of(&q, "where").unwrap(), "properties[\"$os\"]==\"Linux\"");
    assert_eq!(value_of(&q, "bucket").unwrap(), "b1");
    assert_eq!(q.len(), 7);
}

#[test]
fn expire_renders_negative_timestamps() {
    let client = MixPanel::new("KEY", "SECRET");
    let builder = client.export("2023-01-01", "2023-01-02");
    let (_, q) = builder.prepare(-1000);
    assert_eq!(value_of(&q, "expire").unwrap(), "-400");
}

#[test]
fn single_event_has_no_separator() {
    let client = MixPanel::new("KEY", "SECRET");
    let builder = ExportBuilder::new(&client, "2023-01-01", "2023-01-02").add_event("signup");
    let (_, q) = builder.prepare(0);
    assert_eq!(value_of(&q, "event").unwrap(), "signup");
    assert_eq!(value_of(&q, "expire").unwrap(), "600");
}

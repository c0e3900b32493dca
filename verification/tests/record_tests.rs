use mixpanel::record::parse_body;
use mixpanel::record::parse_record;
use mixpanel::ExportError;

#[test]
fn simple_record_decodes_field_by_field() {
    let line =
        "{\"event\":\"signup\",\"properties\":{\"distinct_id\":\"u1\",\"time\":1700000000,\"$browser\":\"Chrome\"}}";
    let rec = parse_record(line).unwrap();
    assert_eq!(rec.event, "signup");
    assert_eq!(rec.properties.distinct_id, "u1");
    assert_eq!(rec.properties.time, 1_700_000_000);
    assert_eq!(rec.properties.browser, Some("Chrome".to_string()));
    assert_eq!(rec.properties.browser_version, None);
    assert_eq!(rec.properties.city, None);
    assert_eq!(rec.properties.initial_referrer, None);
    assert_eq!(rec.properties.initial_referring_domain, None);
    assert_eq!(rec.properties.lib_version, None);
    assert_eq!(rec.properties.os, None);
    assert_eq!(rec.properties.referrer, None);
    assert_eq!(rec.properties.referring_domain, None);
    assert_eq!(rec.properties.region, None);
    assert_eq!(rec.properties.screen_height, None);
    assert_eq!(rec.properties.screen_width, None);
    assert_eq!(rec.properties.mp_country_code, None);
    assert_eq!(rec.properties.mp_lib, None);
    assert_eq!(rec.properties.search_engine, None);
    assert_eq!(rec.properties.device, None);
    assert_eq!(rec.properties.origin, None);
    assert_eq!(rec.properties.origin_referrer, None);
    assert_eq!(rec.properties.origin_domain, None);
    assert_eq!(rec.properties.tab, None);
    assert!(rec.properties.unknown.is_empty());
}

#[test]
fn unknown_property_key_is_tolerated_and_reported() {
    let line =
        "{\"event\":\"x\",\"properties\":{\"distinct_id\":\"u\",\"time\":1,\"totally_unknown\":\"z\"}}";
    let rec = parse_record(line).unwrap();
    assert_eq!(rec.event, "x");
    assert_eq!(rec.properties.distinct_id, "u");
    assert_eq!(rec.properties.time, 1);
    assert_eq!(rec.properties.browser, None);
    assert_eq!(rec.properties.unknown, vec!["totally_unknown".to_string()]);
}

#[test]
fn unknown_top_level_key_is_discarded_without_error() {
    let line = "{\"event\":\"e\",\"stray\":42,\"properties\":{\"distinct_id\":\"u\",\"time\":7}}";
    let rec = parse_record(line).unwrap();
    assert_eq!(rec.event, "e");
    assert_eq!(rec.properties.time, 7);
}

#[test]
fn mistyped_core_fields_fall_back_to_zero_values() {
    // time given as text, distinct_id as a number: defaults, not errors
    let line = "{\"event\":\"e\",\"properties\":{\"distinct_id\":5,\"time\":\"late\"}}";
    let rec = parse_record(line).unwrap();
    assert_eq!(rec.properties.time, 0);
    assert_eq!(rec.properties.distinct_id, "");
}

#[test]
fn missing_properties_yield_defaults() {
    let rec = parse_record("{\"event\":\"only\"}").unwrap();
    assert_eq!(rec.event, "only");
    assert_eq!(rec.properties.time, 0);
    assert_eq!(rec.properties.distinct_id, "");
}

#[test]
fn non_object_line_is_a_parse_error() {
    assert!(matches!(parse_record("[1,2,3]"), Err(ExportError::InvalidJson)));
    assert!(matches!(parse_record("42"), Err(ExportError::InvalidJson)));
    assert!(matches!(parse_record("{broken"), Err(ExportError::InvalidJson)));
}

#[test]
fn origin_and_tab_fields_are_captured() {
    let line = "{\"event\":\"e\",\"properties\":{\"distinct_id\":\"u\",\"time\":1,\
                \"origin\":\"o\",\"origin_referrer\":\"or\",\"origin_domain\":\"od\",\"tab\":\"t\"}}";
    let rec = parse_record(line).unwrap();
    assert_eq!(rec.properties.origin, Some("o".to_string()));
    assert_eq!(rec.properties.origin_referrer, Some("or".to_string()));
    assert_eq!(rec.properties.origin_domain, Some("od".to_string()));
    assert_eq!(rec.properties.tab, Some("t".to_string()));
    assert!(rec.properties.unknown.is_empty());
}

#[test]
fn mistyped_optional_field_degrades_to_empty_text() {
    // a nested object under an allow-listed key: captured as Some("")
    let line = "{\"event\":\"e\",\"properties\":{\"distinct_id\":\"u\",\"time\":1,\"$browser\":{\"x\":1}}}";
    let rec = parse_record(line).unwrap();
    assert_eq!(rec.properties.browser, Some("".to_string()));
}

#[test]
fn several_unknown_keys_are_all_reported() {
    let line = "{\"event\":\"e\",\"properties\":{\"aa\":1,\"zz\":\"v\",\"time\":3}}";
    let rec = parse_record(line).unwrap();
    assert_eq!(rec.properties.time, 3);
    let mut unknown = rec.properties.unknown.clone();
    unknown.sort();
    assert_eq!(unknown, vec!["aa".to_string(), "zz".to_string()]);
}

#[test]
fn empty_lines_are_skipped() {
    let body: Vec<u8> = b"".to_vec();
    assert_eq!(parse_body(&body).unwrap().len(), 0);
    let body: Vec<u8> = b"\n\n\n".to_vec();
    assert_eq!(parse_body(&body).unwrap().len(), 0);
    let body: Vec<u8> =
        b"{\"event\":\"a\",\"properties\":{}}\n\n{\"event\":\"b\",\"properties\":{}}\n".to_vec();
    let recs = parse_body(&body).unwrap();
    assert_eq!(recs.len(), 2);
    assert_eq!(recs[0].event, "a");
    assert_eq!(recs[1].event, "b");
}

#[test]
fn malformed_line_fails_the_whole_call() {
    let body: Vec<u8> =
        b"{\"event\":\"a\",\"properties\":{}}\nnot json\n{\"event\":\"b\",\"properties\":{}}\n"
            .to_vec();
    let r = parse_body(&body);
    assert!(matches!(r, Err(ExportError::InvalidJson)));
}

#[test]
fn non_utf8_line_is_an_encoding_error() {
    let mut body: Vec<u8> = b"{\"event\":\"a\",\"properties\":{}}\n".to_vec();
    body.push(0xff);
    body.push(0xfe);
    let r = parse_body(&body);
    assert!(matches!(r, Err(ExportError::InvalidUtf8)));
}

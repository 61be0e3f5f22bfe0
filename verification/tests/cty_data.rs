use dxca::cty::{parse, parse_iso8601, InvalidOperation};

const SAMPLE: &str = r#"<?xml version="1.0"?>
<clublog date="2026-08-24">
 <entities>
  <entity><adif>324</adif><name>INDIA</name><prefix>VU</prefix><deleted>false</deleted><cqz>22</cqz><cont>AS</cont></entity>
  <entity><adif>289</adif><name>UNITED NATIONS HQ</name><prefix>4U1UN</prefix><deleted>false</deleted><cqz>5</cqz><cont>NA</cont></entity>
  <entity><adif>222</adif><name>BOSNIA &amp; OLD</name><prefix>YO</prefix><deleted>true</deleted><cqz>28</cqz><cont>EU</cont></entity>
 </entities>
 <exceptions>
  <exception record="1"><call>VU2XX/OLD</call><entity>INDIA</entity><adif>324</adif><cqz>22</cqz><start>1990-01-01T00:00:00+00:00</start><end>1999-12-31T23:59:59+00:00</end></exception>
  <exception record="2"><call>4X6TU</call><entity>BEACON</entity><adif>0</adif></exception>
 </exceptions>
 <prefixes>
  <prefix record="1"><call>VU</call><entity>INDIA</entity><adif>324</adif><cqz>22</cqz><cont>AS</cont></prefix>
  <prefix record="2"><call>K</call><entity>UNITED STATES</entity><adif>291</adif></prefix>
 </prefixes>
 <invalid_operations>
  <invalid record="1"><call>SV2RSG/A</call><start>2024-09-05T00:00:00+00:00</start><end>2024-09-09T23:59:59+00:00</end></invalid>
  <invalid record="2"><call>SV2RSG/A</call><start>2021-12-09T00:00:00+00:00</start><end>2021-12-09T23:59:59+00:00</end></invalid>
  <invalid record="3"><call>HM0DX</call></invalid>
  <invalid record="4"><call>ST2NH</call><start>2023-04-16T00:00:00+00:00</start></invalid>
 </invalid_operations>
</clublog>"#;

#[test]
fn invalid_operations_are_parsed_with_their_windows() {
    let cty = parse(SAMPLE).unwrap();
    assert_eq!(cty.invalid_operations.len(), 4);

    let athos: Vec<_> = cty.invalid_operations.iter().filter(|o| o.call == "SV2RSG/A").collect();
    assert_eq!(athos.len(), 2);
    let sept = athos
        .iter()
        .find(|o| o.start_unix == parse_iso8601("2024-09-05T00:00:00+00:00"))
        .expect("the September 2024 window");
    assert_eq!(sept.end_unix, parse_iso8601("2024-09-09T23:59:59+00:00"));

    let unbounded = cty.invalid_operations.iter().find(|o| o.call == "HM0DX").unwrap();
    assert_eq!((unbounded.start_unix, unbounded.end_unix), (None, None));

    let open = cty.invalid_operations.iter().find(|o| o.call == "ST2NH").unwrap();
    assert!(open.start_unix.is_some() && open.end_unix.is_none());

    assert!(!cty.prefix_rules.iter().any(|r| r.call == "HM0DX"));
}

#[test]
fn invalid_operation_windows() {
    let day = |s: &str| parse_iso8601(s);
    let windowed = InvalidOperation {
        call: "SV2RSG/A".into(),
        start_unix: day("2024-09-05T00:00:00+00:00"),
        end_unix: day("2024-09-09T23:59:59+00:00"),
    };
    assert!(windowed.covers(day("2024-09-06T10:15:00+00:00")));
    assert!(!windowed.covers(day("2024-09-04T23:59:59+00:00")));
    assert!(!windowed.covers(day("2024-09-10T00:00:00+00:00")));
    assert!(!windowed.covers(None), "a windowed entry needs a date");

    let always = InvalidOperation { call: "HM0DX".into(), start_unix: None, end_unix: None };
    assert!(always.covers(None), "no window, no date — still invalid");
    assert!(always.covers(day("1999-01-01T00:00:00+00:00")));

    let from = InvalidOperation {
        call: "ST2NH".into(),
        start_unix: day("2023-04-16T00:00:00+00:00"),
        end_unix: None,
    };
    assert!(from.covers(day("2026-01-01T00:00:00+00:00")));
    assert!(!from.covers(day("2020-01-01T00:00:00+00:00")));
}

#[test]
fn the_deleted_flag_survives_onto_the_entity() {
    let data = parse(SAMPLE).expect("sample parses");
    assert!(!data.entity(324).unwrap().deleted, "India is current");
    assert!(data.entity(222).unwrap().deleted, "the deleted one is marked");
    assert!(!data.prefix_rules.iter().any(|r| r.adif == 222), "no prefix rule for a deleted entity");
}

#[test]
fn parses_entities_exceptions_prefixes() {
    let cty = parse(SAMPLE).unwrap();
    assert_eq!(cty.entities.len(), 3);
    assert_eq!(cty.entity(324).unwrap().name, "INDIA");
    assert_eq!(cty.entity(222).unwrap().name, "BOSNIA & OLD");

    let exacts: Vec<_> = cty.prefix_rules.iter().filter(|r| r.is_exact).collect();
    assert!(exacts.iter().any(|r| r.call == "4U1UN" && r.adif == 289));
    assert!(exacts.iter().any(|r| r.call == "4X6TU" && r.adif == 0));
    assert!(exacts.iter().any(|r| r.call == "VU2XX/OLD"));
    assert!(!cty.prefix_rules.iter().any(|r| r.call == "YO"), "deleted entity leaked a rule");
    assert!(cty.prefix_rules.iter().any(|r| r.call == "K" && !r.is_exact && r.adif == 291));
}

#[test]
fn dated_rules_respect_activity_window() {
    let cty = parse(SAMPLE).unwrap();
    let dated = cty.prefix_rules.iter().find(|r| r.call == "VU2XX/OLD").unwrap();
    let mid_1995 = parse_iso8601("1995-06-01T00:00:00+00:00").unwrap();
    let in_2020 = parse_iso8601("2020-01-01T00:00:00+00:00").unwrap();
    assert!(dated.is_active(mid_1995));
    assert!(!dated.is_active(in_2020));
}

#[test]
fn iso8601_reference_values() {
    assert_eq!(parse_iso8601("1970-01-01T00:00:00+00:00"), Some(0));
    assert_eq!(parse_iso8601("2000-03-01T00:00:00Z"), Some(951_868_800));
    assert_eq!(parse_iso8601("2026-08-26T05:30:00+05:30"), parse_iso8601("2026-08-26T00:00:00+00:00"));
    assert_eq!(parse_iso8601("not a date"), None);
}

#[test]
fn a_document_without_records_yields_empty_data() {
    let d = parse("<html><body>error</body></html>").expect("well-formed markup parses");
    assert!(d.entities.is_empty() && d.prefix_rules.is_empty() && d.invalid_operations.is_empty());
    assert!(parse("").unwrap().entities.is_empty());
}

#[test]
fn entity_fields_are_read() {
    let cty = parse(SAMPLE).unwrap();
    let un = cty.entity(289).unwrap();
    assert_eq!(un.prefix, "4U1UN");
    assert_eq!(un.cq_zone, 5);
    assert_eq!(un.continent, "NA");
    assert!(cty.entity(1).is_none());
}

#[test]
fn unscannable_xml_is_refused() {
    assert!(parse("<clublog><entities><entity><adif>1</adif").is_none(), "a tag left open");
    assert!(parse("<clublog><!-- never closed").is_none(), "a comment left open");
    assert!(parse("<clublog>text</clublog>").is_some());
}

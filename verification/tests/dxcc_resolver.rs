use dxca::cty::{parse, parse_iso8601, CtyData, DxccEntity, InvalidOperation, PrefixRule};
use dxca::dxcc::DxccResolver;

fn rule(call: &str, adif: i32, exact: bool) -> PrefixRule {
    PrefixRule { call: call.into(), adif, is_exact: exact, start_unix: None, end_unix: None, cq_zone: None }
}

fn data(entities: Vec<DxccEntity>, rules: Vec<PrefixRule>) -> CtyData {
    CtyData { entities, prefix_rules: rules, ..Default::default() }
}

fn resolver() -> DxccResolver {
    let mut entities = Vec::new();
    for (adif, name, prefix) in [(324, "INDIA", "VU"), (291, "UNITED STATES", "K"), (141, "FALKLAND IS.", "VP8")] {
        entities.push(DxccEntity {
            adif,
            name: name.into(),
            prefix: prefix.into(),
            cq_zone: 0,
            continent: String::new(),
            deleted: false,
            ..Default::default()
        });
    }
    let rules = vec![
        rule("VU", 324, false),
        rule("K", 291, false),
        rule("VP8", 141, false),
        rule("VU4", 11, false),
        rule("K1ABC", 999, true),
        rule("4X6TU", 0, true),
    ];
    let mut r = DxccResolver::default();
    r.load(data(entities, rules), 0);
    r
}

#[test]
fn exact_beats_prefix_and_longest_prefix_wins() {
    let r = resolver();
    assert_eq!(r.resolve("VU2CPL"), Some(324));
    assert_eq!(r.resolve("VU4KV"), Some(11));
    assert_eq!(r.resolve("K1ABC"), Some(999));
    assert_eq!(r.resolve("K1JT"), Some(291));
}

#[test]
fn non_dx_operations_resolve_to_none() {
    let r = resolver();
    assert_eq!(r.resolve("4X6TU"), None);
    assert!(r.is_non_dx_operation("4X6TU"));
    assert!(!r.is_non_dx_operation("VU2CPL"));
}

#[test]
fn expired_rules_are_dropped_at_load() {
    let mut r = DxccResolver::default();
    let mut expired = rule("VU", 324, false);
    expired.end_unix = Some(100);
    r.load(data(vec![resolver().entity(324).unwrap().clone()], vec![expired]), 200);
    assert_eq!(r.resolve("VU2CPL"), None);
}

fn invalid(call: &str, start: Option<i64>, end: Option<i64>) -> InvalidOperation {
    InvalidOperation { call: call.into(), start_unix: start, end_unix: end }
}

fn with_invalid(ops: Vec<InvalidOperation>) -> DxccResolver {
    let mut r = DxccResolver::default();
    r.load(CtyData { invalid_operations: ops, ..Default::default() }, 0);
    r
}

#[test]
fn invalid_operations_respect_their_window() {
    let r = with_invalid(vec![invalid("SV2RSG/A", Some(100), Some(200))]);
    assert!(r.is_invalid_operation("SV2RSG/A", Some(150)));
    assert!(r.is_invalid_operation("SV2RSG/A", Some(100)), "inclusive");
    assert!(r.is_invalid_operation("SV2RSG/A", Some(200)), "inclusive");
    assert!(!r.is_invalid_operation("SV2RSG/A", Some(99)));
    assert!(!r.is_invalid_operation("SV2RSG/A", Some(201)));
    assert!(!r.is_invalid_operation("SV2RSG/A", None));
}

#[test]
fn unbounded_invalid_operations_always_match() {
    let r = with_invalid(vec![invalid("HM0DX", None, None)]);
    assert!(r.is_invalid_operation("HM0DX", Some(12_345)));
    assert!(r.is_invalid_operation("HM0DX", None), "no date still counts");
    assert!(r.is_invalid_operation("hm0dx", Some(1)), "case-insensitive");
    assert!(!r.is_invalid_operation("HM0DXX", Some(1)), "exact, not prefix");
}

#[test]
fn several_windows_for_one_call() {
    let r = with_invalid(vec![invalid("SV2RSG/A", Some(100), Some(200)), invalid("SV2RSG/A", Some(500), Some(600))]);
    assert_eq!(r.invalid_operation_count(), 2);
    assert!(r.is_invalid_operation("SV2RSG/A", Some(150)));
    assert!(r.is_invalid_operation("SV2RSG/A", Some(550)));
    assert!(!r.is_invalid_operation("SV2RSG/A", Some(350)), "the gap");
}

#[test]
fn invalid_lookup_does_not_normalize_the_call() {
    let r = with_invalid(vec![invalid("SV2RSG/A", None, None)]);
    assert!(r.is_invalid_operation("SV2RSG/A", None));
    assert!(!r.is_invalid_operation("SV2RSG", None), "the un-suffixed call is a different station");
}

fn entity(adif: i32, whitelist: bool, start: Option<i64>) -> DxccEntity {
    DxccEntity { adif, name: "TEST".into(), whitelist, whitelist_start_unix: start, ..Default::default() }
}

fn whitelisted(start: Option<i64>, accepted: &[(&str, Option<i64>, Option<i64>)]) -> DxccResolver {
    let mut r = DxccResolver::default();
    r.load(
        CtyData {
            entities: vec![entity(133, true, start), entity(324, false, None)],
            prefix_rules: accepted
                .iter()
                .map(|(c, s, e)| PrefixRule {
                    call: (*c).into(),
                    adif: 133,
                    is_exact: true,
                    start_unix: *s,
                    end_unix: *e,
                    cq_zone: None,
                })
                .collect(),
            ..Default::default()
        },
        0,
    );
    r
}

#[test]
fn a_whitelisted_entity_rejects_an_unlisted_call() {
    let r = whitelisted(None, &[("ZL8X", Some(100), Some(200))]);
    assert_eq!(r.whitelisted_entity_count(), 1);
    assert!(r.is_whitelist_rejected(133, "ZL8AC", Some(150)));
    assert!(!r.is_whitelist_rejected(133, "ZL8X", Some(150)), "listed");
    assert!(!r.is_whitelist_rejected(324, "VU2CPL", Some(150)));
    assert!(!r.is_whitelist_rejected(999, "ZL8AC", Some(150)));
}

#[test]
fn a_listed_call_is_still_bound_by_its_window() {
    let r = whitelisted(None, &[("ZL8X", Some(100), Some(200))]);
    assert!(!r.is_whitelist_rejected(133, "ZL8X", Some(150)));
    assert!(r.is_whitelist_rejected(133, "ZL8X", Some(99)));
    assert!(r.is_whitelist_rejected(133, "ZL8X", Some(201)));
}

#[test]
fn the_whitelist_keeps_rules_that_have_since_expired() {
    let mut r = DxccResolver::default();
    r.load(
        CtyData {
            entities: vec![entity(133, true, None)],
            prefix_rules: vec![PrefixRule {
                call: "ZL8X".into(),
                adif: 133,
                is_exact: true,
                start_unix: Some(100),
                end_unix: Some(200),
                cq_zone: None,
            }],
            ..Default::default()
        },
        10_000,
    );
    assert_eq!(r.resolve("ZL8X"), None, "dropped from live resolution");
    assert!(!r.is_whitelist_rejected(133, "ZL8X", Some(150)), "but still accepted inside its window");
}

#[test]
fn either_side_of_the_slash_matches() {
    let r = whitelisted(None, &[("KH9/K9HEI", None, None)]);
    assert!(!r.is_whitelist_rejected(133, "KH9/K9HEI", Some(150)));
    assert!(!r.is_whitelist_rejected(133, "K9HEI/KH9", Some(150)));
    assert!(r.is_whitelist_rejected(133, "KH9/W1ABC", Some(150)));
    assert!(r.is_whitelist_rejected(133, "K9HEI", Some(150)));
}

#[test]
fn a_dated_whitelist_does_not_reach_back_before_its_start() {
    let r = whitelisted(Some(1_000), &[("ZL8X", None, None)]);
    assert!(!r.is_whitelist_rejected(133, "ZL8AC", Some(999)), "before");
    assert!(r.is_whitelist_rejected(133, "ZL8AC", Some(1_000)), "on");
    assert!(r.is_whitelist_rejected(133, "ZL8AC", Some(5_000)), "after");
}

#[test]
fn an_undated_qso_is_never_whitelist_rejected() {
    let r = whitelisted(None, &[("ZL8X", Some(100), Some(200))]);
    assert!(!r.is_whitelist_rejected(133, "ZL8AC", None));
}

#[test]
fn no_invalid_list_flags_nothing() {
    let r = resolver();
    assert_eq!(r.invalid_operation_count(), 0);
    assert!(!r.is_invalid_operation("SV2RSG/A", Some(150)));
}

#[test]
fn portable_normalization() {
    let r = resolver();
    assert_eq!(r.resolve("VU2CPL/P"), Some(324));
    assert_eq!(r.resolve("K1JT/4"), Some(291));
    assert_eq!(r.resolve("VP8/K1JT"), Some(141));
    assert_eq!(r.resolve("P/VU2CPL"), Some(324));
}

const KG4_CTY: &str = r#"<?xml version="1.0"?>
<clublog date="2026-09-21">
 <entities>
  <entity><adif>291</adif><name>UNITED STATES OF AMERICA</name><prefix>K</prefix><deleted>false</deleted><cqz>5</cqz><cont>NA</cont></entity>
  <entity><adif>105</adif><name>GUANTANAMO BAY</name><prefix>KG4</prefix><deleted>false</deleted><cqz>8</cqz><cont>NA</cont></entity>
  <entity><adif>6</adif><name>ALASKA</name><prefix>KL</prefix><deleted>false</deleted><cqz>1</cqz><cont>NA</cont></entity>
 </entities>
 <exceptions>
  <exception record="1"><call>KG4TJS</call><entity>ALASKA</entity><adif>6</adif><cqz>1</cqz><start>2014-05-16T00:00:00+00:00</start></exception>
  <exception record="2"><call>KG4XYZ</call><entity>GUANTANAMO BAY</entity><adif>105</adif></exception>
 </exceptions>
 <prefixes>
  <prefix record="1"><call>K</call><entity>UNITED STATES OF AMERICA</entity><adif>291</adif><cqz>5</cqz></prefix>
  <prefix record="2"><call>W</call><entity>UNITED STATES OF AMERICA</entity><adif>291</adif><cqz>5</cqz></prefix>
  <prefix record="3"><call>KG4</call><entity>GUANTANAMO BAY</entity><adif>105</adif><cqz>8</cqz><start>1949-01-01T00:00:00+00:00</start></prefix>
 </prefixes>
</clublog>"#;

fn kg4_resolver() -> DxccResolver {
    let mut r = DxccResolver::default();
    let now = parse_iso8601("2026-09-21T22:19:00+00:00").unwrap();
    r.load(parse(KG4_CTY).expect("fixture parses"), now);
    r
}

#[test]
fn a_kg4_call_with_a_three_letter_suffix_is_the_usa() {
    let r = kg4_resolver();
    assert_eq!(r.resolve("KG4OJT"), Some(291));
    assert_eq!(r.resolve("kg4ojt"), Some(291), "case-insensitive");
    assert_eq!(r.entity_name("KG4OJT"), Some("UNITED STATES OF AMERICA"));
}

#[test]
fn a_kg4_call_with_a_two_letter_suffix_is_guantanamo() {
    let r = kg4_resolver();
    assert_eq!(r.resolve("KG4AB"), Some(105));
    assert_eq!(r.resolve("KG44WW"), Some(105));
}

#[test]
fn an_exception_still_beats_the_kg4_rule() {
    let r = kg4_resolver();
    assert_eq!(r.resolve("KG4TJS"), Some(6), "ClubLog puts KG4TJS in Alaska");
    assert_eq!(r.zone("KG4TJS"), Some(1));
    assert_eq!(r.resolve("KG4XYZ"), Some(105));
    assert_eq!(r.zone("KG4XYZ"), Some(8), "no <cqz> on the exception: the zone follows its entity");
}

#[test]
fn a_us_kg4_call_takes_a_us_zone() {
    let r = kg4_resolver();
    assert_ne!(r.zone("KG4OJT"), Some(8), "zone 8 is Guantanamo's");
    assert_eq!(r.zone("KG4OJT"), Some(5), "the USA's own zone");
    assert_eq!(r.zone("KG4AB"), Some(8));
}

#[test]
fn kg4_portable_forms_normalise_before_the_rule() {
    let r = kg4_resolver();
    assert_eq!(r.resolve("KG4OJT/P"), Some(291));
    assert_eq!(r.resolve("KG4OJT/4"), Some(291));
    assert_eq!(r.resolve("KG4OJT/QRP"), Some(291));
    assert_eq!(r.resolve("W4/KG4OJT"), Some(291));
    assert_eq!(r.resolve("KG4/KG4OJT"), Some(105), "operating from Guantanamo");
    assert_eq!(r.resolve("KG4AB/P"), Some(105));
    assert_eq!(r.zone("KG4OJT/P"), Some(5));
}

#[test]
fn an_unloaded_resolver_places_no_kg4_call() {
    let r = DxccResolver::default();
    assert_eq!(r.resolve("KG4OJT"), None);
    assert_eq!(r.zone("KG4OJT"), None);
}

#[test]
fn loading_reports_what_was_loaded() {
    let r = resolver();
    assert!(r.is_loaded());
    assert_eq!(r.entity_count(), 3);
    assert!(!DxccResolver::new().is_loaded());
    let d = kg4_resolver().deleted_adifs();
    assert!(d.is_empty());
}

#[test]
fn a_whitelisted_entity_that_lists_nobody_credits_nobody() {
    let r = whitelisted(None, &[]);
    assert!(r.is_whitelist_rejected(133, "ZL8AC", Some(150)), "only listed operations earn credit");
    assert!(!r.is_whitelist_rejected(133, "ZL8AC", None), "an undated contact is never refused");
    assert!(!r.is_whitelist_rejected(324, "VU2CPL", Some(150)), "not a whitelisted entity");
}

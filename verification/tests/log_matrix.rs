use std::collections::HashSet;

use dxca::cty::{parse_iso8601, CtyData, DxccEntity, InvalidOperation, PrefixRule};
use dxca::dxcc::DxccResolver;
use dxca::matrix::{BandModeStats, LogMatrix, UncreditedReason, VuccBandCount};

fn resolver_with(ops: Vec<InvalidOperation>) -> DxccResolver {
    let entity = |adif: i32, name: &str, prefix: &str| DxccEntity {
        adif,
        name: name.into(),
        prefix: prefix.into(),
        cq_zone: 0,
        continent: String::new(),
        deleted: false,
        ..Default::default()
    };
    let mut r = DxccResolver::default();
    r.load(
        CtyData {
            entities: vec![
                entity(180, "MOUNT ATHOS", "SV/A"),
                entity(236, "GREECE", "SV"),
                entity(48, "EASTERN KIRIBATI", "T32"),
                entity(291, "UNITED STATES", "K"),
            ],
            prefix_rules: vec![PrefixRule {
                call: "SV".into(),
                adif: 236,
                is_exact: false,
                start_unix: None,
                end_unix: None,
                cq_zone: None,
            }],
            invalid_operations: ops,
        },
        0,
    );
    r
}

fn invalid_op(call: &str, start: &str, end: &str) -> InvalidOperation {
    InvalidOperation { call: call.into(), start_unix: parse_iso8601(start), end_unix: parse_iso8601(end) }
}

fn athos_window() -> Vec<InvalidOperation> {
    vec![invalid_op("SV2RSG/A", "2024-09-05T00:00:00+00:00", "2024-09-09T23:59:59+00:00")]
}

#[test]
fn award_axes_record_and_count() {
    let mut m = LogMatrix::default();
    assert!(m.record_grid("MK83va", "6M", Some("DATA"), false));
    assert!(m.record_grid("MK83", "6M", Some("DATA"), true), "same square, now confirmed");
    assert!(m.record_grid("FN20", "2M", Some("DATA"), false));
    assert!(!m.record_grid("MK83", "20M", Some("DATA"), false), "HF never scores VUCC");
    assert!(!m.record_grid("RR73", "6M", Some("DATA"), false));
    assert!(m.record_state("OH", "20M", Some("DATA"), true));
    assert!(m.record_state("dc", "40M", Some("DATA"), false));
    assert!(!m.record_state("PR", "20M", Some("DATA"), true));
    assert!(m.record_iota("as-3", "15M", Some("DATA"), false));
    assert!(!m.record_iota("XX-1", "15M", Some("DATA"), false));

    let a = m.award_stats();
    assert_eq!(
        a.vucc,
        vec![
            VuccBandCount { band: "6M".into(), worked: 1, confirmed: 1 },
            VuccBandCount { band: "2M".into(), worked: 1, confirmed: 0 },
        ],
        "bands in VUCC order, empty bands omitted"
    );
    assert_eq!((a.was_worked, a.was_confirmed), (2, 1));
    assert_eq!(a.was_missing.len(), 48);
    assert!(!a.was_missing.contains(&"OH".to_string()));
    assert!(!a.was_missing.contains(&"MD".to_string()), "DC counted as MD");
    assert_eq!((a.iota_worked, a.iota_confirmed), (1, 0));
    assert!(m.island("AS-003").is_some());
}

#[test]
fn lotw_merge_is_additive_and_confirmed() {
    let mut m = LogMatrix::default();
    m.record_state("OH", "20M", Some("DATA"), false);
    let report = "<CALL:4>W8AA<BAND:3>20M<MODE:2>CW<STATE:2>OH<DXCC:3>291<eor>\
                  <CALL:4>K6BB<BAND:2>6M<MODE:3>FT8<GRIDSQUARE:6>DM04QD<DXCC:3>291<eor>\
                  <CALL:5>VK9CC<BAND:3>15M<MODE:3>SSB<IOTA:6>OC-003<eor>\
                  <CALL:4>BY1X<BAND:3>20M<MODE:2>CW<STATE:2>SD<DXCC:3>318<eor>\
                  <CALL:4>NOAW<BAND:3>40M<eor>";
    assert_eq!(m.merge_lotw_confirmed(report), 3);
    assert!(m.state("OH").unwrap().is_confirmed(), "LoTW confirmed the state");
    assert!(m.grid("DM04").unwrap().confirmed_bands.contains("6M"));
    assert!(m.island("OC-003").unwrap().is_confirmed());
    assert_eq!(m.by_dxcc.len(), 0, "DXCC stays ClubLog's");
    assert!(m.worked_calls.is_empty(), "worked calls stay ClubLog's");
    assert!(m.state("SD").is_none(), "Shandong is not South Dakota");
    assert!(m.state("OH").unwrap().confirmed_modes.contains("CW"));
    assert!(m.island("OC-003").unwrap().confirmed_modes.contains("PHONE"));
}

#[test]
fn adif_build_records_award_axes_from_clublog_fields() {
    let adif = "<CALL:5>SV2AB<BAND:2>6M<MODE:3>FT8<DXCC:3>236\
                <GRIDSQUARE:6>KN10LO<QSL_RCVD:1>Y<eor>\
                <CALL:5>SV2CD<BAND:3>20M<MODE:3>FT8<DXCC:3>236\
                <GRIDSQUARE:4>KN20<STATE:2>OH<IOTA:6>EU-001<eor>";
    let (m, count) = LogMatrix::build_from_adif(adif, &resolver_with(vec![]));
    assert_eq!(count, 2);
    assert!(m.grid("KN10").unwrap().confirmed_bands.contains("6M"));
    assert!(m.grid("KN20").is_none(), "HF grid scores nothing");
    assert!(m.state("OH").is_none(), "Greece cannot carry Ohio");
    assert!(m.island("EU-001").is_some());

    let us = "<CALL:4>W8AA<BAND:3>20M<MODE:2>CW<DXCC:3>291<STATE:2>OH<eor>";
    let (m2, _) = LogMatrix::build_from_adif(us, &resolver_with(vec![]));
    assert!(m2.state("OH").is_some());
}

#[test]
fn worked_call_lookup_handles_slashes() {
    let mut m = LogMatrix::default();
    m.record(324, "20M", "DATA", "VU2ABC", false);
    assert!(m.has_worked_call("vu2abc"), "case-insensitive exact");
    assert!(m.has_worked_call("VU2ABC/P"), "suffix stripped");
    assert!(m.has_worked_call("VP8/VU2ABC"), "prefix override stripped");
    assert!(!m.has_worked_call("VU2XYZ"));
    assert!(!LogMatrix::default().has_worked_call("VU2ABC"), "empty log");
}

#[test]
fn deleted_entities_drop_out_of_every_total_together() {
    let mut m = LogMatrix::default();
    m.record(324, "20M", "CW", "VU2ABC", true);
    m.record(324, "40M", "CW", "VU2XYZ", true);
    m.record(2, "20M", "CW", "OLD1", true);

    let all = m.stats();
    assert_eq!(all.dxcc_worked, 2);
    assert_eq!(all.dxcc_confirmed, 2);
    assert_eq!(all.challenge_worked, 3, "2 bands + 1 band");
    assert_eq!(all.challenge_confirmed, 3);

    let current = m.stats_excluding(&HashSet::from([2]));
    assert_eq!(current.dxcc_worked, 1, "Abu Ail no longer counts");
    assert_eq!(current.dxcc_confirmed, 1);
    assert_eq!(current.slots_worked, 2, "only India's two slots");
    assert_eq!(current.slots_confirmed, 2);
    assert_eq!(current.challenge_worked, 2);
    assert_eq!(current.challenge_confirmed, 2);
    assert!(m.status(2).is_some(), "the deleted entity stays in the log");
}

#[test]
fn the_band_table_excludes_deleted_entities_too() {
    let mut m = LogMatrix::default();
    m.record(324, "20M", "CW", "VU2ABC", true);
    m.record(2, "20M", "CW", "OLD1", true);

    let band = |st: &BandModeStats, k: &str| st.bands.iter().find(|b| b.key == k).unwrap().clone();
    assert_eq!(band(&m.by_band_and_mode(), "20M").worked, 2);
    let current = m.by_band_and_mode_excluding(&HashSet::from([2]));
    assert_eq!(band(&current, "20M").worked, 1);
    assert_eq!(band(&current, "20M").confirmed, 1);
}

#[test]
fn excluding_an_empty_set_changes_nothing() {
    let mut m = LogMatrix::default();
    m.record(324, "20M", "CW", "VU2ABC", true);
    m.record(291, "40M", "DATA", "K1ABC", false);
    assert_eq!(m.stats(), m.stats_excluding(&HashSet::new()));
    assert_eq!(m.by_band_and_mode(), m.by_band_and_mode_excluding(&HashSet::new()));
}

#[test]
fn an_entity_worked_only_through_an_invalid_operation_is_not_worked() {
    let adif = "<CALL:8>SV2RSG/A<QSO_DATE:8>20240906<TIME_ON:6>101500\
                <BAND:3>20M<MODE:3>FT8<DXCC:3>180<eor>";
    let (m, count) = LogMatrix::build_from_adif(adif, &resolver_with(vec![]));
    assert_eq!(count, 1);
    assert_eq!(m.stats().dxcc_worked, 1, "without the list it scores");

    let (m, count) = LogMatrix::build_from_adif(adif, &resolver_with(athos_window()));
    assert_eq!(m.stats().dxcc_worked, 0, "ClubLog does not credit it");
    assert!(m.status(180).is_none());
    assert!(m.worked_calls.is_empty());
    assert_eq!(count, 1, "still a QSO, just not an award-scoring one");
}

#[test]
fn invalid_operations_drop_only_the_rejected_contacts() {
    let adif = "<CALL:8>SV2RSG/A<QSO_DATE:8>20240906<TIME_ON:6>101500\
                <BAND:3>20M<MODE:3>FT8<DXCC:3>180<eor>\
                <CALL:8>SV2RSG/A<QSO_DATE:8>20250101<TIME_ON:6>101500\
                <BAND:3>40M<MODE:3>FT8<DXCC:3>180<eor>\
                <CALL:6>SV2CPL<QSO_DATE:8>20240906<TIME_ON:6>101500\
                <BAND:3>20M<MODE:2>CW<DXCC:3>236<eor>";
    let (m, count) = LogMatrix::build_from_adif(adif, &resolver_with(athos_window()));
    assert_eq!(count, 3);
    assert_eq!(m.stats().dxcc_worked, 2, "Mount Athos survives on 40M");
    let slots = &m.status(180).unwrap().slots;
    assert_eq!(slots.len(), 1, "only the September contact was dropped");
    assert!(slots.contains("40M-DATA"));
    assert!(m.status(236).is_some(), "Greece is untouched");
}

#[test]
fn an_unlisted_call_earns_no_credit_in_a_whitelisted_entity() {
    let entity = |adif: i32, name: &str, prefix: &str, whitelist: bool| DxccEntity {
        adif,
        name: name.into(),
        prefix: prefix.into(),
        whitelist,
        ..Default::default()
    };
    let rule = |call: &str, adif: i32, is_exact: bool| PrefixRule {
        call: call.into(),
        adif,
        is_exact,
        start_unix: None,
        end_unix: None,
        cq_zone: None,
    };
    let mut r = DxccResolver::default();
    r.load(
        CtyData {
            entities: vec![entity(133, "KERMADEC ISLAND", "ZL8", true), entity(170, "NEW ZEALAND", "ZL", false)],
            prefix_rules: vec![rule("ZL8", 133, false), rule("ZL", 170, false), rule("ZL8X", 133, true)],
            ..Default::default()
        },
        0,
    );

    let adif = "<CALL:5>ZL8AC<QSO_DATE:8>20250712<TIME_ON:6>101500\
                <BAND:3>40M<MODE:3>FT8<DXCC:3>133<eor>";
    let (m, count, uncredited) = LogMatrix::build_from_adif_reporting(adif, &r);
    assert_eq!(count, 1, "still a QSO");
    assert_eq!(m.stats().dxcc_worked, 0, "ClubLog credits nothing here");
    assert!(m.status(133).is_none());
    assert!(m.worked_calls.is_empty());

    assert_eq!(uncredited.len(), 1);
    assert_eq!(
        uncredited[0].to_line(),
        "ZL8AC 20250712 101500Z 40M FT8 DXCC 133 \
         — not on the entity's whitelist, no credit"
    );

    let listed = "<CALL:4>ZL8X<QSO_DATE:8>20250712<TIME_ON:6>101500\
                  <BAND:3>40M<MODE:3>FT8<DXCC:3>133<eor>";
    let (m, _) = LogMatrix::build_from_adif(listed, &r);
    assert_eq!(m.stats().dxcc_worked, 1);
    assert!(m.status(133).is_some());
}

#[test]
fn uncredited_contacts_are_reported_with_enough_to_find_them() {
    let adif = "<CALL:8>SV2RSG/A<QSO_DATE:8>20240906<TIME_ON:6>101500\
                <BAND:3>20M<MODE:3>FT8<DXCC:3>180<eor>\
                <CALL:6>SV2CPL<QSO_DATE:8>20240906<TIME_ON:6>101500\
                <BAND:3>20M<MODE:2>CW<DXCC:3>236<eor>";
    let (_, count, uncredited) = LogMatrix::build_from_adif_reporting(adif, &resolver_with(athos_window()));
    assert_eq!(count, 2, "both records are still QSOs");
    assert_eq!(uncredited.len(), 1, "only the rejected one is reported");
    let c = &uncredited[0];
    assert_eq!(c.call, "SV2RSG/A");
    assert_eq!(c.qso_date, "20240906");
    assert_eq!(c.time_on, "101500");
    assert_eq!(c.band, "20M");
    assert_eq!(c.mode, "FT8", "the log's own mode, not the DATA bucket");
    assert_eq!(c.dxcc, Some(180));
    assert_eq!(c.reason, UncreditedReason::InvalidOperation);

    let line = c.to_line();
    assert!(line.contains("SV2RSG/A"), "{line}");
    assert!(line.contains("20240906"), "{line}");
    assert!(line.contains("invalid operation"), "{line}");
}

#[test]
fn a_log_with_nothing_uncredited_reports_nothing() {
    let adif = "<CALL:6>SV2CPL<QSO_DATE:8>20240906<TIME_ON:6>101500\
                <BAND:3>20M<MODE:2>CW<DXCC:3>236<eor>";
    let (_, _, uncredited) = LogMatrix::build_from_adif_reporting(adif, &resolver_with(vec![]));
    assert!(uncredited.is_empty());
}

#[test]
fn the_reporting_build_matches_the_plain_one() {
    let adif = "<CALL:8>SV2RSG/A<QSO_DATE:8>20240906<TIME_ON:6>101500\
                <BAND:3>20M<MODE:3>FT8<DXCC:3>180<eor>\
                <CALL:6>SV2CPL<QSO_DATE:8>20240906<TIME_ON:6>101500\
                <BAND:3>20M<MODE:2>CW<DXCC:3>236<eor>";
    let plain = LogMatrix::build_from_adif(adif, &resolver_with(athos_window()));
    let (m, n, _) = LogMatrix::build_from_adif_reporting(adif, &resolver_with(athos_window()));
    assert_eq!(plain.0, m);
    assert_eq!(plain.1, n);
}

#[test]
fn a_whitelisted_entity_does_not_taint_its_neighbours() {
    let entity = |adif: i32, prefix: &str, whitelist: bool| DxccEntity {
        adif,
        name: "E".into(),
        prefix: prefix.into(),
        whitelist,
        ..Default::default()
    };
    let rule = |call: &str, adif: i32| PrefixRule {
        call: call.into(),
        adif,
        is_exact: false,
        start_unix: None,
        end_unix: None,
        cq_zone: None,
    };
    let mut r = DxccResolver::default();
    r.load(
        CtyData {
            entities: vec![entity(133, "ZL8", true), entity(170, "ZL", false)],
            prefix_rules: vec![rule("ZL8", 133), rule("ZL", 170)],
            ..Default::default()
        },
        0,
    );
    let adif = "<CALL:5>ZL1ABC<QSO_DATE:8>20250712<TIME_ON:6>101500\
                <BAND:3>40M<MODE:3>FT8<DXCC:3>170<eor>";
    let (m, _) = LogMatrix::build_from_adif(adif, &r);
    assert_eq!(m.stats().dxcc_worked, 1, "New Zealand still counts");
    assert!(m.status(170).is_some());
}

#[test]
fn the_window_is_tested_to_the_minute() {
    let ops = vec![invalid_op("T32C", "2011-10-01T20:36:00+00:00", "2011-10-02T16:29:59+00:00")];
    let build = |time: &str| {
        let adif = format!(
            "<CALL:4>T32C<QSO_DATE:8>20111001<TIME_ON:6>{time}\
             <BAND:3>20M<MODE:2>CW<DXCC:2>48<eor>"
        );
        LogMatrix::build_from_adif(&adif, &resolver_with(ops.clone())).0.stats().dxcc_worked
    };
    assert_eq!(build("203500"), 1, "a minute before the cut-off, valid");
    assert_eq!(build("203600"), 0, "on the cut-off, invalid");
    assert_eq!(build("210000"), 0, "after it, invalid");
}

#[test]
fn record_tracks_worked_and_confirmed() {
    let mut m = LogMatrix::default();
    m.record(324, "20M", "DATA", "VU2ABC", false);
    m.record(324, "20M", "CW", "VU2XYZ", true);
    let s = m.status(324).unwrap();
    assert_eq!(s.slots.len(), 2);
    assert!(s.slots.contains("20M-DATA") && s.slots.contains("20M-CW"));
    assert_eq!(s.confirmed_slots.len(), 1);
    assert!(s.confirmed_slots.contains("20M-CW"));
    assert!(m.worked_calls.contains("vu2abc"));
    assert_eq!(m.total_dxcc_count(), 1);
}

#[test]
fn band_and_mode_slices_count_entities_not_qsos() {
    let mut m = LogMatrix::default();
    m.record(324, "20M", "DATA", "VU2ABC", true);
    m.record(324, "20M", "CW", "VU2XYZ", false);
    m.record(291, "20M", "CW", "K1ABC", true);
    m.record(291, "40M", "CW", "K9XYZ", false);

    let s = m.by_band_and_mode();
    let band = |k: &str| s.bands.iter().find(|b| b.key == k).unwrap().clone();
    let mode = |k: &str| s.modes.iter().find(|b| b.key == k).unwrap().clone();

    assert_eq!(band("20M").worked, 2, "two entities on 20M, not four QSOs");
    assert_eq!(band("20M").confirmed, 2);
    assert_eq!(band("40M").worked, 1);
    assert_eq!(band("40M").confirmed, 0, "worked but unconfirmed");
    assert_eq!(band("15M").worked, 0, "an empty band still gets a row");

    assert_eq!(mode("CW").worked, 2);
    assert_eq!(mode("CW").confirmed, 1, "only the US CW slot is confirmed");
    assert_eq!(mode("DATA").worked, 1);
    assert_eq!(mode("PHONE").worked, 0);

    assert_eq!(s.bands.first().unwrap().key, "160M");
    assert_eq!(s.modes.iter().map(|m| m.key.as_str()).collect::<Vec<_>>(), vec!["CW", "PHONE", "DATA"]);
}

#[test]
fn grid_splits_every_band_by_mode() {
    let mut m = LogMatrix::default();
    m.record(324, "20M", "DATA", "VU2ABC", true);
    m.record(324, "20M", "CW", "VU2XYZ", false);
    m.record(291, "20M", "CW", "K1ABC", true);
    m.record(291, "40M", "CW", "K9XYZ", false);

    let s = m.by_band_and_mode();
    let cell = |mode: &str, band: &str| {
        s.grid.iter().find(|r| r.mode == mode).unwrap().bands.iter().find(|b| b.key == band).unwrap().clone()
    };

    assert_eq!(cell("CW", "20M").worked, 2, "India and the USA, both in CW");
    assert_eq!(cell("CW", "20M").confirmed, 1, "only the US CW slot");
    assert_eq!(cell("DATA", "20M").worked, 1);
    assert_eq!(cell("DATA", "20M").confirmed, 1);
    assert_eq!(cell("PHONE", "20M").worked, 0, "an empty cell is still a cell");
    assert_eq!(cell("CW", "40M").worked, 1);
    assert_eq!(cell("CW", "40M").confirmed, 0, "worked but unconfirmed");
    assert_eq!(cell("CW", "15M").worked, 0, "and an empty band keeps its row");

    let column: usize = s.grid.iter().map(|r| cell(&r.mode, "20M").worked).sum();
    assert_eq!(column, 3, "the column double-counts India");
    assert_eq!(s.bands.iter().find(|b| b.key == "20M").unwrap().worked, 2);

    assert_eq!(s.grid.iter().map(|r| r.mode.as_str()).collect::<Vec<_>>(), vec!["CW", "PHONE", "DATA"]);
    assert_eq!(s.grid[0].bands.first().unwrap().key, "160M");
}

#[test]
fn challenge_counts_entity_bands_not_slots() {
    let mut m = LogMatrix::default();
    m.record(324, "20M", "DATA", "VU2AAA", true);
    m.record(324, "20M", "CW", "VU2BBB", true);
    m.record(324, "40M", "CW", "VU2CCC", true);
    m.record(324, "60M", "PHONE", "VU2DDD", true);
    m.record(291, "15M", "CW", "K1AAA", false);

    let s = m.stats();
    assert_eq!(s.slots_confirmed, 4, "20M×2 + 40M + 60M");
    assert_eq!(s.challenge_confirmed, 2, "20M + 40M; 60M excluded");
    assert_eq!(s.challenge_worked, 3, "the above plus K1AAA on 15M");
    assert_eq!(s.dxcc_worked, 2);
    assert_eq!(s.dxcc_confirmed, 1, "K1AAA has nothing confirmed");
}

#[test]
fn recording_the_same_contact_twice_changes_nothing() {
    let mut once = LogMatrix::default();
    once.record(324, "20M", "CW", "VU2ABC", true);
    let mut twice = LogMatrix::default();
    twice.record(324, "20M", "CW", "VU2ABC", true);
    twice.record(324, "20M", "CW", "VU2ABC", true);
    assert_eq!(once, twice);
}

#[test]
fn zones_and_marathon_years_are_counted() {
    let mut m = LogMatrix::default();
    assert!(m.record_zone(14, "20M", Some("CW"), true));
    assert!(!m.record_zone(41, "20M", Some("CW"), true), "only zones 1 to 40");
    m.record_marathon(2025, Some(324), Some(22));
    m.record_marathon(2025, Some(291), Some(5));
    m.record_marathon(2024, Some(324), None);
    let a = m.award_stats();
    assert_eq!((a.waz_worked, a.waz_confirmed), (1, 1));
    assert_eq!(a.waz_missing.len(), 39);
    assert_eq!(a.marathon.len(), 2);
    assert_eq!(a.marathon[0].year, 2025, "newest year first");
    assert_eq!(a.marathon[0].score, 4);
    assert_eq!(a.marathon[1].score, 1);
}

#[test]
fn territories_never_take_a_was_slot() {
    let mut m = LogMatrix::new();
    assert!(!m.record_state("PR", "20M", Some("DATA"), true), "a territory");
    assert!(!m.record_state("Ohio", "20M", Some("DATA"), true), "noise");
    assert!(m.record_state("dc", "20M", Some("DATA"), true), "DC counts for MD");
    assert_eq!(m.by_state.len(), 1);
    assert_eq!(m.by_state.key_at(0), "MD");
}

#[test]
fn triple_play_counts_and_gaps_cover_fifty_states() {
    let mut m = LogMatrix::default();
    assert_eq!(m.triple_play_count() + m.triple_play_missing().len(), 50);
    for mode in ["CW", "PHONE", "DATA"] {
        assert!(m.record_state("oh", "20m", Some(mode), true));
    }
    assert!(m.record_state("TX", "40m", Some("CW"), true));
    assert!(m.record_state("dc", "40m", Some("DATA"), false));
    assert!(!m.record_state("PR", "40m", Some("CW"), true));
    assert_eq!(m.triple_play_count(), 1);
    let gaps = m.triple_play_missing();
    assert_eq!(gaps.len(), 49);
    assert_eq!(m.triple_play_count() + gaps.len(), 50);
    assert_eq!(gaps[0].state, "TX");
    assert_eq!(gaps[0].needed, vec!["PHONE".to_string(), "DATA".to_string()]);
    assert!(gaps.iter().all(|g| g.state != "OH"));
}

#[test]
fn adding_invalid_operations_only_takes_credit_away() {
    let adif = "<CALL:8>SV2RSG/A<QSO_DATE:8>20240906<TIME_ON:6>101500\
                <BAND:3>20M<MODE:3>FT8<DXCC:3>180<eor>\
                <CALL:8>SV2RSG/A<QSO_DATE:8>20240907<TIME_ON:6>101500\
                <BAND:3>15M<MODE:2>CW<DXCC:3>180<QSL_RCVD:1>Y<eor>\
                <CALL:8>SV2RSG/A<QSO_DATE:8>20250101<TIME_ON:6>101500\
                <BAND:3>40M<MODE:3>FT8<DXCC:3>180<eor>\
                <CALL:6>SV2CPL<QSO_DATE:8>20240906<TIME_ON:6>101500\
                <BAND:3>20M<MODE:2>CW<DXCC:3>236<eor>";
    let (before, n_before) = LogMatrix::build_from_adif(adif, &resolver_with(vec![]));
    let (after, n_after) = LogMatrix::build_from_adif(adif, &resolver_with(athos_window()));
    assert_eq!(n_before, n_after);
    for i in 0..after.by_dxcc.len() {
        let adif = after.by_dxcc.key_at(i);
        let now = after.status(adif).unwrap();
        let was = before.status(adif).expect("no entity is gained");
        for j in 0..now.slots.len() {
            assert!(was.slots.contains(now.slots.get(j)));
        }
        for j in 0..now.confirmed_slots.len() {
            assert!(was.confirmed_slots.contains(now.confirmed_slots.get(j)));
        }
    }
    for j in 0..after.worked_calls.len() {
        assert!(before.worked_calls.contains(after.worked_calls.get(j)));
    }
    assert_eq!(before.status(180).unwrap().slots.len(), 3);
    assert_eq!(after.status(180).unwrap().slots.len(), 1);
    assert_eq!(after.worked_calls.len(), 2);
}

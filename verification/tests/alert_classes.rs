use dxca::classify::{flaggable, AlertClassifier, AlertConfig, AlertLevel, AwardRefs, Classification};
use dxca::cty::{CtyData, DxccEntity, PrefixRule};
use dxca::dxcc::DxccResolver;
use dxca::matrix::LogMatrix;

fn resolver() -> DxccResolver {
    let entities = vec![
        DxccEntity {
            adif: 324,
            name: "INDIA".into(),
            prefix: "VU".into(),
            cq_zone: 22,
            continent: "AS".into(),
            deleted: false,
            ..Default::default()
        },
        DxccEntity {
            adif: 291,
            name: "UNITED STATES".into(),
            prefix: "K".into(),
            cq_zone: 5,
            continent: "NA".into(),
            deleted: false,
            ..Default::default()
        },
    ];
    let rule = |call: &str, adif: i32| PrefixRule {
        call: call.into(),
        adif,
        is_exact: false,
        start_unix: None,
        end_unix: None,
        cq_zone: None,
    };
    let mut r = DxccResolver::default();
    r.load(CtyData { entities, prefix_rules: vec![rule("VU", 324), rule("K", 291)], ..Default::default() }, 0);
    r
}

fn matrix() -> LogMatrix {
    let mut m = LogMatrix::default();
    m.record(324, "20M", "DATA", "VU2AAA", true);
    m.record(324, "40M", "CW", "VU2BBB", false);
    m
}

fn classify(call: &str, hz: u64, mode: &str, config: &AlertConfig) -> Classification {
    let m = matrix();
    let r = resolver();
    AlertClassifier { matrix: &m, resolver: &r, config }.classify(call, hz, mode)
}

fn awards_config() -> AlertConfig {
    AlertConfig {
        alert_unconf_dxcc: true,
        alert_unconf_slot: true,
        alert_unconf_band: true,
        alert_unconf_mode: true,
        alert_new_grid: true,
        alert_unconf_grid: true,
        alert_new_state: true,
        alert_unconf_state: true,
        alert_new_iota: true,
        alert_unconf_iota: true,
        ..AlertConfig::default()
    }
}

fn classify_refs(m: &LogMatrix, call: &str, hz: u64, config: &AlertConfig, refs: AwardRefs) -> Classification {
    let r = resolver();
    AlertClassifier { matrix: m, resolver: &r, config }.classify_spot(call, hz, "FT8", &refs)
}

fn all_on() -> AlertConfig {
    AlertConfig {
        alert_unconf_dxcc: true,
        alert_unconf_slot: true,
        alert_unconf_band: true,
        alert_unconf_mode: true,
        ..AlertConfig::default()
    }
}

#[test]
fn unconfirmed_is_exactly_the_question_half() {
    for level in flaggable() {
        assert_eq!(level.is_unconfirmed(), level.key().starts_with("unconf"));
    }
    assert!(!AlertLevel::Worked.is_unconfirmed());
    assert!(!AlertLevel::NoAlert.is_unconfirmed());
}

#[test]
fn award_ladder_grid_is_per_band_and_vucc_only() {
    let cfg = awards_config();
    let mut m = matrix();
    m.record(324, "6M", "DATA", "VU2CCC", true);
    m.record_grid("MK83", "6M", Some("DATA"), false);

    let grid = |g| AwardRefs { grid: Some(g), ..AwardRefs::none() };
    let c = classify_refs(&m, "VU2XYZ", 50_313_000, &cfg, grid("MK97FK"));
    assert_eq!(c.level, AlertLevel::NewGrid);
    assert_eq!(c.award_ref.as_deref(), Some("MK97"));
    let c = classify_refs(&m, "VU2XYZ", 50_313_000, &cfg, grid("MK83VA"));
    assert_eq!(c.level, AlertLevel::UnconfGrid);
    let c = classify_refs(&m, "VU2XYZ", 144_174_000, &cfg, grid("MK83"));
    assert_eq!(c.level, AlertLevel::NewGrid);
    let c = classify_refs(&m, "VU2XYZ", 14_074_000, &cfg, grid("MK97"));
    assert_ne!(c.level, AlertLevel::NewGrid);
    let c = classify_refs(&m, "VU2XYZ", 50_313_000, &cfg, grid("RR73"));
    assert_ne!(c.level, AlertLevel::NewGrid);
}

#[test]
fn award_ladder_state_and_iota_are_key_level() {
    let cfg = awards_config();
    let mut m = matrix();
    m.record(291, "20M", "DATA", "K9XX", true);
    m.record_state("OH", "20M", Some("DATA"), false);
    m.record_state("CA", "20M", Some("DATA"), true);
    m.record_iota("AS-003", "15M", Some("DATA"), false);

    let c = classify_refs(&m, "K1ABC", 14_074_000, &cfg, AwardRefs { state: Some("TX"), ..AwardRefs::none() });
    assert_eq!(c.level, AlertLevel::NewState);
    assert_eq!(c.award_ref.as_deref(), Some("TX"));
    let unconf = classify_refs(&m, "K1ABC", 14_074_000, &cfg, AwardRefs { state: Some("OH"), ..AwardRefs::none() });
    assert_eq!(unconf.level, AlertLevel::UnconfState);
    let done = classify_refs(&m, "K1ABC", 14_074_000, &cfg, AwardRefs { state: Some("CA"), ..AwardRefs::none() });
    assert_ne!(done.level, AlertLevel::NewState);
    assert_ne!(done.level, AlertLevel::UnconfState);

    let iota = classify_refs(&m, "VU2ABC", 14_074_000, &cfg, AwardRefs { iota: Some("as-153"), ..AwardRefs::none() });
    assert_eq!(iota.level, AlertLevel::NewIota);
    assert_eq!(iota.award_ref.as_deref(), Some("AS-153"));
    let unconf_iota =
        classify_refs(&m, "VU2ABC", 14_074_000, &cfg, AwardRefs { iota: Some("AS-003"), ..AwardRefs::none() });
    assert_eq!(unconf_iota.level, AlertLevel::UnconfIota);
}

#[test]
fn an_empty_axis_claims_nothing_is_new() {
    let cfg = awards_config();
    let mut m = matrix();
    m.record(291, "20M", "DATA", "K9XX", true);

    let refs = AwardRefs { state: Some("TX"), iota: Some("AS-153"), ..AwardRefs::none() };
    let quiet = classify_refs(&m, "K1ABC", 14_074_000, &cfg, refs);
    assert_ne!(quiet.level, AlertLevel::NewState, "no state data, no claim");
    assert_ne!(quiet.level, AlertLevel::NewIota, "no island data, no claim");

    m.record_state("OH", "20M", Some("DATA"), true);
    let live = classify_refs(&m, "K1ABC", 14_074_000, &cfg, AwardRefs { state: Some("TX"), ..AwardRefs::none() });
    assert_eq!(live.level, AlertLevel::NewState);
}

#[test]
fn a_us_call_operating_abroad_is_not_a_new_state() {
    let cfg = awards_config();
    let mut m = matrix();
    m.record_state("OH", "20M", Some("DATA"), true);
    let abroad = classify_refs(&m, "VU2XYZ", 14_074_000, &cfg, AwardRefs { state: Some("AZ"), ..AwardRefs::none() });
    assert_ne!(abroad.level, AlertLevel::NewState);
    assert_ne!(abroad.level, AlertLevel::UnconfState);

    let mut home = matrix();
    home.record(291, "20M", "DATA", "K9XX", true);
    home.record_state("OH", "20M", Some("DATA"), true);
    let at_home =
        classify_refs(&home, "K1ABC", 14_074_000, &cfg, AwardRefs { state: Some("AZ"), ..AwardRefs::none() });
    assert_eq!(at_home.level, AlertLevel::NewState);
}

#[test]
fn the_rarest_candidate_wins_and_filters_shift_the_pick() {
    let cfg = awards_config();
    let mut m = matrix();
    m.record_state("OH", "20M", Some("DATA"), true);
    let refs = AwardRefs { state: Some("TX"), ..AwardRefs::none() };
    let c = classify_refs(&m, "K1ABC", 14_074_000, &cfg, refs);
    assert_eq!(c.level, AlertLevel::NewDxcc);
    assert_eq!(c.award_ref, None, "the DXCC pick names no award key");
    let mut no_dxcc = awards_config();
    no_dxcc.alert_new_dxcc = false;
    let c = classify_refs(&m, "K1ABC", 14_074_000, &no_dxcc, refs);
    assert_eq!(c.level, AlertLevel::NewState);
    let c = classify_refs(
        &m,
        "VU2XYZ",
        50_313_000,
        &AlertConfig::default(),
        AwardRefs { grid: Some("MK97"), ..AwardRefs::none() },
    );
    assert_ne!(c.level, AlertLevel::NewGrid);
}

#[test]
fn unknown_mode_answers_only_the_band_half() {
    let cfg = AlertConfig::default();
    assert_eq!(classify("VU2ZZZ", 14_200_000, "", &cfg).level, AlertLevel::Worked);
    assert_eq!(classify("VU2ZZZ", 21_200_000, "", &cfg).level, AlertLevel::NewBand);
    assert_eq!(classify("K1JT", 14_200_000, "", &cfg).level, AlertLevel::NewDxcc);
    let unconf = AlertConfig { alert_unconf_band: true, ..AlertConfig::default() };
    assert_eq!(classify("VU2ZZZ", 7_150_000, "", &unconf).level, AlertLevel::UnconfBand);
    assert_eq!(classify("VU2ZZZ", 7_150_000, "", &cfg).level, AlertLevel::Worked);
    assert_eq!(classify("VU2ZZZ", 14_200_000, "SSB", &cfg).level, AlertLevel::NewMode);
}

#[test]
fn level_priorities() {
    let cfg = AlertConfig::default();
    assert_eq!(classify("K1JT", 14_074_000, "FT8", &cfg).level, AlertLevel::NewDxcc);
    assert_eq!(classify("VU2ZZZ", 14_074_000, "FT8", &cfg).level, AlertLevel::Worked);
    assert_eq!(classify("VU2ZZZ", 21_074_000, "FT8", &cfg).level, AlertLevel::NewBand);
    assert_eq!(classify("VU2ZZZ", 7_074_000, "FT8", &cfg).level, AlertLevel::NewSlot);
    assert_eq!(classify("VU2ZZZ", 14_200_000, "SSB", &cfg).level, AlertLevel::NewMode);
}

#[test]
fn unconfirmed_levels_sit_under_the_new_ones() {
    let cfg = all_on();
    assert_eq!(classify("VU2ZZZ", 7_028_000, "CW", &cfg).level, AlertLevel::UnconfBand);
    assert_eq!(classify("VU2ZZZ", 14_074_000, "FT8", &cfg).level, AlertLevel::Worked);
    assert_eq!(classify("VU2ZZZ", 21_074_000, "FT8", &cfg).level, AlertLevel::NewBand);
}

#[test]
fn entity_with_nothing_confirmed_reads_as_unconf_dxcc() {
    let mut m = LogMatrix::default();
    m.record(324, "20M", "DATA", "VU2AAA", false);
    let r = resolver();
    let cfg = all_on();
    let c = AlertClassifier { matrix: &m, resolver: &r, config: &cfg }.classify("VU2ZZZ", 14_074_000, "FT8");
    assert_eq!(c.level, AlertLevel::UnconfDxcc);
}

#[test]
fn unconf_mode_and_slot_are_distinguishable() {
    let mut m = LogMatrix::default();
    m.record(324, "20M", "DATA", "VU2AAA", true);
    m.record(324, "20M", "CW", "VU2BBB", false);
    m.record(324, "40M", "DATA", "VU2CCC", false);
    let r = resolver();
    let cfg = all_on();
    let go = |hz, mode| AlertClassifier { matrix: &m, resolver: &r, config: &cfg }.classify("VU2ZZZ", hz, mode).level;
    assert_eq!(go(14_030_000, "CW"), AlertLevel::UnconfMode);
    assert_eq!(go(7_074_000, "FT8"), AlertLevel::UnconfBand);
}

#[test]
fn unconfirmed_levels_are_off_by_default() {
    let cfg = AlertConfig::default();
    assert_eq!(classify("VU2ZZZ", 7_028_000, "CW", &cfg).level, AlertLevel::Worked);
}

#[test]
fn filters_downgrade_to_worked() {
    let cfg = AlertConfig { alert_new_band: false, ..AlertConfig::default() };
    assert_eq!(classify("VU2ZZZ", 21_074_000, "FT8", &cfg).level, AlertLevel::Worked);
}

#[test]
fn beacons_and_gaps_never_alert() {
    let cfg = AlertConfig::default();
    let c = classify("4X6TU", 14_100_000, "CW", &cfg);
    assert_eq!(c.level, AlertLevel::NoAlert);
    assert!(c.is_beacon);
    assert_eq!(c.dxcc_name.as_deref(), Some("NCDXF Beacon — Tel Aviv, Israel"));
    let c = classify("VU2ZZZ", 2_500_000, "FT8", &cfg);
    assert_eq!(c.level, AlertLevel::NoAlert);
    assert_eq!(c.dxcc_id, Some(324));
    assert_eq!(classify("", 14_074_000, "FT8", &cfg).level, AlertLevel::NoAlert);
}

#[test]
fn ranks_follow_the_flaggable_order() {
    let levels = flaggable();
    for (i, l) in levels.iter().enumerate() {
        assert_eq!(l.rank(), i);
    }
    assert_eq!(AlertLevel::NoAlert.rank(), usize::MAX);
    assert_eq!(AlertLevel::Worked.rank(), usize::MAX);
    assert_eq!(AlertLevel::NewDxcc.label(), "NEW DXCC");
}

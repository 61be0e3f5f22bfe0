use dxca::bands::{
    band_from_hz, band_table, challenge_bands, is_challenge_band, is_vucc_band, mode_from_hz,
    plausible_in, selectable_bands, vucc_bands, SunPhase,
};

const PHASED: [&str; 9] = ["160M", "80M", "60M", "40M", "20M", "17M", "15M", "12M", "10M"];

fn is_real_band(name: &str) -> bool {
    band_table().iter().any(|(n, _, _)| *n == name)
}

#[test]
fn every_selectable_band_is_a_real_band() {
    let sel = selectable_bands();
    for name in &sel {
        assert!(is_real_band(name), "{name} is offered as a filter but the resolver never emits it");
    }
    assert_eq!(sel.first(), Some(&"160M"));
    assert_eq!(sel.last(), Some(&"70CM"));
}

#[test]
fn the_phase_decides_which_bands_are_plausible() {
    assert!(!plausible_in("160M", SunPhase::Day), "160m at midday is the whole point");
    assert!(!plausible_in("80M", SunPhase::Day));
    assert!(plausible_in("20M", SunPhase::Day));
    assert!(plausible_in("15M", SunPhase::Day));
    assert!(plausible_in("10M", SunPhase::Day));

    assert!(plausible_in("160M", SunPhase::Night));
    assert!(plausible_in("80M", SunPhase::Night));
    assert!(plausible_in("40M", SunPhase::Night));
    assert!(!plausible_in("15M", SunPhase::Night));
    assert!(!plausible_in("10M", SunPhase::Night));
}

#[test]
fn the_greyline_is_open_at_both_ends_of_the_spectrum() {
    for phase in [SunPhase::Dawn, SunPhase::Dusk] {
        assert!(plausible_in("160M", phase), "160m on the grey line");
        assert!(plausible_in("80M", phase));
        assert!(plausible_in("40M", phase));
        assert!(plausible_in("20M", phase));
        assert!(plausible_in("15M", phase));
    }
    assert!(!plausible_in("10M", SunPhase::Dawn));
    assert!(!plausible_in("12M", SunPhase::Dusk));
}

#[test]
fn bands_the_model_does_not_claim_to_understand_are_never_masked() {
    for phase in [SunPhase::Dawn, SunPhase::Day, SunPhase::Dusk, SunPhase::Night] {
        assert!(plausible_in("30M", phase), "30M in {phase:?}");
        assert!(plausible_in("6M", phase), "6M in {phase:?}");
        assert!(plausible_in("2M", phase), "2M in {phase:?}");
        assert!(plausible_in("70CM", phase), "70CM in {phase:?}");
    }
}

#[test]
fn an_unknown_band_is_never_masked() {
    for phase in [SunPhase::Day, SunPhase::Night] {
        assert!(plausible_in("", phase));
        assert!(plausible_in("2200M", phase), "a band the table omits");
        assert!(plausible_in("nonsense", phase));
    }
}

#[test]
fn band_names_are_matched_case_insensitively() {
    assert_eq!(plausible_in("160m", SunPhase::Night), plausible_in("160M", SunPhase::Night));
    assert!(!plausible_in("160m", SunPhase::Day));
}

#[test]
fn every_phased_band_is_a_real_band() {
    let sel = selectable_bands();
    for band in PHASED {
        assert!(sel.contains(&band), "{band} is not in the selectable bands");
    }
}

#[test]
fn no_band_is_masked_in_every_phase() {
    for band in PHASED {
        let open = [SunPhase::Dawn, SunPhase::Day, SunPhase::Dusk, SunPhase::Night]
            .into_iter()
            .filter(|p| plausible_in(band, *p))
            .count();
        assert!(open > 0, "{band} would be masked at every hour");
    }
}

#[test]
fn challenge_bands_are_the_ten_that_score() {
    let ch = challenge_bands();
    assert_eq!(ch.len(), 10);
    for name in &ch {
        assert!(is_real_band(name), "{name} scores for the Challenge but the resolver never emits it");
    }
    for b in ["30M", "17M", "12M"] {
        assert!(is_challenge_band(b), "{b} (WARC) must count");
    }
    for b in ["60M", "4M", "2M", "1.25M", "70CM", "630M", "2190M"] {
        assert!(!is_challenge_band(b), "{b} must NOT count");
    }
}

/// Frequencies in these cases are written in MHz, as operators quote them;
/// the library takes whole hertz.
fn hz(mhz: f64) -> u64 {
    (mhz * 1_000_000.0).round() as u64
}

#[test]
fn known_bands() {
    assert_eq!(band_from_hz(14_074_000), Some("20M"));
    assert_eq!(band_from_hz(7_074_000), Some("40M"));
    assert_eq!(band_from_hz(24_915_000), Some("12M"));
    assert_eq!(band_from_hz(hz(50.313)), Some("6M"));
}

#[test]
fn boundaries_are_inclusive_and_gaps_are_none() {
    assert_eq!(band_from_hz(hz(14.0)), Some("20M"));
    assert_eq!(band_from_hz(hz(14.35)), Some("20M"));
    assert_eq!(band_from_hz(hz(13.999)), None);
    assert_eq!(band_from_hz(hz(2.5)), None);
}

#[test]
fn watering_holes_beat_the_segment_they_sit_in() {
    assert_eq!(mode_from_hz(hz(50.313)), Some("FT8"));
    assert_eq!(mode_from_hz(hz(50.200)), Some("SSB"), "6m phone either side");
    assert_eq!(mode_from_hz(hz(14.074)), Some("FT8"));
    assert_eq!(mode_from_hz(hz(7.0475)), Some("FT4"));
    assert_eq!(mode_from_hz(hz(14.0956)), Some("WSPR"));
}

#[test]
fn hole_tolerance_is_half_a_kilohertz() {
    assert_eq!(mode_from_hz(hz(14.0745)), Some("FT8"), "+500 Hz still FT8");
    assert_eq!(mode_from_hz(hz(14.0735)), Some("FT8"), "-500 Hz still FT8");
    assert_eq!(mode_from_hz(hz(14.0760)), Some("DATA"));
}

#[test]
fn segments_cover_the_common_cases() {
    assert_eq!(mode_from_hz(hz(14.020)), Some("CW"));
    assert_eq!(mode_from_hz(hz(14.200)), Some("SSB"), "the N2WQ-style case");
    assert_eq!(mode_from_hz(hz(7.020)), Some("CW"));
    assert_eq!(mode_from_hz(hz(7.150)), Some("SSB"));
    assert_eq!(mode_from_hz(hz(3.700)), Some("SSB"));
    assert_eq!(mode_from_hz(hz(10.120)), Some("CW"));
    assert_eq!(mode_from_hz(hz(21.300)), Some("SSB"));
    assert_eq!(mode_from_hz(hz(28.500)), Some("SSB"));
}

#[test]
fn uncertain_frequencies_infer_nothing() {
    assert_eq!(mode_from_hz(hz(14.100)), None, "20m beacon window");
    assert_eq!(mode_from_hz(hz(28.250)), None, "10m IBP beacon band");
    assert_eq!(mode_from_hz(hz(5.300)), None, "60m: no segment plan here");
    assert_eq!(mode_from_hz(hz(7.060)), None, "40m gap between the segments");
    assert_eq!(mode_from_hz(hz(432.100)), None, "70cm: not modelled");
    assert_eq!(mode_from_hz(hz(13.999)), None, "not a band at all");
}

#[test]
fn no_phone_is_ever_inferred_on_30m() {
    for f in [10.100, 10.110, 10.130, 10.140, 10.149] {
        assert_ne!(mode_from_hz(hz(f)), Some("SSB"), "{f} MHz");
    }
}

#[test]
fn vucc_bands_start_at_six_metres() {
    assert_eq!(vucc_bands().first(), Some(&"6M"));
    assert!(is_vucc_band("2M"));
    assert!(!is_vucc_band("20M"));
}

//! Frequency → ADIF band name ("20M", "40M", …), mode inference from
//! frequency, and the band lists the rest of the crate reads.
//!
//! Frequencies are whole hertz throughout.

use crate::text::{chars_of, eq_lit, is_one_of, trim, trimmed_chars, upper, upper_vec, views};
use vstd::prelude::*;

verus! {

/// The four phases of a station's day that the band mask works with.
#[derive(Debug, Clone, Copy, PartialEq, Eq, Structural)]
pub enum SunPhase {
    Dawn,
    Day,
    Dusk,
    Night,
}

/// One band: ADIF name and inclusive edges in hertz.
pub open spec fn band_rows() -> Seq<(&'static str, u64, u64)> {
    seq![
        ("2190M", 135_000u64, 138_000u64),
        ("630M", 472_000u64, 479_000u64),
        ("160M", 1_800_000u64, 2_000_000u64),
        ("80M", 3_500_000u64, 4_000_000u64),
        ("60M", 5_250_000u64, 5_450_000u64),
        ("40M", 7_000_000u64, 7_300_000u64),
        ("30M", 10_100_000u64, 10_150_000u64),
        ("20M", 14_000_000u64, 14_350_000u64),
        ("17M", 18_068_000u64, 18_168_000u64),
        ("15M", 21_000_000u64, 21_450_000u64),
        ("12M", 24_890_000u64, 24_990_000u64),
        ("10M", 28_000_000u64, 29_700_000u64),
        ("6M", 50_000_000u64, 54_000_000u64),
        ("4M", 70_000_000u64, 70_500_000u64),
        ("2M", 144_000_000u64, 148_000_000u64),
        ("1.25M", 222_000_000u64, 225_000_000u64),
        ("70CM", 420_000_000u64, 450_000_000u64),
        ("33CM", 902_000_000u64, 928_000_000u64),
        ("23CM", 1_240_000_000u64, 1_300_000_000u64),
    ]
}

/// The band plan: each band's ADIF name with its lower and upper edge in
/// hertz, both inclusive, lowest band first.
pub fn band_table() -> (v: Vec<(&'static str, u64, u64)>)
    ensures
        v@ == band_rows(),
{
    let v = vec![
        ("2190M", 135_000u64, 138_000u64),
        ("630M", 472_000u64, 479_000u64),
        ("160M", 1_800_000u64, 2_000_000u64),
        ("80M", 3_500_000u64, 4_000_000u64),
        ("60M", 5_250_000u64, 5_450_000u64),
        ("40M", 7_000_000u64, 7_300_000u64),
        ("30M", 10_100_000u64, 10_150_000u64),
        ("20M", 14_000_000u64, 14_350_000u64),
        ("17M", 18_068_000u64, 18_168_000u64),
        ("15M", 21_000_000u64, 21_450_000u64),
        ("12M", 24_890_000u64, 24_990_000u64),
        ("10M", 28_000_000u64, 29_700_000u64),
        ("6M", 50_000_000u64, 54_000_000u64),
        ("4M", 70_000_000u64, 70_500_000u64),
        ("2M", 144_000_000u64, 148_000_000u64),
        ("1.25M", 222_000_000u64, 225_000_000u64),
        ("70CM", 420_000_000u64, 450_000_000u64),
        ("33CM", 902_000_000u64, 928_000_000u64),
        ("23CM", 1_240_000_000u64, 1_300_000_000u64),
    ];
    assert(v@ =~= band_rows());
    v
}

/// The name of the first row whose range holds `f`, edges included
/// (`lo_inclusive_hi`), or whose half-open range `[lo, hi)` holds it.
pub open spec fn first_row(rows: Seq<(&'static str, u64, u64)>, f: int, closed: bool) -> Option<
    &'static str,
>
    decreases rows.len(),
{
    if rows.len() == 0 {
        None
    } else if rows[0].1 <= f && (if closed {
        f <= rows[0].2
    } else {
        f < rows[0].2
    }) {
        Some(rows[0].0)
    } else {
        first_row(rows.drop_first(), f, closed)
    }
}

fn find_row(rows: &Vec<(&'static str, u64, u64)>, f: u64, closed: bool) -> (r: Option<
    &'static str,
>)
    ensures
        r == first_row(rows@, f as int, closed),
{
    let mut i: usize = 0;
    assert(rows@.skip(0) =~= rows@);
    while i < rows.len()
        invariant
            i <= rows.len(),
            first_row(rows@, f as int, closed) == first_row(rows@.skip(i as int), f as int, closed),
        decreases rows.len() - i,
    {
        let (name, lo, hi) = rows[i];
        assert(rows@.skip(i as int)[0] == rows@[i as int]);
        if lo <= f && (if closed {
            f <= hi
        } else {
            f < hi
        }) {
            return Some(name);
        }
        assert(rows@.skip(i as int).drop_first() =~= rows@.skip(i + 1));
        i = i + 1;
    }
    None
}

/// The ADIF band holding `freq` hertz; `None` in the gaps between bands.
pub fn band_from_hz(freq: u64) -> (r: Option<&'static str>)
    ensures
        r == first_row(band_rows(), freq as int, true),
{
    let t = band_table();
    assert(t@.skip(0) =~= t@);
    find_row(&t, freq, true)
}

/// The bands offered as filter/alert choices, 160M → 70CM, longest
/// wavelength first. Narrower than the resolver's table on purpose.
pub open spec fn selectable_bands_spec() -> Seq<&'static str> {
    seq!["160M", "80M", "60M", "40M", "30M", "20M", "17M", "15M", "12M", "10M", "6M", "4M", "2M", "1.25M", "70CM"]
}

pub fn selectable_bands() -> (v: Vec<&'static str>)
    ensures
        v@ == selectable_bands_spec(),
{
    let v = vec![
        "160M", "80M", "60M", "40M", "30M", "20M", "17M", "15M", "12M", "10M", "6M", "4M", "2M",
        "1.25M", "70CM",
    ];
    assert(v@ =~= selectable_bands_spec());
    v
}

/// The ten bands that score for the ARRL DXCC Challenge. 60M is not one.
pub open spec fn challenge_bands_spec() -> Seq<&'static str> {
    seq!["160M", "80M", "40M", "30M", "20M", "17M", "15M", "12M", "10M", "6M"]
}

pub fn challenge_bands() -> (v: Vec<&'static str>)
    ensures
        v@ == challenge_bands_spec(),
{
    let v = vec!["160M", "80M", "40M", "30M", "20M", "17M", "15M", "12M", "10M", "6M"];
    assert(v@ =~= challenge_bands_spec());
    v
}

/// The bands VUCC scores grid squares on: 50 MHz and up, in band order.
pub open spec fn vucc_bands_spec() -> Seq<&'static str> {
    seq!["6M", "2M", "1.25M", "70CM", "33CM", "23CM"]
}

pub fn vucc_bands() -> (v: Vec<&'static str>)
    ensures
        v@ == vucc_bands_spec(),
{
    let v = vec!["6M", "2M", "1.25M", "70CM", "33CM", "23CM"];
    assert(v@ =~= vucc_bands_spec());
    v
}

/// Does a band score for the DXCC Challenge? Exact name match.
pub fn is_challenge_band(band: &str) -> (r: bool)
    ensures
        r == views(challenge_bands_spec()).contains(band@),
{
    let b = chars_of(band);
    let list = challenge_bands();
    is_one_of(list.as_slice(), b.as_slice())
}

/// Does a band score for VUCC? Exact name match.
pub fn is_vucc_band(band: &str) -> (r: bool)
    ensures
        r == views(vucc_bands_spec()).contains(band@),
{
    let b = chars_of(band);
    let list = vucc_bands();
    is_one_of(list.as_slice(), b.as_slice())
}

// --- the phase model -------------------------------------------------------

/// Which phases of the day a band is plausibly workable in. A band with no
/// entry (30M, 6M and up, anything unknown) is never masked.
pub open spec fn band_phases(band: Seq<char>) -> Option<Seq<SunPhase>> {
    if band == "160M"@ || band == "80M"@ || band == "60M"@ || band == "40M"@ {
        Some(seq![SunPhase::Night, SunPhase::Dawn, SunPhase::Dusk])
    } else if band == "20M"@ {
        Some(seq![SunPhase::Day, SunPhase::Dawn, SunPhase::Dusk, SunPhase::Night])
    } else if band == "17M"@ || band == "15M"@ {
        Some(seq![SunPhase::Day, SunPhase::Dawn, SunPhase::Dusk])
    } else if band == "12M"@ || band == "10M"@ {
        Some(seq![SunPhase::Day])
    } else {
        None
    }
}

/// Whether a band (already normalised) is open in `phase`; a band the
/// model says nothing about is always open.
pub open spec fn phase_open(band: Seq<char>, phase: SunPhase) -> bool {
    match band_phases(band) {
        Some(ps) => ps.contains(phase),
        None => true,
    }
}

/// The bands the phase model speaks about.
pub open spec fn phased_bands() -> Seq<&'static str> {
    seq!["160M", "80M", "60M", "40M", "20M", "17M", "15M", "12M", "10M"]
}

/// Is `band` plausibly workable during `phase`? The name is trimmed and
/// ASCII-uppercased first; an unknown band fails open (plausible).
pub fn plausible_in(band: &str, phase: SunPhase) -> (r: bool)
    ensures
        r == phase_open(upper(trim(band@)), phase),
{
    let t = trimmed_chars(band);
    let b = upper_vec(t.as_slice());
    let v = b.as_slice();
    if eq_lit(v, "160M") || eq_lit(v, "80M") || eq_lit(v, "60M") || eq_lit(v, "40M") {
        proof {
            let ps = seq![SunPhase::Night, SunPhase::Dawn, SunPhase::Dusk];
            assert(ps[0] == SunPhase::Night && ps[1] == SunPhase::Dawn && ps[2] == SunPhase::Dusk);
        }
        phase != SunPhase::Day
    } else if eq_lit(v, "20M") {
        proof {
            let ps = seq![SunPhase::Day, SunPhase::Dawn, SunPhase::Dusk, SunPhase::Night];
            assert(ps[0] == SunPhase::Day && ps[1] == SunPhase::Dawn && ps[2] == SunPhase::Dusk
                && ps[3] == SunPhase::Night);
        }
        true
    } else if eq_lit(v, "17M") || eq_lit(v, "15M") {
        proof {
            let ps = seq![SunPhase::Day, SunPhase::Dawn, SunPhase::Dusk];
            assert(ps[0] == SunPhase::Day && ps[1] == SunPhase::Dawn && ps[2] == SunPhase::Dusk);
        }
        phase != SunPhase::Night
    } else if eq_lit(v, "12M") || eq_lit(v, "10M") {
        proof {
            let ps = seq![SunPhase::Day];
            assert(ps[0] == SunPhase::Day);
        }
        phase == SunPhase::Day
    } else {
        true
    }
}

/// No band is masked in every phase: each phased band is open in at least
/// one phase of the day.
pub proof fn law_no_band_is_masked_all_day(band: Seq<char>)
    ensures
        exists|p: SunPhase| #[trigger] phase_open(band, p),
{
    match band_phases(band) {
        Some(ps) => {
            assert(ps.contains(ps[0]));
            assert(phase_open(band, ps[0]));
        },
        None => {
            assert(phase_open(band, SunPhase::Day));
        },
    }
}

/// The phase model speaks only of bands the rest of the library emits:
/// every phased band is a selectable band, and a band the model names is
/// one of the phased bands.
pub proof fn law_phased_bands_are_real_bands(band: Seq<char>)
    ensures
        forall|i: int| 0 <= i < phased_bands().len() ==> selectable_bands_spec().contains(#[trigger] phased_bands()[i]),
        band_phases(band) is Some ==> exists|i: int| 0 <= i < phased_bands().len() && #[trigger] phased_bands()[i]@ == band,
{
    let ph = phased_bands();
    let sel = selectable_bands_spec();
    assert(sel[0] == ph[0] && sel[1] == ph[1] && sel[2] == ph[2] && sel[3] == ph[3]);
    assert(sel[5] == ph[4] && sel[6] == ph[5] && sel[7] == ph[6] && sel[8] == ph[7] && sel[9] == ph[8]);
    assert forall|i: int| 0 <= i < ph.len() implies sel.contains(#[trigger] ph[i]) by {
        if i <= 3 {
            assert(sel[i] == ph[i]);
        } else {
            assert(sel[i + 1] == ph[i]);
        }
    }
    if band_phases(band) is Some {
        if band == "160M"@ {
            assert(ph[0]@ == band);
        } else if band == "80M"@ {
            assert(ph[1]@ == band);
        } else if band == "60M"@ {
            assert(ph[2]@ == band);
        } else if band == "40M"@ {
            assert(ph[3]@ == band);
        } else if band == "20M"@ {
            assert(ph[4]@ == band);
        } else if band == "17M"@ {
            assert(ph[5]@ == band);
        } else if band == "15M"@ {
            assert(ph[6]@ == band);
        } else if band == "12M"@ {
            assert(ph[7]@ == band);
        } else {
            assert(ph[8]@ == band);
        }
    }
}

// --- mode inference from frequency ----------------------------------------

/// Digital calling frequencies (dial, hertz), checked before the broad
/// segments because several sit inside a phone segment.
pub open spec fn watering_holes() -> Seq<(u64, &'static str)> {
    seq![
        (1_840_000u64, "FT8"), (3_573_000u64, "FT8"), (7_074_000u64, "FT8"), (10_136_000u64, "FT8"),
        (14_074_000u64, "FT8"), (18_100_000u64, "FT8"), (21_074_000u64, "FT8"), (24_915_000u64, "FT8"),
        (28_074_000u64, "FT8"), (50_313_000u64, "FT8"), (50_323_000u64, "FT8"), (144_174_000u64, "FT8"),
        (3_575_000u64, "FT4"), (7_047_500u64, "FT4"), (10_140_000u64, "FT4"), (14_080_000u64, "FT4"),
        (18_104_000u64, "FT4"), (21_140_000u64, "FT4"), (24_919_000u64, "FT4"), (28_180_000u64, "FT4"),
        (1_842_000u64, "JS8"), (3_578_000u64, "JS8"), (7_078_000u64, "JS8"), (14_078_000u64, "JS8"),
        (21_078_000u64, "JS8"), (24_922_000u64, "JS8"), (28_078_000u64, "JS8"),
        (1_836_600u64, "WSPR"), (3_568_600u64, "WSPR"), (7_038_600u64, "WSPR"), (10_138_700u64, "WSPR"),
        (14_095_600u64, "WSPR"), (18_104_600u64, "WSPR"), (21_094_600u64, "WSPR"), (28_124_600u64, "WSPR"),
    ]
}

fn hole_table() -> (v: Vec<(u64, &'static str)>)
    ensures
        v@ == watering_holes(),
{
    let v = vec![
        (1_840_000u64, "FT8"), (3_573_000u64, "FT8"), (7_074_000u64, "FT8"), (10_136_000u64, "FT8"),
        (14_074_000u64, "FT8"), (18_100_000u64, "FT8"), (21_074_000u64, "FT8"), (24_915_000u64, "FT8"),
        (28_074_000u64, "FT8"), (50_313_000u64, "FT8"), (50_323_000u64, "FT8"), (144_174_000u64, "FT8"),
        (3_575_000u64, "FT4"), (7_047_500u64, "FT4"), (10_140_000u64, "FT4"), (14_080_000u64, "FT4"),
        (18_104_000u64, "FT4"), (21_140_000u64, "FT4"), (24_919_000u64, "FT4"), (28_180_000u64, "FT4"),
        (1_842_000u64, "JS8"), (3_578_000u64, "JS8"), (7_078_000u64, "JS8"), (14_078_000u64, "JS8"),
        (21_078_000u64, "JS8"), (24_922_000u64, "JS8"), (28_078_000u64, "JS8"),
        (1_836_600u64, "WSPR"), (3_568_600u64, "WSPR"), (7_038_600u64, "WSPR"), (10_138_700u64, "WSPR"),
        (14_095_600u64, "WSPR"), (18_104_600u64, "WSPR"), (21_094_600u64, "WSPR"), (28_124_600u64, "WSPR"),
    ];
    assert(v@ =~= watering_holes());
    v
}

/// ±500 Hz around a watering hole still counts as that hole.
pub open spec fn hole_tolerance() -> int {
    500
}

/// The mode of the first hole within tolerance of `f`.
pub open spec fn first_hole(holes: Seq<(u64, &'static str)>, f: int) -> Option<&'static str>
    decreases holes.len(),
{
    if holes.len() == 0 {
        None
    } else if holes[0].0 - hole_tolerance() <= f && f <= holes[0].0 + hole_tolerance() {
        Some(holes[0].1)
    } else {
        first_hole(holes.drop_first(), f)
    }
}

/// Coarse IARU Region 3 segments `[lo, hi)` in hertz, with their mode.
pub open spec fn mode_segments() -> Seq<(&'static str, u64, u64)> {
    seq![
        ("CW", 1_800_000u64, 1_838_000u64), ("DATA", 1_838_000u64, 1_843_000u64),
        ("SSB", 1_843_000u64, 2_000_000u64),
        ("CW", 3_500_000u64, 3_535_000u64), ("DATA", 3_560_000u64, 3_600_000u64),
        ("SSB", 3_600_000u64, 4_000_000u64),
        ("CW", 7_000_000u64, 7_035_000u64), ("DATA", 7_035_000u64, 7_050_000u64),
        ("SSB", 7_080_000u64, 7_300_000u64),
        ("CW", 10_100_000u64, 10_130_000u64), ("DATA", 10_130_000u64, 10_150_000u64),
        ("CW", 14_000_000u64, 14_070_000u64), ("DATA", 14_070_000u64, 14_099_000u64),
        ("DATA", 14_101_000u64, 14_112_000u64), ("SSB", 14_112_000u64, 14_350_000u64),
        ("CW", 18_068_000u64, 18_095_000u64), ("DATA", 18_095_000u64, 18_109_000u64),
        ("SSB", 18_111_000u64, 18_168_000u64),
        ("CW", 21_000_000u64, 21_070_000u64), ("DATA", 21_070_000u64, 21_149_000u64),
        ("SSB", 21_151_000u64, 21_450_000u64),
        ("CW", 24_890_000u64, 24_915_000u64), ("DATA", 24_915_000u64, 24_929_000u64),
        ("SSB", 24_931_000u64, 24_990_000u64),
        ("CW", 28_000_000u64, 28_070_000u64), ("DATA", 28_070_000u64, 28_190_000u64),
        ("SSB", 28_300_000u64, 29_700_000u64),
        ("CW", 50_000_000u64, 50_100_000u64), ("SSB", 50_100_000u64, 50_500_000u64),
        ("CW", 144_000_000u64, 144_150_000u64), ("SSB", 144_150_000u64, 144_500_000u64),
    ]
}

fn segment_table() -> (v: Vec<(&'static str, u64, u64)>)
    ensures
        v@ == mode_segments(),
{
    let v = vec![
        ("CW", 1_800_000u64, 1_838_000u64), ("DATA", 1_838_000u64, 1_843_000u64),
        ("SSB", 1_843_000u64, 2_000_000u64),
        ("CW", 3_500_000u64, 3_535_000u64), ("DATA", 3_560_000u64, 3_600_000u64),
        ("SSB", 3_600_000u64, 4_000_000u64),
        ("CW", 7_000_000u64, 7_035_000u64), ("DATA", 7_035_000u64, 7_050_000u64),
        ("SSB", 7_080_000u64, 7_300_000u64),
        ("CW", 10_100_000u64, 10_130_000u64), ("DATA", 10_130_000u64, 10_150_000u64),
        ("CW", 14_000_000u64, 14_070_000u64), ("DATA", 14_070_000u64, 14_099_000u64),
        ("DATA", 14_101_000u64, 14_112_000u64), ("SSB", 14_112_000u64, 14_350_000u64),
        ("CW", 18_068_000u64, 18_095_000u64), ("DATA", 18_095_000u64, 18_109_000u64),
        ("SSB", 18_111_000u64, 18_168_000u64),
        ("CW", 21_000_000u64, 21_070_000u64), ("DATA", 21_070_000u64, 21_149_000u64),
        ("SSB", 21_151_000u64, 21_450_000u64),
        ("CW", 24_890_000u64, 24_915_000u64), ("DATA", 24_915_000u64, 24_929_000u64),
        ("SSB", 24_931_000u64, 24_990_000u64),
        ("CW", 28_000_000u64, 28_070_000u64), ("DATA", 28_070_000u64, 28_190_000u64),
        ("SSB", 28_300_000u64, 29_700_000u64),
        ("CW", 50_000_000u64, 50_100_000u64), ("SSB", 50_100_000u64, 50_500_000u64),
        ("CW", 144_000_000u64, 144_150_000u64), ("SSB", 144_150_000u64, 144_500_000u64),
    ];
    assert(v@ =~= mode_segments());
    v
}

/// What mode inference answers for `f` hertz: a watering hole within
/// ±500 Hz first, then the segment holding it, else nothing.
pub open spec fn mode_from_hz_spec(f: int) -> Option<&'static str> {
    match first_hole(watering_holes(), f) {
        Some(m) => Some(m),
        None => first_row(mode_segments(), f, false),
    }
}

/// Best guess at the mode of a transmission on `freq` hertz, or `None` when
/// the frequency is in no segment the table is confident about. Always a
/// guess: callers record that it was inferred.
pub fn mode_from_hz(freq: u64) -> (r: Option<&'static str>)
    ensures
        r == mode_from_hz_spec(freq as int),
{
    let holes = hole_table();
    let mut i: usize = 0;
    assert(holes@.skip(0) =~= holes@);
    while i < holes.len()
        invariant
            i <= holes.len(),
            holes@ == watering_holes(),
            first_hole(watering_holes(), freq as int) == first_hole(
                holes@.skip(i as int),
                freq as int,
            ),
        decreases holes.len() - i,
    {
        let (f, m) = holes[i];
        assert(holes@.skip(i as int)[0] == holes@[i as int]);
        if f - 500 <= freq && freq <= f + 500 {
            return Some(m);
        }
        assert(holes@.skip(i as int).drop_first() =~= holes@.skip(i + 1));
        i = i + 1;
    }
    let segs = segment_table();
    assert(segs@.skip(0) =~= segs@);
    find_row(&segs, freq, false)
}

} // verus!

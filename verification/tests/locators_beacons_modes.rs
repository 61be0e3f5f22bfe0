use dxca::beacons::{display_name, has_beacon_suffix, lookup};
use dxca::grid::{grid4, looks_like_grid, parse, GridCenter};
use dxca::modes::{canonical, classes, from_decoder_char, resolve};

fn degrees(c: GridCenter) -> (f64, f64) {
    (c.lat_48ths as f64 / 48.0, c.lon_24ths as f64 / 24.0)
}

fn near(got: f64, want: f64, tol: f64, what: &str) {
    assert!((got - want).abs() <= tol, "{what}: got {got}, want {want}");
}

#[test]
fn known_locators_decode_to_their_published_positions() {
    let (lat, lon) = degrees(parse("JN58TD").expect("JN58TD parses"));
    near(lat, 48.1458, 0.001, "JN58TD latitude");
    near(lon, 11.625, 0.001, "JN58TD longitude");

    let (lat, lon) = degrees(parse("MK82").expect("MK82 parses"));
    near(lat, 12.5, 0.001, "MK82 latitude");
    near(lon, 77.0, 0.001, "MK82 longitude");
    let (lat, lon) = degrees(parse("MK68").expect("MK68 parses"));
    near(lat, 18.5, 0.001, "MK68 latitude");
    near(lon, 73.0, 0.001, "MK68 longitude");

    let (lat, lon) = degrees(parse("AA00").expect("AA00 parses"));
    near(lat, -89.5, 0.001, "AA00 latitude");
    near(lon, -179.0, 0.001, "AA00 longitude");
}

#[test]
fn case_is_irrelevant() {
    assert_eq!(parse("jn58td"), parse("JN58TD"));
    assert_eq!(parse("Jn58Td"), parse("JN58TD"));
    assert_eq!(parse("mk68"), parse("MK68"));
}

#[test]
fn a_subsquare_lies_within_its_square() {
    let (slat, slon) = degrees(parse("JN58").unwrap());
    for sub in ["JN58AA", "JN58TD", "JN58XX", "JN58MM"] {
        let (lat, lon) = degrees(parse(sub).unwrap());
        assert!((lat - slat).abs() <= 0.5, "{sub} latitude escaped JN58");
        assert!((lon - slon).abs() <= 1.0, "{sub} longitude escaped JN58");
    }
}

#[test]
fn malformed_locators_are_refused() {
    for bad in [
        "", "J", "JN5", "JN588", "JN58TDX", "JN58TDXX", "SN58", "JS58", "JNX8", "JN5X", "JN58YD",
        "JN58TY", "12345678", "----", "JN 58",
    ] {
        assert_eq!(parse(bad), None, "{bad:?} must be refused");
    }
}

#[test]
fn surrounding_whitespace_is_tolerated() {
    assert_eq!(parse("  MK68  "), parse("MK68"));
}

#[test]
fn the_centre_is_exact_in_fractional_degrees() {
    assert_eq!(parse("JN58TD"), Some(GridCenter { lat_48ths: 48 * 48 + 7, lon_24ths: 24 * 11 + 15 }));
    assert_eq!(parse("AA00"), Some(GridCenter { lat_48ths: -48 * 90 + 24, lon_24ths: -24 * 180 + 24 }));
}

#[test]
fn grid_shapes_and_squares() {
    assert!(looks_like_grid("FN20"));
    assert!(looks_like_grid("fn20xa"));
    assert!(looks_like_grid("RR73"), "the shape alone allows it");
    assert!(!looks_like_grid("FN2"));
    assert_eq!(grid4("fn20xa").as_deref(), Some("FN20"));
    assert_eq!(grid4("RR73"), None, "a sign-off is not a square");
}

#[test]
fn ncdxf_and_suffix_matching() {
    assert_eq!(display_name("4X6TU").as_deref(), Some("NCDXF Beacon — Tel Aviv, Israel"));
    assert_eq!(display_name("oh2b/b").as_deref(), Some("NCDXF Beacon — Espoo, Finland"));
    assert_eq!(display_name("IT9ATQ/B").as_deref(), Some("Beacon (/B suffix)"));
    assert_eq!(display_name("IT9ATQ/BCN").as_deref(), Some("Beacon (/B suffix)"));
    assert_eq!(display_name("VU2CPL"), None);
    assert!(!has_beacon_suffix("VU2CPL"));
}

#[test]
fn beacon_lookup_strips_the_suffix() {
    assert!(lookup("4U1UN").is_some());
    assert!(lookup("4u1un/b").is_some());
    assert!(lookup("K1ABC").is_none());
}

#[test]
fn wsjtx_mode_characters_become_mode_names() {
    assert_eq!(from_decoder_char("~"), Some("FT8"));
    assert_eq!(from_decoder_char("+"), Some("FT4"));
    assert_eq!(from_decoder_char("#"), Some("JT65"));
    assert_eq!(from_decoder_char("@"), Some("JT9"));
    assert_eq!(from_decoder_char("&"), Some("MSK144"));
}

#[test]
fn names_and_unknown_markers_are_left_alone() {
    assert_eq!(from_decoder_char("FT8"), None, "already a name");
    assert_eq!(from_decoder_char("SSB"), None);
    assert_eq!(from_decoder_char(""), None);
    assert_eq!(from_decoder_char("?"), None, "unmapped marker");
}

#[test]
fn buckets() {
    assert_eq!(canonical("CW"), "CW");
    assert_eq!(canonical("ssb"), "PHONE");
    assert_eq!(canonical("FT8"), "DATA");
    assert_eq!(canonical("FT4"), "DATA");
    assert_eq!(canonical("RTTY"), "DATA");
    assert_eq!(canonical(" ft8 "), "DATA");
    assert_eq!(canonical(""), "DATA");
}

#[test]
fn classes_cover_everything_canonical_can_return() {
    let cls = classes();
    for raw in [
        "CW", "SSB", "USB", "LSB", "AM", "FM", "PHONE", "VOICE", "DIGITALVOICE", "C4FM", "DMR",
        "DSTAR", "FT8", "FT4", "RTTY", "JT65", "MSK144", "", "nonsense",
    ] {
        let c = canonical(raw);
        assert!(cls.contains(&c), "{raw} → {c}, which the classes omit");
    }
}

#[test]
fn a_reported_mode_wins_over_inference() {
    assert_eq!(resolve(" CW ", 14_074_000), ("CW".to_string(), false));
    assert_eq!(resolve("~", 14_200_000), ("~".to_string(), false), "a marker is kept as sent");
    assert_eq!(resolve("", 14_100_000), (String::new(), false), "no reported mode, no guess");
    assert_eq!(resolve("", 14_074_000), ("FT8".to_string(), true));
}

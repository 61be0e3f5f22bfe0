use dxca::flex::{comment_for, sanitize, spot_command as flex_command, FlexSpot, COMMENT_MAX};
use dxca::tci::{delete_command, is_ready, may_dial, PendingDeletions, TciLink, sanitize as tci_sanitize, spot_command, text_for, TciSpot, TEXT_MAX};

fn flex_spot() -> FlexSpot {
    FlexSpot {
        callsign: "3Y0J".into(),
        mode: "FT8".into(),
        comment: "NEW DXCC Bouvet Island".into(),
        spotter: "VU2CPL".into(),
        timestamp_unix: 1_788_077_349,
        color: "0xFFF5636B".into(),
        lifetime_secs: 1200,
    }
}

#[test]
fn the_command_matches_the_working_flow() {
    let c = flex_command(7001, &flex_spot(), "14.0740");
    assert!(c.starts_with("C7001|spot add "), "{c}");
    assert!(c.ends_with('\n'), "the radio needs the newline");
    for part in [
        "rx_freq=14.0740",
        "callsign=3Y0J",
        "mode=FT8",
        "spotter_callsign=VU2CPL",
        "timestamp=1788077349",
        "color=0xFFF5636B",
        "priority=2",
        "lifetime_seconds=1200",
        "source=DXCA",
    ] {
        assert!(c.contains(part), "missing {part} in {c}");
    }
}

#[test]
fn no_value_may_contain_a_space() {
    let c = flex_command(1, &flex_spot(), "14.0740");
    let body = c.trim_end().strip_prefix("C1|spot add ").unwrap();
    for field in body.split(' ') {
        assert!(field.contains('='), "field {field:?} has no '=' — a value leaked a space: {c}");
    }
    assert!(c.contains("comment=NEW_DXCC_Bouvet_Isla"), "{c}");
}

#[test]
fn the_comment_is_clipped_to_twenty_characters() {
    assert_eq!(sanitize("NEW DXCC Bouvet Island", 20).chars().count(), 20);
    let s = sanitize("NEW DXCC Åland Islands", 20);
    assert_eq!(s.chars().count(), 20);
    assert!(s.starts_with("NEW_DXCC_Åland"), "{s}");
}

#[test]
fn runs_of_whitespace_collapse() {
    assert_eq!(sanitize("a   b\tc", 20), "a_b_c");
}

#[test]
fn the_comment_prefers_the_entity_over_the_level() {
    assert_eq!(comment_for("NEW DXCC", Some("Bouvet")), "NEW DXCC Bouvet");
    assert_eq!(comment_for("NEW DXCC", Some("DPRK (NORTH KOREA)")), "DPRK (NORTH KOREA)");
    let s = sanitize(&comment_for("NEW DXCC", Some("DPRK (NORTH KOREA)")), COMMENT_MAX);
    assert_eq!(s, "DPRK_(NORTH_KOREA)");
    assert_eq!(comment_for("NEW DXCC", None), "NEW DXCC");
    assert_eq!(comment_for("NEW DXCC", Some("")), "NEW DXCC");
    let long = comment_for("? Slot", Some("SOUTH SANDWICH ISLANDS"));
    assert_eq!(long, "SOUTH SANDWICH ISLANDS");
    assert_eq!(sanitize(&long, COMMENT_MAX), "SOUTH_SANDWICH_ISLAN");
}

#[test]
fn a_negative_timestamp_keeps_its_sign() {
    let mut s = flex_spot();
    s.timestamp_unix = -5;
    assert!(flex_command(1, &s, "7.0000").contains("timestamp=-5 "));
}

fn spot() -> TciSpot {
    TciSpot {
        callsign: "3Y0J".into(),
        freq_hz: 14_074_000,
        mode: "FT8".into(),
        text: "NEW DXCC Bouvet Island".into(),
        color_argb: 0xFFF5_636B,
        lifetime_secs: 3600,
    }
}

#[test]
fn the_command_matches_the_spec_example() {
    let c = spot_command(&TciSpot {
        callsign: "RN6LHF".into(),
        freq_hz: 7_100_000,
        mode: "CW".into(),
        text: "ANY_TEXT".into(),
        color_argb: 16_711_680,
        lifetime_secs: 0,
    });
    assert_eq!(c, "SPOT:RN6LHF,CW,7100000,16711680,ANY_TEXT;");
}

#[test]
fn no_value_may_contain_a_delimiter() {
    let c = spot_command(&TciSpot { callsign: "3Y0J".into(), text: "AF-045; IOTA: rare, DX".into(), ..spot() });
    let body = c.strip_prefix("SPOT:").and_then(|b| b.strip_suffix(';')).expect("prefix and terminator");
    assert_eq!(body.split(',').count(), 5, "{c}");
    assert!(!body.contains(';'), "{c}");
    assert!(!body.contains(':'), "{c}");
    assert!(c.ends_with("AF-045 IOTA rare DX;"), "{c}");
}

#[test]
fn frequency_is_whole_hertz() {
    let c = spot_command(&spot());
    assert!(c.contains(",14074000,"), "{c}");
}

#[test]
fn colour_is_decimal_argb() {
    let c = spot_command(&spot());
    assert!(c.contains(",4294271851,"), "{c}");
}

#[test]
fn spaces_are_kept() {
    assert_eq!(tci_sanitize("NEW DXCC Bouvet", TEXT_MAX), "NEW DXCC Bouvet");
    assert_eq!(text_for("NEW DXCC", Some("Bouvet Island")), "NEW DXCC Bouvet Island");
    assert_eq!(text_for("NEW DXCC", None), "NEW DXCC");
    assert_eq!(text_for("NEW DXCC", Some("")), "NEW DXCC");
}

#[test]
fn the_text_is_clipped_by_characters() {
    let long = "NEW DXCC Åland Islands and then some more words still";
    let s = tci_sanitize(long, TEXT_MAX);
    assert_eq!(s.chars().count(), TEXT_MAX);
    assert!(s.starts_with("NEW DXCC Åland"), "{s}");
}

#[test]
fn runs_collapse_and_edges_are_clean() {
    assert_eq!(tci_sanitize("a ,; \t b", 40), "a b");
    assert_eq!(tci_sanitize(",,leading", 40), "leading");
    assert_eq!(tci_sanitize("trailing;;", 40), "trailing");
}

#[test]
fn a_deletion_names_the_call() {
    assert_eq!(delete_command("3Y0J"), "SPOT_DELETE:3Y0J;");
    assert_eq!(delete_command("3Y0J;X"), "SPOT_DELETE:3Y0J X;");
}

#[test]
fn one_deadline_per_call_and_overdue_marks_are_let_go() {
    let mut p = PendingDeletions::new();
    p.schedule("3Y0J", 1_000);
    p.schedule("VP8PJ", 500);
    p.schedule("3Y0J", 2_000);
    assert_eq!(p.len(), 2, "a re-spot moves the deadline instead of adding one");
    assert_eq!(p.soonest(), Some(500));
    assert_eq!(p.next_due(600), Some(1));
    assert_eq!(p.callsign_at(1), "VP8PJ");
    p.remove_at(1);
    assert_eq!(p.next_due(600), None);
    assert_eq!(p.next_due(2_000), Some(0));
    p.retain_live(2_000 + 1_800_000, 1_800_000);
    assert!(p.is_empty(), "due a full grace period ago: let go");
}

#[test]
fn a_dark_radio_is_dialled_once_per_interval() {
    assert!(may_dial(None, 0, 30_000));
    assert!(!may_dial(Some(1_000), 30_999, 30_000));
    assert!(may_dial(Some(1_000), 31_000, 30_000));
    let mut link = TciLink::new();
    assert_eq!(link.wait(0), None, "down and owing nothing: block on the queue");
    assert!(!link.begin_pass(0, false), "nothing to send, nothing to dial for");
    assert!(link.begin_pass(0, true));
    link.dialled(false);
    assert!(!link.begin_pass(10_000, true), "too soon after the last attempt");
    assert!(link.begin_pass(30_000, true));
}

#[test]
fn deletions_outlive_the_link_and_pace_the_wait() {
    let mut link = TciLink::new();
    assert!(link.begin_pass(0, true));
    link.dialled(true);
    link.placed("3Y0J", 60, 0, true);
    assert_eq!(link.owes(), 1);
    assert_eq!(link.wait(59_900), Some(100), "the deadline is sooner than the drain");
    assert_eq!(link.wait(1_000), Some(250), "no longer than the drain cadence");
    link.lost();
    assert_eq!(link.owes(), 1, "a dropped link still owes its deletion");
    assert_eq!(link.wait(10_000), Some(20_000), "down: wait for the next permitted dial");
    assert!(link.begin_pass(30_000, false), "a deletion owed is reason enough to redial");
    link.dialled(true);
    assert_eq!(link.next_due(60_000), Some(0));
    assert_eq!(link.callsign_at(0), "3Y0J");
    link.deleted(0, true);
    assert_eq!(link.owes(), 0);
    assert!(link.is_connected());
}

#[test]
fn a_failed_write_takes_the_link_down() {
    let mut link = TciLink::new();
    assert!(link.begin_pass(0, true));
    link.dialled(true);
    link.placed("VP8PJ", 60, 0, false);
    assert!(!link.is_connected());
    assert_eq!(link.owes(), 0, "a spot that never landed owes nothing");
}

#[test]
fn the_radio_is_ready_when_it_says_so_in_any_case() {
    assert!(is_ready("READY;"));
    assert!(is_ready("  ready;\r\n"));
    assert!(is_ready("Ready;"));
    assert!(!is_ready("READY"));
    assert!(!is_ready("protocol:esdr,1.8;"));
}

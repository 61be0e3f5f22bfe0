use dxca::awards::{counts_for_was, find_iota_ref, normalize_iota, normalize_state, StateTable};

#[test]
fn state_normalization() {
    assert_eq!(normalize_state("oh"), Some("OH"));
    assert_eq!(normalize_state(" TX "), Some("TX"));
    assert_eq!(normalize_state("DC"), Some("MD"), "WAS rule 6");
    assert_eq!(normalize_state("PR"), None, "territories don't count");
    assert_eq!(normalize_state("GU"), None);
    assert_eq!(normalize_state(""), None);
    assert_eq!(normalize_state("Ohio"), None);
}

#[test]
fn iota_refs_normalize() {
    assert_eq!(normalize_iota("AS-003").as_deref(), Some("AS-003"));
    assert_eq!(normalize_iota("as-3").as_deref(), Some("AS-003"));
    assert_eq!(normalize_iota("eu-005").as_deref(), Some("EU-005"));
    assert_eq!(normalize_iota("XX-003"), None, "not a continent");
    assert_eq!(normalize_iota("NA-1234"), None, "too many digits");
    assert_eq!(normalize_iota("DATA-15"), None);
    assert_eq!(normalize_iota("AS-"), None);
    assert_eq!(normalize_iota("AS003"), None);
}

#[test]
fn iota_ref_found_in_comment_text() {
    assert_eq!(find_iota_ref("up 2 IOTA as-153 tnx").as_deref(), Some("AS-153"));
    assert_eq!(find_iota_ref("EU-005, SOTA G/LD-001").as_deref(), Some("EU-005"));
    assert_eq!(find_iota_ref("FT8 -12 dB"), None);
    // A CW speed token must not read as a reference.
    assert_eq!(find_iota_ref("25 WPM CQ"), None);
}

#[test]
fn state_table_lookup_walks_the_slash_ladder() {
    // Deliberately unsorted input.
    let t = StateTable::parse("W1AW CT\nK6XYZ CA\nAA0A SD\n".into());
    assert_eq!(t.len(), 3);
    assert_eq!(t.lookup("w1aw"), Some("CT"));
    assert_eq!(t.lookup("W1AW/M"), Some("CT"), "suffix stripped");
    assert_eq!(t.lookup("KH6/K6XYZ"), Some("CA"), "prefix override");
    assert_eq!(t.lookup("G4ABC"), None);
    assert!(StateTable::parse(String::new()).is_empty());
}

#[test]
fn was_counts_the_usa_alaska_and_hawaii_only() {
    assert!(counts_for_was(291));
    assert!(counts_for_was(6));
    assert!(counts_for_was(110));
    assert!(!counts_for_was(1));
    assert!(!counts_for_was(202));
}

#[test]
fn a_sorted_table_is_searched_by_halving_with_the_same_answers() {
    let mut text = String::new();
    for (call, st) in [("AA0A", "SD"), ("K1AA", "MA"), ("K6XYZ", "CA"), ("N0CALL", ""), ("W1AW", "CT"), ("W9ZZ", "TX")] {
        text.push_str(&format!("{call} {st}\n"));
    }
    let t = StateTable::parse(text);
    assert_eq!(t.len(), 6);
    assert_eq!(t.lookup("aa0a"), Some("SD"), "the first line");
    assert_eq!(t.lookup("W9ZZ"), Some("TX"), "the last line");
    assert_eq!(t.lookup("K6XYZ"), Some("CA"));
    assert_eq!(t.lookup("N0CALL"), None, "a line with no state");
    assert_eq!(t.lookup("A1A"), None, "before every call");
    assert_eq!(t.lookup("ZZ9ZZ"), None, "after every call");
    assert_eq!(t.lookup("K5AA"), None, "between two calls");
    assert_eq!(t.lookup("W1AW/4"), Some("CT"), "suffix stripped");
    assert_eq!(t.lookup("KH6/K6XYZ"), Some("CA"), "prefix override");
}

#[test]
fn a_hand_edited_table_out_of_order_still_looks_up() {
    let t = StateTable::parse("W9ZZ TX\nAA0A SD\nK1AA MA\n".into());
    assert_eq!(t.lookup("AA0A"), Some("SD"));
    assert_eq!(t.lookup("K1AA"), Some("MA"));
    assert_eq!(t.lookup("W9ZZ"), Some("TX"));
    assert_eq!(t.lookup("N0CALL"), None);
}

#[test]
fn the_same_lines_in_another_order_answer_alike() {
    let a = StateTable::parse("W1AW CT\nK6XYZ CA\nAA0A SD\nN0CALL MN\n".into());
    let b = StateTable::parse("N0CALL MN\nAA0A SD\nW1AW CT\nK6XYZ CA\n".into());
    assert_eq!(a.len(), 4);
    assert_eq!(b.len(), 4);
    for call in ["W1AW", "k6xyz", "AA0A/P", "N0CALL", "VE3ABC", "KH6/W1AW", ""] {
        assert_eq!(a.lookup(call), b.lookup(call), "{call}");
    }
    assert_eq!(a.lookup("W1AW"), Some("CT"));
    assert_eq!(b.lookup("AA0A"), Some("SD"));
}

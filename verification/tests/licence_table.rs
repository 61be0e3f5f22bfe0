use std::collections::HashSet;

use dxca::awards::StateTable;
use dxca::fcc::{active_licenses, distill, distill_members, MIN_CALLS};

fn en_row(usi: u64, call: &str, state: &str) -> String {
    let mut f = vec![String::new(); 30];
    f[0] = "EN".into();
    f[1] = usi.to_string();
    f[4] = call.into();
    f[17] = state.into();
    f.join("|")
}

#[test]
fn hd_filters_to_active_and_en_distills_sorted() {
    let hd = "HD|100|||W1AA|A|rest\nHD|101|||W2BB|E|rest\nHD|102|||K3CC|A|rest\n";
    let active = active_licenses(hd);
    assert_eq!(active, HashSet::from([100, 102]));

    let en = [
        en_row(102, "K3CC", "PA"),
        en_row(100, "W1AA", "DC"),
        en_row(101, "W2BB", "NY"),
        en_row(100, "KP4XX", "PR"),
    ]
    .join("\n");
    let (table, count) = distill(&en, &active);
    assert_eq!(count, 2);
    assert_eq!(table, "K3CC PA\nW1AA MD\n", "sorted, DC folded");
    let t = StateTable::parse(table);
    assert_eq!(t.lookup("w1aa"), Some("MD"));
}

#[test]
fn a_later_record_replaces_an_earlier_one_and_order_is_by_call() {
    let active = HashSet::from([1, 2, 3, 4]);
    let en = [
        en_row(1, "w9zz", "OH"),
        en_row(2, " K1AA ", "MA"),
        en_row(3, "AA0A", "SD"),
        en_row(4, "W9ZZ", "TX"),
        "EN|5|short".to_string(),
        en_row(9, "N0PE", "CA"),
    ]
    .join("\r\n");
    let (table, count) = distill(&en, &active);
    assert_eq!(count, 3);
    assert_eq!(table, "AA0A SD\nK1AA MA\nW9ZZ TX\n");
}

#[test]
fn records_without_a_numeric_id_or_status_are_ignored() {
    let active = active_licenses("HD|x|||C|A\nHD|7|||C\nHD|+8|||C|A|\n\n");
    assert_eq!(active, HashSet::from([8]));
    assert_eq!(distill("", &active), (String::new(), 0));
}

#[test]
fn a_dump_with_no_active_licence_is_refused() {
    let hd = "HD|100|||W1AA|E|rest\n";
    let en = en_row(100, "W1AA", "CT");
    assert_eq!(
        distill_members(hd, &en),
        Err("FCC HD.dat: no active licenses found — wrong file?".to_string())
    );
}

#[test]
fn a_suspiciously_small_table_is_refused() {
    let hd = "HD|100|||W1AA|A|rest\n";
    let en = en_row(100, "W1AA", "CT");
    assert_eq!(
        distill_members(hd, &en),
        Err("FCC distill: only 1 calls — refusing a suspiciously small table".to_string())
    );
}

#[test]
fn a_full_sized_table_is_accepted() {
    let mut hd = String::new();
    let mut en = String::new();
    for usi in 0..MIN_CALLS as u64 {
        hd.push_str(&format!("HD|{usi}|||W{usi}|A|rest\n"));
        en.push_str(&en_row(usi, &format!("K{usi}"), "TX"));
        en.push('\n');
    }
    let (table, count) = distill_members(&hd, &en).expect("enough calls");
    assert_eq!(count, MIN_CALLS);
    assert!(table.starts_with("K0 TX\nK1 TX\nK10 TX\n"), "sorted by call");
}

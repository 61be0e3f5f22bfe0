//! Known beacons: the NCDXF/IBP rotating network and commonly spotted
//! national beacons, so beacon spots never pass for DX.

use crate::text::{
    chars_of, eq_lit, extend_chars, find, find_char, slice_vec, split_once, string_of, upper,
    upper_vec,
};
use vstd::prelude::*;

verus! {

/// One known beacon.
#[derive(Debug, Clone, Copy, PartialEq, Eq)]
pub struct BeaconInfo {
    pub call: &'static str,
    pub location: &'static str,
    /// `NCDXF` for the rotating IBP network, `None` otherwise.
    pub network: Option<&'static str>,
}

/// The known beacons, in table order.
pub open spec fn beacons_spec() -> Seq<BeaconInfo> {
    seq![
        BeaconInfo { call: "4U1UN", location: "United Nations, New York", network: Some("NCDXF") },
        BeaconInfo { call: "VE8AT", location: "Eureka, Canada", network: Some("NCDXF") },
        BeaconInfo { call: "W6WX", location: "Mt Umunhum, California", network: Some("NCDXF") },
        BeaconInfo { call: "KH6RS", location: "Maui, Hawaii", network: Some("NCDXF") },
        BeaconInfo { call: "KH6WO", location: "Maui, Hawaii", network: Some("NCDXF") },
        BeaconInfo { call: "ZL6B", location: "Masterton, New Zealand", network: Some("NCDXF") },
        BeaconInfo { call: "VK6RBP", location: "Rolystone, Australia", network: Some("NCDXF") },
        BeaconInfo { call: "JA2IGY", location: "Mt Asama, Japan", network: Some("NCDXF") },
        BeaconInfo { call: "RR9O", location: "Novosibirsk, Russia", network: Some("NCDXF") },
        BeaconInfo { call: "VR2B", location: "Hong Kong", network: Some("NCDXF") },
        BeaconInfo { call: "4S7B", location: "Colombo, Sri Lanka", network: Some("NCDXF") },
        BeaconInfo { call: "ZS6DN", location: "Pretoria, South Africa", network: Some("NCDXF") },
        BeaconInfo { call: "5Z4B", location: "Nairobi, Kenya", network: Some("NCDXF") },
        BeaconInfo { call: "4X6TU", location: "Tel Aviv, Israel", network: Some("NCDXF") },
        BeaconInfo { call: "OH2B", location: "Espoo, Finland", network: Some("NCDXF") },
        BeaconInfo { call: "CS3B", location: "Madeira, Portugal", network: Some("NCDXF") },
        BeaconInfo { call: "LU4AA", location: "Buenos Aires, Argentina", network: Some("NCDXF") },
        BeaconInfo { call: "OA4B", location: "Lima, Peru", network: Some("NCDXF") },
        BeaconInfo { call: "YV5B", location: "Caracas, Venezuela", network: Some("NCDXF") },
        BeaconInfo { call: "DK0WCY", location: "Scheggerott, Germany (HF/aurora)", network: None },
        BeaconInfo { call: "ZL2VHM", location: "Mt Climie, New Zealand (50/144MHz)", network: None },
        BeaconInfo { call: "LX0HF", location: "Luxembourg HF beacon", network: None },
        BeaconInfo { call: "LX0FOUR", location: "Luxembourg 4M beacon", network: None },
        BeaconInfo { call: "GB3RAL", location: "Didcot, England (LF beacon)", network: None },
        BeaconInfo { call: "GB3VHF", location: "Wrotham, England (144 MHz)", network: None },
        BeaconInfo { call: "GB3MCB", location: "St Austell, England (50/70MHz)", network: None },
        BeaconInfo { call: "GB3SCS", location: "Sandwich, England (28MHz)", network: None },
        BeaconInfo { call: "OZ7IGY", location: "Tolløse, Denmark (multi-band)", network: None },
        BeaconInfo { call: "OK0EG", location: "Praděd, Czech Republic (50MHz)", network: None },
        BeaconInfo { call: "F5ZCB", location: "Saint-Loubès, France (50MHz)", network: None },
        BeaconInfo { call: "DB0ANN", location: "Nuremberg, Germany (HF beacon)", network: None },
    ]
}

pub fn beacon_table() -> (v: Vec<BeaconInfo>)
    ensures
        v@ == beacons_spec(),
{
    let v = vec![
        BeaconInfo { call: "4U1UN", location: "United Nations, New York", network: Some("NCDXF") },
        BeaconInfo { call: "VE8AT", location: "Eureka, Canada", network: Some("NCDXF") },
        BeaconInfo { call: "W6WX", location: "Mt Umunhum, California", network: Some("NCDXF") },
        BeaconInfo { call: "KH6RS", location: "Maui, Hawaii", network: Some("NCDXF") },
        BeaconInfo { call: "KH6WO", location: "Maui, Hawaii", network: Some("NCDXF") },
        BeaconInfo { call: "ZL6B", location: "Masterton, New Zealand", network: Some("NCDXF") },
        BeaconInfo { call: "VK6RBP", location: "Rolystone, Australia", network: Some("NCDXF") },
        BeaconInfo { call: "JA2IGY", location: "Mt Asama, Japan", network: Some("NCDXF") },
        BeaconInfo { call: "RR9O", location: "Novosibirsk, Russia", network: Some("NCDXF") },
        BeaconInfo { call: "VR2B", location: "Hong Kong", network: Some("NCDXF") },
        BeaconInfo { call: "4S7B", location: "Colombo, Sri Lanka", network: Some("NCDXF") },
        BeaconInfo { call: "ZS6DN", location: "Pretoria, South Africa", network: Some("NCDXF") },
        BeaconInfo { call: "5Z4B", location: "Nairobi, Kenya", network: Some("NCDXF") },
        BeaconInfo { call: "4X6TU", location: "Tel Aviv, Israel", network: Some("NCDXF") },
        BeaconInfo { call: "OH2B", location: "Espoo, Finland", network: Some("NCDXF") },
        BeaconInfo { call: "CS3B", location: "Madeira, Portugal", network: Some("NCDXF") },
        BeaconInfo { call: "LU4AA", location: "Buenos Aires, Argentina", network: Some("NCDXF") },
        BeaconInfo { call: "OA4B", location: "Lima, Peru", network: Some("NCDXF") },
        BeaconInfo { call: "YV5B", location: "Caracas, Venezuela", network: Some("NCDXF") },
        BeaconInfo { call: "DK0WCY", location: "Scheggerott, Germany (HF/aurora)", network: None },
        BeaconInfo { call: "ZL2VHM", location: "Mt Climie, New Zealand (50/144MHz)", network: None },
        BeaconInfo { call: "LX0HF", location: "Luxembourg HF beacon", network: None },
        BeaconInfo { call: "LX0FOUR", location: "Luxembourg 4M beacon", network: None },
        BeaconInfo { call: "GB3RAL", location: "Didcot, England (LF beacon)", network: None },
        BeaconInfo { call: "GB3VHF", location: "Wrotham, England (144 MHz)", network: None },
        BeaconInfo { call: "GB3MCB", location: "St Austell, England (50/70MHz)", network: None },
        BeaconInfo { call: "GB3SCS", location: "Sandwich, England (28MHz)", network: None },
        BeaconInfo { call: "OZ7IGY", location: "Tolløse, Denmark (multi-band)", network: None },
        BeaconInfo { call: "OK0EG", location: "Praděd, Czech Republic (50MHz)", network: None },
        BeaconInfo { call: "F5ZCB", location: "Saint-Loubès, France (50MHz)", network: None },
        BeaconInfo { call: "DB0ANN", location: "Nuremberg, Germany (HF beacon)", network: None },
    ];
    assert(v@ =~= beacons_spec());
    v
}

/// The first beacon in the table whose call is `bare`.
pub open spec fn first_beacon(t: Seq<BeaconInfo>, bare: Seq<char>) -> Option<BeaconInfo>
    decreases t.len(),
{
    if t.len() == 0 {
        None
    } else if t[0].call@ == bare {
        Some(t[0])
    } else {
        first_beacon(t.drop_first(), bare)
    }
}

/// The part of a call before its first `/`, ASCII-uppercased.
pub open spec fn bare_call(call: Seq<char>) -> Seq<char> {
    let u = upper(call);
    u.take(find(u, '/'))
}

/// The beacon a callsign belongs to (any `/` suffix stripped, case
/// ignored); `None` if it is not a known beacon.
pub fn lookup(call: &str) -> (r: Option<BeaconInfo>)
    ensures
        r == first_beacon(beacons_spec(), bare_call(call@)),
{
    let u = upper_vec(chars_of(call).as_slice());
    let slash = find_char(u.as_slice(), 0, u.len(), '/');
    assert(u@.subrange(0, u.len() as int) =~= u@);
    let bare = slice_vec(u.as_slice(), 0, slash);
    assert(bare@ =~= u@.take(slash as int));
    let table = beacon_table();
    let mut i: usize = 0;
    assert(beacons_spec().skip(0) =~= beacons_spec());
    while i < table.len()
        invariant
            i <= table@.len(),
            table@ == beacons_spec(),
            bare@ == bare_call(call@),
            first_beacon(beacons_spec(), bare@) == first_beacon(beacons_spec().skip(i as int), bare@),
        decreases table@.len() - i,
    {
        assert(beacons_spec().skip(i as int).drop_first() =~= beacons_spec().skip(i + 1));
        assert(beacons_spec().skip(i as int)[0] == table@[i as int]);
        if eq_lit(bare.as_slice(), table[i].call) {
            return Some(table[i]);
        }
        i = i + 1;
    }
    None
}

/// Whether the call ends in the `/B` or `/BCN` beacon suffix (the part
/// after the first `/`, case ignored).
pub open spec fn beacon_suffix_spec(call: Seq<char>) -> bool {
    match split_once(upper(call), '/') {
        Some((_, suffix)) => suffix == "B"@ || suffix == "BCN"@,
        None => false,
    }
}

/// True for the `/B` and `/BCN` suffix convention (e.g. `IT9ATQ/B`).
pub fn has_beacon_suffix(call: &str) -> (r: bool)
    ensures
        r == beacon_suffix_spec(call@),
{
    let u = upper_vec(chars_of(call).as_slice());
    let slash = find_char(u.as_slice(), 0, u.len(), '/');
    assert(u@.subrange(0, u.len() as int) =~= u@);
    if slash >= u.len() {
        return false;
    }
    let suffix = slice_vec(u.as_slice(), slash + 1, u.len());
    assert(suffix@ =~= u@.skip(slash + 1));
    eq_lit(suffix.as_slice(), "B") || eq_lit(suffix.as_slice(), "BCN")
}

/// The label a known beacon is shown with.
pub open spec fn beacon_label(b: BeaconInfo) -> Seq<char> {
    match b.network {
        Some(net) => net@ + " Beacon \u{2014} "@ + b.location@,
        None => "Beacon \u{2014} "@ + b.location@,
    }
}

/// Human label for a beacon spot, or `None` if the call is not beacon-like.
pub open spec fn display_name_spec(call: Seq<char>) -> Option<Seq<char>> {
    match first_beacon(beacons_spec(), bare_call(call)) {
        Some(b) => Some(beacon_label(b)),
        None => if beacon_suffix_spec(call) {
            Some("Beacon (/B suffix)"@)
        } else {
            None
        },
    }
}

pub fn display_name(call: &str) -> (r: Option<String>)
    ensures
        match r {
            Some(s) => display_name_spec(call@) == Some(s@),
            None => display_name_spec(call@) is None,
        },
{
    if let Some(info) = lookup(call) {
        let mut out: Vec<char> = Vec::new();
        match info.network {
            Some(net) => {
                extend_chars(&mut out, chars_of(net).as_slice());
                extend_chars(&mut out, chars_of(" Beacon \u{2014} ").as_slice());
            },
            None => {
                extend_chars(&mut out, chars_of("Beacon \u{2014} ").as_slice());
            },
        }
        extend_chars(&mut out, chars_of(info.location).as_slice());
        return Some(string_of(out.as_slice()));
    }
    if has_beacon_suffix(call) {
        return Some("Beacon (/B suffix)".to_owned());
    }
    None
}

} // verus!

//! Maidenhead locators: their shape, the four-character square a locator
//! names, and the centre of that square.
//!
//! Positions are exact: latitude in 1/48 degree and longitude in 1/24
//! degree, the finest steps a six-character locator's centre needs.

use crate::text::{chars_of, is_digit, is_digit_char, trim, trim_vec, upper, upper_char, upper_vec};
use vstd::prelude::*;

verus! {

/// `c` (case-insensitive) is a letter from `A` to `max`.
pub open spec fn letter_upto(c: char, max: char) -> bool {
    'A' <= upper_char(c) && upper_char(c) <= max
}

/// 0-based position of a letter, case-insensitive.
pub open spec fn letter_index(c: char) -> int {
    (upper_char(c) as u32) - ('A' as u32)
}

/// Maidenhead shape: two field letters `A–R`, two digits, optionally two
/// subsquare letters `A–X`.
pub open spec fn grid_shape(s: Seq<char>) -> bool {
    (s.len() == 4 || s.len() == 6) && letter_upto(s[0], 'R') && letter_upto(s[1], 'R') && is_digit(
        s[2],
    ) && is_digit(s[3]) && (s.len() == 4 || (letter_upto(s[4], 'X') && letter_upto(s[5], 'X')))
}

fn letter_ok(c: char, max: char) -> (r: bool)
    ensures
        r == letter_upto(c, max),
{
    let u = crate::text::ascii_upper_char(c);
    'A' <= u && u <= max
}

/// Whether `t` is shaped like a Maidenhead locator (4 or 6 characters).
pub fn looks_like_grid(t: &str) -> (r: bool)
    ensures
        r == grid_shape(t@),
{
    let b = chars_of(t);
    shape_ok(b.as_slice())
}

pub(crate) fn shape_ok(b: &[char]) -> (r: bool)
    ensures
        r == grid_shape(b@),
{
    if b.len() != 4 && b.len() != 6 {
        return false;
    }
    letter_ok(b[0], 'R') && letter_ok(b[1], 'R') && is_digit_char(b[2]) && is_digit_char(b[3]) && (
    b.len() == 4 || (letter_ok(b[4], 'X') && letter_ok(b[5], 'X')))
}

/// The four-character square a locator names, uppercased: the trimmed
/// text must be locator-shaped and must not be `RR73`, the FT8 sign-off
/// that happens to have a locator's shape.
pub open spec fn grid4_spec(locator: Seq<char>) -> Option<Seq<char>> {
    let t = trim(locator);
    if grid_shape(t) && upper(t) != "RR73"@ {
        Some(upper(t.take(4)))
    } else {
        None
    }
}

/// The 4-character square of a 4- or 6-character locator.
pub fn grid4(locator: &str) -> (r: Option<String>)
    ensures
        match r {
            Some(g) => grid4_spec(locator@) == Some(g@),
            None => grid4_spec(locator@) is None,
        },
{
    let v = chars_of(locator);
    let t = trim_vec(v.as_slice());
    if !shape_ok(t.as_slice()) {
        return None;
    }
    let up = upper_vec(t.as_slice());
    proof {
        reveal_strlit("RR73");
    }
    if crate::text::eq_lit(up.as_slice(), "RR73") {
        return None;
    }
    let head = crate::text::slice_vec(up.as_slice(), 0, 4);
    assert(head@ =~= upper(t@.take(4)));
    Some(crate::text::string_of(head.as_slice()))
}

/// The centre of a locator's square: latitude in 1/48 degree, longitude
/// in 1/24 degree, north and east positive.
#[derive(Debug, Clone, Copy, PartialEq, Eq)]
pub struct GridCenter {
    pub lat_48ths: i32,
    pub lon_24ths: i32,
}

/// Latitude (in 1/48 degree) and longitude (in 1/24 degree) of the centre
/// of a locator's square.
pub open spec fn center_spec(s: Seq<char>) -> (int, int) {
    let lon_deg = -180 + 20 * letter_index(s[0]) + 2 * ((s[2] as u32) - ('0' as u32));
    let lat_deg = -90 + 10 * letter_index(s[1]) + ((s[3] as u32) - ('0' as u32));
    if s.len() == 6 {
        (48 * lat_deg + 2 * letter_index(s[5]) + 1, 24 * lon_deg + 2 * letter_index(s[4]) + 1)
    } else {
        (48 * lat_deg + 24, 24 * lon_deg + 24)
    }
}

/// A six-character locator's subsquare lies within its four-character
/// square: its centre is less than half a square (one degree of longitude,
/// half a degree of latitude) from the square's centre.
pub proof fn law_a_subsquare_lies_within_its_square(s: Seq<char>)
    requires
        grid_shape(s),
        s.len() == 6,
    ensures
        center_spec(s.take(4)).0 - 24 <= center_spec(s).0 < center_spec(s.take(4)).0 + 24,
        center_spec(s.take(4)).1 - 24 <= center_spec(s).1 < center_spec(s.take(4)).1 + 24,
{
    let t = s.take(4);
    assert(t[0] == s[0] && t[1] == s[1] && t[2] == s[2] && t[3] == s[3]);
    assert(0 <= letter_index(s[4]) <= 23);
    assert(0 <= letter_index(s[5]) <= 23);
}

/// The centre of a 4- or 6-character locator's square (case and
/// surrounding whitespace ignored); `None` for anything malformed,
/// 8-character locators included.
pub fn parse(locator: &str) -> (r: Option<GridCenter>)
    ensures
        match r {
            Some(c) => grid_shape(trim(locator@)) && center_spec(trim(locator@)) == (
                c.lat_48ths as int,
                c.lon_24ths as int,
            ),
            None => !grid_shape(trim(locator@)),
        },
{
    let v = chars_of(locator);
    let s = trim_vec(v.as_slice());
    if !shape_ok(s.as_slice()) {
        return None;
    }
    let fl = (crate::text::ascii_upper_char(s[0]) as u32 - 'A' as u32) as i32;
    let fa = (crate::text::ascii_upper_char(s[1]) as u32 - 'A' as u32) as i32;
    let sl = (s[2] as u32 - '0' as u32) as i32;
    let sa = (s[3] as u32 - '0' as u32) as i32;
    let lon_deg = -180 + 20 * fl + 2 * sl;
    let lat_deg = -90 + 10 * fa + sa;
    if s.len() == 6 {
        let ul = (crate::text::ascii_upper_char(s[4]) as u32 - 'A' as u32) as i32;
        let ua = (crate::text::ascii_upper_char(s[5]) as u32 - 'A' as u32) as i32;
        Some(GridCenter { lat_48ths: 48 * lat_deg + 2 * ua + 1, lon_24ths: 24 * lon_deg + 2 * ul + 1 })
    } else {
        Some(GridCenter { lat_48ths: 48 * lat_deg + 24, lon_24ths: 24 * lon_deg + 24 })
    }
}

} // verus!

//! The check applied to a downloaded LoTW QSL report: LoTW answers a bad
//! login with an HTML page and HTTP 200, so the body itself has to look
//! like ADIF.

use crate::text::{chars_of, contains_seq, string_of_range, to_lower, unicode_lower, vec_contains};
use vstd::prelude::*;

verus! {

/// How much of the body is examined, in characters.
pub const HEAD_CHARS: usize = 2048;

/// The first `HEAD_CHARS` characters of a body, lowercased.
pub open spec fn report_head(body: Seq<char>) -> Seq<char> {
    unicode_lower(body.take(if body.len() < HEAD_CHARS { body.len() as int } else { HEAD_CHARS as int }))
}

/// Why a report body was refused.
pub open spec fn login_refused_text() -> Seq<char> {
    "LoTW rejected the login — check the LoTW username and password"@
}

pub open spec fn not_adif_text() -> Seq<char> {
    "LoTW report: response is not ADIF"@
}

/// Accept a report body that looks like ADIF: refused when its head holds
/// an HTML page (`<html` or `<!doctype`), or holds neither `<eoh>` nor
/// `<app_lotw`; case is ignored.
pub fn validate(body: &str) -> (r: Result<(), String>)
    ensures
        ({
            let h = report_head(body@);
            match r {
                Ok(()) => !contains_seq(h, "<html"@) && !contains_seq(h, "<!doctype"@) && (
                contains_seq(h, "<eoh>"@) || contains_seq(h, "<app_lotw"@)),
                Err(e) => if contains_seq(h, "<html"@) || contains_seq(h, "<!doctype"@) {
                    e@ == login_refused_text()
                } else {
                    e@ == not_adif_text() && !contains_seq(h, "<eoh>"@) && !contains_seq(h, "<app_lotw"@)
                },
            }
        }),
{
    let v = chars_of(body);
    let n = if v.len() < HEAD_CHARS { v.len() } else { HEAD_CHARS };
    let head_text = string_of_range(v.as_slice(), 0, n);
    assert(v@.subrange(0, n as int) =~= v@.take(n as int));
    let lowered = to_lower(head_text.as_str());
    let h = chars_of(lowered.as_str());
    let html = chars_of("<html");
    let doctype = chars_of("<!doctype");
    let eoh = chars_of("<eoh>");
    let app = chars_of("<app_lotw");
    if vec_contains(h.as_slice(), html.as_slice()) || vec_contains(h.as_slice(), doctype.as_slice()) {
        let msg = "LoTW rejected the login — check the LoTW username and password";
        return Err(msg.to_owned());
    }
    if !vec_contains(h.as_slice(), eoh.as_slice()) && !vec_contains(h.as_slice(), app.as_slice()) {
        let msg = "LoTW report: response is not ADIF";
        return Err(msg.to_owned());
    }
    Ok(())
}

} // verus!

//! ClubLog request building and response decoding: the endpoint bases,
//! the URL and form encoding of the credentials, and the gzip detection
//! applied to both downloads. The HTTP requests themselves are made by the
//! application.

use crate::spot::strip_trail;
use crate::text::{chars_of, extend_chars, string_of, string_of_range};
use vstd::prelude::*;

verus! {

/// The two ClubLog endpoint bases, overridable to point at a test server.
pub struct Endpoints {
    pub cty_base: String,
    pub adif_base: String,
}

impl Default for Endpoints {
    fn default() -> (e: Endpoints)
        ensures
            e.cty_base@ == "https://cdn.clublog.org"@,
            e.adif_base@ == "https://clublog.org"@,
    {
        let c = "https://cdn.clublog.org";
        let a = "https://clublog.org";
        Endpoints { cty_base: c.to_owned(), adif_base: a.to_owned() }
    }
}

/// `s` without its trailing slashes, as a new string.
fn without_trailing_slashes(s: &str) -> (r: String)
    ensures
        r@ == strip_trail(s@, '/'),
{
    let v = chars_of(s);
    let mut n: usize = v.len();
    assert(v@.take(n as int) =~= v@);
    while n > 0 && v[n - 1] == '/'
        invariant
            n <= v.len(),
            strip_trail(v@, '/') == strip_trail(v@.take(n as int), '/'),
        decreases n,
    {
        assert(v@.take(n as int).drop_last() =~= v@.take(n - 1));
        n = n - 1;
    }
    assert(v@.subrange(0, n as int) =~= v@.take(n as int));
    string_of_range(v.as_slice(), 0, n)
}

impl Endpoints {
    /// Both endpoints at one base, trailing slashes removed.
    pub fn single_base(base: &str) -> (e: Endpoints)
        ensures
            e.cty_base@ == strip_trail(base@, '/'),
            e.adif_base@ == strip_trail(base@, '/'),
    {
        Endpoints { cty_base: without_trailing_slashes(base), adif_base: without_trailing_slashes(base) }
    }
}

// --- URL encoding ------------------------------------------------------------

/// The UTF-8 encoding of one character.
pub open spec fn utf8_of(c: char) -> Seq<u8> {
    let n = c as u32 as int;
    if n < 0x80 {
        seq![n as u8]
    } else if n < 0x800 {
        seq![(0xC0 + n / 64) as u8, (0x80 + n % 64) as u8]
    } else if n < 0x10000 {
        seq![(0xE0 + n / 4096) as u8, (0x80 + (n / 64) % 64) as u8, (0x80 + n % 64) as u8]
    } else {
        seq![
            (0xF0 + n / 262144) as u8,
            (0x80 + (n / 4096) % 64) as u8,
            (0x80 + (n / 64) % 64) as u8,
            (0x80 + n % 64) as u8,
        ]
    }
}

/// Characters passed through unencoded: ASCII letters, digits and `-_.~`.
pub open spec fn unreserved(c: char) -> bool {
    ('A' <= c <= 'Z') || ('a' <= c <= 'z') || ('0' <= c <= '9') || c == '-' || c == '_' || c == '.'
        || c == '~'
}

/// An upper-case hexadecimal digit.
pub open spec fn hex_digit(d: int) -> char {
    if d < 10 {
        (('0' as u32) + d) as char
    } else {
        (('A' as u32) + d - 10) as char
    }
}

/// `%XX` for each byte.
pub open spec fn percent_bytes(b: Seq<u8>) -> Seq<char>
    decreases b.len(),
{
    if b.len() == 0 {
        Seq::empty()
    } else {
        percent_bytes(b.drop_last()) + seq!['%', hex_digit((b.last() / 16) as int), hex_digit((b.last() % 16) as int)]
    }
}

/// Percent-encoding of `s`: unreserved characters as they are, every byte
/// of every other character's UTF-8 encoding as `%XX`.
pub open spec fn url_encode(s: Seq<char>) -> Seq<char>
    decreases s.len(),
{
    if s.len() == 0 {
        Seq::empty()
    } else {
        url_encode(s.drop_last()) + if unreserved(s.last()) {
            seq![s.last()]
        } else {
            percent_bytes(utf8_of(s.last()))
        }
    }
}

fn utf8_bytes(c: char) -> (r: Vec<u8>)
    ensures
        r@ == utf8_of(c),
{
    let n: u32 = c as u32;
    if n < 0x80 {
        vec![n as u8]
    } else if n < 0x800 {
        vec![(0xC0 + n / 64) as u8, (0x80 + n % 64) as u8]
    } else if n < 0x10000 {
        vec![(0xE0 + n / 4096) as u8, (0x80 + (n / 64) % 64) as u8, (0x80 + n % 64) as u8]
    } else {
        assert(n <= 0x10FFFF);
        vec![
            (0xF0 + n / 262144) as u8,
            (0x80 + (n / 4096) % 64) as u8,
            (0x80 + (n / 64) % 64) as u8,
            (0x80 + n % 64) as u8,
        ]
    }
}

fn hex_char(d: u8) -> (c: char)
    requires
        d < 16,
    ensures
        c == hex_digit(d as int),
{
    if d < 10 {
        (('0' as u8) + d) as char
    } else {
        (('A' as u8) + d - 10) as char
    }
}

fn push_percent(out: &mut Vec<char>, b: &Vec<u8>)
    ensures
        final(out)@ == old(out)@ + percent_bytes(b@),
{
    let mut i: usize = 0;
    assert(b@.take(0) =~= Seq::<u8>::empty());
    assert(old(out)@ + percent_bytes(Seq::<u8>::empty()) =~= old(out)@);
    while i < b.len()
        invariant
            i <= b.len(),
            out@ == old(out)@ + percent_bytes(b@.take(i as int)),
        decreases b.len() - i,
    {
        assert(b@.take(i + 1).drop_last() =~= b@.take(i as int));
        let x = b[i];
        out.push('%');
        out.push(hex_char(x / 16));
        out.push(hex_char(x % 16));
        assert(out@ =~= old(out)@ + percent_bytes(b@.take(i + 1)));
        i = i + 1;
    }
    assert(b@.take(b.len() as int) =~= b@);
}

fn push_encoded(out: &mut Vec<char>, s: &str)
    ensures
        final(out)@ == old(out)@ + url_encode(s@),
{
    let v = chars_of(s);
    let mut i: usize = 0;
    assert(old(out)@ + url_encode(v@.take(0)) =~= old(out)@);
    while i < v.len()
        invariant
            i <= v.len(),
            out@ == old(out)@ + url_encode(v@.take(i as int)),
        decreases v.len() - i,
    {
        assert(v@.take(i + 1).drop_last() =~= v@.take(i as int));
        let c = v[i];
        if ('A' <= c && c <= 'Z') || ('a' <= c && c <= 'z') || ('0' <= c && c <= '9') || c == '-' || c
            == '_' || c == '.' || c == '~' {
            out.push(c);
        } else {
            let b = utf8_bytes(c);
            push_percent(out, &b);
        }
        assert(out@ =~= old(out)@ + url_encode(v@.take(i + 1)));
        i = i + 1;
    }
    assert(v@.take(v.len() as int) =~= v@);
}

/// Percent-encode a form or query value.
pub fn urlencode(s: &str) -> (r: String)
    ensures
        r@ == url_encode(s@),
{
    let mut out: Vec<char> = Vec::new();
    push_encoded(&mut out, s);
    string_of(out.as_slice())
}

/// The cty.xml download address for an API key.
pub fn cty_url(ep: &Endpoints, api_key: &str) -> (r: String)
    ensures
        r@ == ep.cty_base@ + "/cty.php?api="@ + url_encode(api_key@),
{
    let mut out = chars_of(ep.cty_base.as_str());
    extend_chars(&mut out, chars_of("/cty.php?api=").as_slice());
    push_encoded(&mut out, api_key);
    string_of(out.as_slice())
}

/// The ADIF log download address.
pub fn adif_url(ep: &Endpoints) -> (r: String)
    ensures
        r@ == ep.adif_base@ + "/getadif.php"@,
{
    let mut out = chars_of(ep.adif_base.as_str());
    extend_chars(&mut out, chars_of("/getadif.php").as_slice());
    string_of(out.as_slice())
}

/// The form body of the ADIF log request.
pub fn adif_form(callsign: &str, email: &str, password: &str) -> (r: String)
    ensures
        r@ == "email="@ + url_encode(email@) + "&password="@ + url_encode(password@) + "&call="@
            + url_encode(callsign@),
{
    let mut out = chars_of("email=");
    push_encoded(&mut out, email);
    extend_chars(&mut out, chars_of("&password=").as_slice());
    push_encoded(&mut out, password);
    extend_chars(&mut out, chars_of("&call=").as_slice());
    push_encoded(&mut out, callsign);
    string_of(out.as_slice())
}

// --- gzip ----------------------------------------------------------------------

/// What flate2's `read::GzDecoder` yields for `data` read to the end: the
/// decompressed first gzip member, or `None` when reading fails.
pub uninterp spec fn gunzip_result(data: Seq<u8>) -> Option<Seq<u8>>;

/// Reads `flate2::read::GzDecoder` over `data` to the end. The result is
/// the decoder's output, named by `gunzip_result`; the text of the error is
/// not stated.
#[verifier::external_body]
fn gunzip(data: &[u8]) -> (r: Result<Vec<u8>, String>)
    ensures
        match r {
            Ok(v) => gunzip_result(data@) == Some(v@),
            Err(_) => gunzip_result(data@) is None,
        },
{
    let mut out = Vec::new();
    match std::io::Read::read_to_end(&mut flate2::read::GzDecoder::new(data), &mut out) {
        Ok(_) => Ok(out),
        Err(e) => Err(format!("gunzip: {e}")),
    }
}

/// Does a body start with the gzip magic bytes `1f 8b`?
pub open spec fn is_gzip(b: Seq<u8>) -> bool {
    b.len() >= 2 && b[0] == 0x1f && b[1] == 0x8b
}

/// A download body, decompressed when it starts with the gzip magic and
/// passed through unchanged otherwise.
pub fn gunzip_if_needed(bytes: Vec<u8>) -> (r: Result<Vec<u8>, String>)
    ensures
        is_gzip(bytes@) ==> match r {
            Ok(v) => gunzip_result(bytes@) == Some(v@),
            Err(_) => gunzip_result(bytes@) is None,
        },
        !is_gzip(bytes@) ==> (r matches Ok(v) && v@ == bytes@),
{
    if bytes.len() >= 2 && bytes[0] == 0x1f && bytes[1] == 0x8b {
        return gunzip(bytes.as_slice());
    }
    Ok(bytes)
}

} // verus!

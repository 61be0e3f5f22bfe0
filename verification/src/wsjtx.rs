//! WSJT-X binary UDP codec (Qt QDataStream): big-endian integers, strings
//! as a `u32` byte count and UTF-8 bytes (`0xFFFF_FFFF` is the null
//! string, read as empty), and a magic / schema / type header.
//!
//! Parsing is permissive: only the fields every emitter sends are
//! required; the rest default. Undecodable UTF-8 reads as an empty string
//! (its bytes still consumed), and an unknown message type fails the
//! parse. A decode's time offset is carried as the raw bits of its IEEE
//! double.

use vstd::prelude::*;
use vstd::utf8::{decode_utf8, encode_utf8, valid_utf8};

verus! {

/// First field of every WSJT-X datagram.
pub const MAGIC: u32 = 0xADBC_CBDA;

/// Schema the builder emits (WSJT-X 2.x baseline).
pub const SCHEMA_VERSION: u32 = 2;

/// The message types of the protocol.
#[derive(Debug, Clone, Copy, PartialEq, Eq, Structural)]
pub enum MessageType {
    Heartbeat,
    Status,
    Decode,
    Clear,
    Reply,
    QsoLogged,
    Close,
    Replay,
    HaltTx,
    FreeText,
    Wspr,
    Location,
    LoggedAdif,
    HighlightCallsign,
    SwitchConfig,
    Configure,
}

/// The wire code of each message type, 0 to 15 in declaration order.
pub open spec fn type_code(t: MessageType) -> u32 {
    match t {
        MessageType::Heartbeat => 0,
        MessageType::Status => 1,
        MessageType::Decode => 2,
        MessageType::Clear => 3,
        MessageType::Reply => 4,
        MessageType::QsoLogged => 5,
        MessageType::Close => 6,
        MessageType::Replay => 7,
        MessageType::HaltTx => 8,
        MessageType::FreeText => 9,
        MessageType::Wspr => 10,
        MessageType::Location => 11,
        MessageType::LoggedAdif => 12,
        MessageType::HighlightCallsign => 13,
        MessageType::SwitchConfig => 14,
        MessageType::Configure => 15,
    }
}

pub open spec fn type_of_code(raw: u32) -> Option<MessageType> {
    if raw == 0 {
        Some(MessageType::Heartbeat)
    } else if raw == 1 {
        Some(MessageType::Status)
    } else if raw == 2 {
        Some(MessageType::Decode)
    } else if raw == 3 {
        Some(MessageType::Clear)
    } else if raw == 4 {
        Some(MessageType::Reply)
    } else if raw == 5 {
        Some(MessageType::QsoLogged)
    } else if raw == 6 {
        Some(MessageType::Close)
    } else if raw == 7 {
        Some(MessageType::Replay)
    } else if raw == 8 {
        Some(MessageType::HaltTx)
    } else if raw == 9 {
        Some(MessageType::FreeText)
    } else if raw == 10 {
        Some(MessageType::Wspr)
    } else if raw == 11 {
        Some(MessageType::Location)
    } else if raw == 12 {
        Some(MessageType::LoggedAdif)
    } else if raw == 13 {
        Some(MessageType::HighlightCallsign)
    } else if raw == 14 {
        Some(MessageType::SwitchConfig)
    } else if raw == 15 {
        Some(MessageType::Configure)
    } else {
        None
    }
}

impl MessageType {
    /// The type with wire code `raw`, if any.
    pub fn from_raw(raw: u32) -> (r: Option<MessageType>)
        ensures
            r == type_of_code(raw),
    {
        match raw {
            0 => Some(MessageType::Heartbeat),
            1 => Some(MessageType::Status),
            2 => Some(MessageType::Decode),
            3 => Some(MessageType::Clear),
            4 => Some(MessageType::Reply),
            5 => Some(MessageType::QsoLogged),
            6 => Some(MessageType::Close),
            7 => Some(MessageType::Replay),
            8 => Some(MessageType::HaltTx),
            9 => Some(MessageType::FreeText),
            10 => Some(MessageType::Wspr),
            11 => Some(MessageType::Location),
            12 => Some(MessageType::LoggedAdif),
            13 => Some(MessageType::HighlightCallsign),
            14 => Some(MessageType::SwitchConfig),
            15 => Some(MessageType::Configure),
            _ => None,
        }
    }

    /// The wire code of this type.
    pub fn code(self) -> (r: u32)
        ensures
            r == type_code(self),
    {
        match self {
            MessageType::Heartbeat => 0,
            MessageType::Status => 1,
            MessageType::Decode => 2,
            MessageType::Clear => 3,
            MessageType::Reply => 4,
            MessageType::QsoLogged => 5,
            MessageType::Close => 6,
            MessageType::Replay => 7,
            MessageType::HaltTx => 8,
            MessageType::FreeText => 9,
            MessageType::Wspr => 10,
            MessageType::Location => 11,
            MessageType::LoggedAdif => 12,
            MessageType::HighlightCallsign => 13,
            MessageType::SwitchConfig => 14,
            MessageType::Configure => 15,
        }
    }
}

// ---------------------------------------------------------------------------
// Big-endian integers
// ---------------------------------------------------------------------------

pub open spec fn be32(b: Seq<u8>, o: int) -> u32 {
    ((b[o] as u32) << 24u32) | ((b[o + 1] as u32) << 16u32) | ((b[o + 2] as u32) << 8u32) | (b[o
        + 3] as u32)
}

pub open spec fn be64(b: Seq<u8>, o: int) -> u64 {
    ((be32(b, o) as u64) << 32u64) | (be32(b, o + 4) as u64)
}

pub open spec fn bytes32(v: u32) -> Seq<u8> {
    seq![(v >> 24u32) as u8, ((v >> 16u32) & 0xffu32) as u8, ((v >> 8u32) & 0xffu32) as u8, (v & 0xffu32) as u8]
}

pub open spec fn bytes64(v: u64) -> Seq<u8> {
    bytes32((v >> 32u64) as u32) + bytes32((v & 0xffff_ffffu64) as u32)
}

proof fn lemma_be32_bytes(v: u32)
    ensures
        be32(bytes32(v), 0) == v,
{
    let b = bytes32(v);
    let b0 = (v >> 24u32) as u8;
    let b1 = ((v >> 16u32) & 0xffu32) as u8;
    let b2 = ((v >> 8u32) & 0xffu32) as u8;
    let b3 = (v & 0xffu32) as u8;
    assert(b[0] == b0 && b[1] == b1 && b[2] == b2 && b[3] == b3);
    assert(((b0 as u32) << 24u32) | ((b1 as u32) << 16u32) | ((b2 as u32) << 8u32) | (b3 as u32) == v)
        by (bit_vector)
        requires
            b0 == (v >> 24u32) as u8,
            b1 == ((v >> 16u32) & 0xffu32) as u8,
            b2 == ((v >> 8u32) & 0xffu32) as u8,
            b3 == (v & 0xffu32) as u8,
    ;
}

proof fn lemma_be64_bytes(v: u64)
    ensures
        be64(bytes64(v), 0) == v,
{
    let hi = (v >> 32u64) as u32;
    let lo = (v & 0xffff_ffffu64) as u32;
    let b = bytes64(v);
    lemma_be32_bytes(hi);
    lemma_be32_bytes(lo);
    assert(b.subrange(0, 4) =~= bytes32(hi));
    assert(b.subrange(4, 8) =~= bytes32(lo));
    lemma_be32_at(b, 0, bytes32(hi));
    lemma_be32_at(b, 4, bytes32(lo));
    assert(((hi as u64) << 32u64) | (lo as u64) == v) by (bit_vector)
        requires
            hi == (v >> 32u64) as u32,
            lo == (v & 0xffff_ffffu64) as u32,
    ;
}

proof fn lemma_be32_at(b: Seq<u8>, o: int, part: Seq<u8>)
    requires
        0 <= o,
        o + 4 <= b.len(),
        part.len() == 4,
        b.subrange(o, o + 4) == part,
    ensures
        be32(b, o) == be32(part, 0),
{
    assert(b[o] == part[0] && b[o + 1] == part[1] && b[o + 2] == part[2] && b[o + 3] == part[3]) by {
        assert(b.subrange(o, o + 4)[0] == b[o]);
        assert(b.subrange(o, o + 4)[1] == b[o + 1]);
        assert(b.subrange(o, o + 4)[2] == b[o + 2]);
        assert(b.subrange(o, o + 4)[3] == b[o + 3]);
    }
}

// ---------------------------------------------------------------------------
// Reading
// ---------------------------------------------------------------------------

/// A `u32` at offset `o`, and the offset after it; the offset stays put
/// when fewer than four bytes remain.
#[verifier::opaque]
pub open spec fn rd_u32(d: Seq<u8>, o: int) -> (Option<u32>, int) {
    if 0 <= o && o + 4 <= d.len() {
        (Some(be32(d, o)), o + 4)
    } else {
        (None, o)
    }
}

#[verifier::opaque]
pub open spec fn rd_u64(d: Seq<u8>, o: int) -> (Option<u64>, int) {
    if 0 <= o && o + 8 <= d.len() {
        (Some(be64(d, o)), o + 8)
    } else {
        (None, o)
    }
}

#[verifier::opaque]
pub open spec fn rd_bool(d: Seq<u8>, o: int) -> (Option<bool>, int) {
    if 0 <= o && o + 1 <= d.len() {
        (Some(d[o] != 0), o + 1)
    } else {
        (None, o)
    }
}

/// The text of UTF-8 bytes; empty when they are not valid UTF-8.
pub open spec fn text_of(bytes: Seq<u8>) -> Seq<char> {
    if valid_utf8(bytes) {
        decode_utf8(bytes)
    } else {
        Seq::empty()
    }
}

/// A QDataStream string at `o`: null and empty both read as empty; the
/// length field is consumed even when the bytes it announces are missing.
#[verifier::opaque]
pub open spec fn rd_string(d: Seq<u8>, o: int) -> (Option<Seq<char>>, int) {
    let (l, o1) = rd_u32(d, o);
    match l {
        None => (None, o1),
        Some(n) => if n == 0xFFFF_FFFFu32 || n == 0 {
            (Some(Seq::empty()), o1)
        } else if o1 + n <= d.len() {
            (Some(text_of(d.subrange(o1, o1 + n))), o1 + n)
        } else {
            (None, o1)
        },
    }
}

pub open spec fn or_empty(o: Option<Seq<char>>) -> Seq<char> {
    match o {
        Some(s) => s,
        None => Seq::empty(),
    }
}

pub open spec fn or_bool(o: Option<bool>, d: bool) -> bool {
    match o {
        Some(b) => b,
        None => d,
    }
}

pub open spec fn or_zero(o: Option<u32>) -> u32 {
    match o {
        Some(v) => v,
        None => 0,
    }
}

/// A Status message's fields, as values.
pub struct StatusV {
    pub client_id: Seq<char>,
    pub dial_frequency_hz: u64,
    pub mode: Seq<char>,
    pub dx_call: Seq<char>,
    pub report: Seq<char>,
    pub tx_mode: Seq<char>,
    pub tx_enabled: bool,
    pub transmitting: bool,
    pub decoding: bool,
    pub rx_df: u32,
    pub tx_df: u32,
    pub de_call: Seq<char>,
    pub de_grid: Seq<char>,
    pub dx_grid: Seq<char>,
}

/// A Decode message's fields, as values.
pub struct DecodeV {
    pub client_id: Seq<char>,
    pub is_new: bool,
    pub time_ms: u32,
    pub snr_db: i32,
    pub delta_time_bits: u64,
    pub delta_frequency_hz: u32,
    pub mode: Seq<char>,
    pub message: Seq<char>,
    pub low_confidence: bool,
    pub off_air: bool,
}

/// A Status body at `o`: the client id and dial frequency are required,
/// every later field defaults when absent.
pub open spec fn status_spec(d: Seq<u8>, o: int) -> Option<StatusV> {
    let (c, o1) = rd_string(d, o);
    let (f, o2) = rd_u64(d, o1);
    if c is None || f is None {
        None
    } else {
        let (mode, o3) = rd_string(d, o2);
        let (dx_call, o4) = rd_string(d, o3);
        let (report, o5) = rd_string(d, o4);
        let (tx_mode, o6) = rd_string(d, o5);
        let (tx_enabled, o7) = rd_bool(d, o6);
        let (transmitting, o8) = rd_bool(d, o7);
        let (decoding, o9) = rd_bool(d, o8);
        let (rx_df, o10) = rd_u32(d, o9);
        let (tx_df, o11) = rd_u32(d, o10);
        let (de_call, o12) = rd_string(d, o11);
        let (de_grid, o13) = rd_string(d, o12);
        let (dx_grid, _o14) = rd_string(d, o13);
        Some(
            StatusV {
                client_id: c->0,
                dial_frequency_hz: f->0,
                mode: or_empty(mode),
                dx_call: or_empty(dx_call),
                report: or_empty(report),
                tx_mode: or_empty(tx_mode),
                tx_enabled: or_bool(tx_enabled, false),
                transmitting: or_bool(transmitting, false),
                decoding: or_bool(decoding, false),
                rx_df: or_zero(rx_df),
                tx_df: or_zero(tx_df),
                de_call: or_empty(de_call),
                de_grid: or_empty(de_grid),
                dx_grid: or_empty(dx_grid),
            },
        )
    }
}

/// A Decode body at `o`: everything is required except the leading
/// `is_new` flag (default true) and the two trailing flags (default
/// false).
pub open spec fn decode_spec(d: Seq<u8>, o: int) -> Option<DecodeV> {
    let (c, o1) = rd_string(d, o);
    let (is_new, o2) = rd_bool(d, o1);
    let (time_ms, o3) = rd_u32(d, o2);
    let (snr, o4) = rd_u32(d, o3);
    let (delta, o5) = rd_u64(d, o4);
    let (df, o6) = rd_u32(d, o5);
    let (mode, o7) = rd_string(d, o6);
    let (message, o8) = rd_string(d, o7);
    let (low, o9) = rd_bool(d, o8);
    let (off_air, _o10) = rd_bool(d, o9);
    if c is None || time_ms is None || snr is None || delta is None || df is None || mode is None
        || message is None {
        None
    } else {
        Some(
            DecodeV {
                client_id: c->0,
                is_new: or_bool(is_new, true),
                time_ms: time_ms->0,
                snr_db: (snr->0) as i32,
                delta_time_bits: delta->0,
                delta_frequency_hz: df->0,
                mode: mode->0,
                message: message->0,
                low_confidence: or_bool(low, false),
                off_air: or_bool(off_air, false),
            },
        )
    }
}

/// A parsed message body, as values.
pub enum MessageV {
    Status(StatusV),
    Decode(DecodeV),
    Other(MessageType),
}

/// One datagram: its schema and message, or `None` for a bad magic, a
/// truncated header, an unknown type, or a missing required field.
pub open spec fn parse_spec(d: Seq<u8>) -> Option<(u32, MessageV)> {
    let (m, o1) = rd_u32(d, 0);
    let (schema, o2) = rd_u32(d, o1);
    let (raw, o3) = rd_u32(d, o2);
    if m != Some(MAGIC) || schema is None || raw is None {
        None
    } else {
        match type_of_code(raw->0) {
            None => None,
            Some(MessageType::Status) => match status_spec(d, o3) {
                Some(s) => Some((schema->0, MessageV::Status(s))),
                None => None,
            },
            Some(MessageType::Decode) => match decode_spec(d, o3) {
                Some(x) => Some((schema->0, MessageV::Decode(x))),
                None => None,
            },
            Some(t) => Some((schema->0, MessageV::Other(t))),
        }
    }
}

/// A Status message.
#[derive(Debug, Clone, PartialEq, Eq, Default)]
pub struct Status {
    pub client_id: String,
    pub dial_frequency_hz: u64,
    pub mode: String,
    pub dx_call: String,
    pub report: String,
    pub tx_mode: String,
    pub tx_enabled: bool,
    pub transmitting: bool,
    pub decoding: bool,
    pub rx_df: u32,
    pub tx_df: u32,
    pub de_call: String,
    pub de_grid: String,
    pub dx_grid: String,
}

/// A Decode message. The time offset is the raw bits of the IEEE double
/// on the wire (seconds).
#[derive(Debug, Clone, PartialEq, Eq)]
pub struct Decode {
    pub client_id: String,
    pub is_new: bool,
    /// Milliseconds since midnight UTC.
    pub time_ms: u32,
    pub snr_db: i32,
    pub delta_time_bits: u64,
    pub delta_frequency_hz: u32,
    pub mode: String,
    pub message: String,
    pub low_confidence: bool,
    pub off_air: bool,
}

/// A parsed datagram body: Status and Decode decoded, every other type by
/// name only.
#[derive(Debug, Clone, PartialEq, Eq)]
pub enum Message {
    Status(Status),
    Decode(Decode),
    Other(MessageType),
}

/// A parsed datagram: the header's schema and the message.
#[derive(Debug, Clone, PartialEq, Eq)]
pub struct Parsed {
    pub schema: u32,
    pub message: Message,
}

pub open spec fn status_view(s: Status) -> StatusV {
    StatusV {
        client_id: s.client_id@,
        dial_frequency_hz: s.dial_frequency_hz,
        mode: s.mode@,
        dx_call: s.dx_call@,
        report: s.report@,
        tx_mode: s.tx_mode@,
        tx_enabled: s.tx_enabled,
        transmitting: s.transmitting,
        decoding: s.decoding,
        rx_df: s.rx_df,
        tx_df: s.tx_df,
        de_call: s.de_call@,
        de_grid: s.de_grid@,
        dx_grid: s.dx_grid@,
    }
}

pub open spec fn decode_view(x: Decode) -> DecodeV {
    DecodeV {
        client_id: x.client_id@,
        is_new: x.is_new,
        time_ms: x.time_ms,
        snr_db: x.snr_db,
        delta_time_bits: x.delta_time_bits,
        delta_frequency_hz: x.delta_frequency_hz,
        mode: x.mode@,
        message: x.message@,
        low_confidence: x.low_confidence,
        off_air: x.off_air,
    }
}

pub open spec fn parsed_view(p: Parsed) -> (u32, MessageV) {
    (p.schema, match p.message {
        Message::Status(s) => MessageV::Status(status_view(s)),
        Message::Decode(x) => MessageV::Decode(decode_view(x)),
        Message::Other(t) => MessageV::Other(t),
    })
}

/// `std::str::from_utf8`: the text of `bytes` when they are valid UTF-8.
#[verifier::external_body]
fn utf8_text(bytes: &[u8]) -> (r: Option<String>)
    ensures
        match r {
            Some(s) => valid_utf8(bytes@) && s@ == decode_utf8(bytes@),
            None => !valid_utf8(bytes@),
        },
{
    match std::str::from_utf8(bytes) {
        Ok(s) => Some(s.to_owned()),
        Err(_) => None,
    }
}

struct Reader<'a> {
    data: &'a [u8],
    offset: usize,
}

impl<'a> Reader<'a> {
    fn u32(&mut self) -> (r: Option<u32>)
        ensures
            final(self).data@ == old(self).data@,
            (r, final(self).offset as int) == rd_u32(old(self).data@, old(self).offset as int),
    {
        proof {
            reveal(rd_u32);
        }
        let d = self.data;
        let o = self.offset;
        if o <= d.len() && d.len() - o >= 4 {
            let v = ((d[o] as u32) << 24u32) | ((d[o + 1] as u32) << 16u32) | ((d[o + 2] as u32)
                << 8u32) | (d[o + 3] as u32);
            self.offset = o + 4;
            Some(v)
        } else {
            None
        }
    }

    fn u64(&mut self) -> (r: Option<u64>)
        ensures
            final(self).data@ == old(self).data@,
            (r, final(self).offset as int) == rd_u64(old(self).data@, old(self).offset as int),
    {
        proof {
            reveal(rd_u64);
        }
        let d = self.data;
        let o = self.offset;
        if o <= d.len() && d.len() - o >= 8 {
            let hi = ((d[o] as u32) << 24u32) | ((d[o + 1] as u32) << 16u32) | ((d[o + 2] as u32)
                << 8u32) | (d[o + 3] as u32);
            let lo = ((d[o + 4] as u32) << 24u32) | ((d[o + 5] as u32) << 16u32) | ((d[o + 6] as u32)
                << 8u32) | (d[o + 7] as u32);
            self.offset = o + 8;
            Some(((hi as u64) << 32u64) | (lo as u64))
        } else {
            None
        }
    }

    fn bool(&mut self) -> (r: Option<bool>)
        ensures
            final(self).data@ == old(self).data@,
            (r, final(self).offset as int) == rd_bool(old(self).data@, old(self).offset as int),
    {
        proof {
            reveal(rd_bool);
        }
        let d = self.data;
        let o = self.offset;
        if o < d.len() {
            self.offset = o + 1;
            Some(d[o] != 0)
        } else {
            None
        }
    }

    fn string(&mut self) -> (r: Option<String>)
        ensures
            final(self).data@ == old(self).data@,
            (match r {
                Some(s) => Some(s@),
                None => None,
            }, final(self).offset as int) == rd_string(old(self).data@, old(self).offset as int),
    {
        proof {
            reveal(rd_string);
            reveal(rd_u32);
        }
        let n = match self.u32() {
            Some(n) => n,
            None => return None,
        };
        if n == 0xFFFF_FFFFu32 || n == 0 {
            return Some(String::new());
        }
        let d = self.data;
        let o = self.offset;
        if o <= d.len() && d.len() - o >= n as usize {
            let end = o + n as usize;
            let bytes = vstd::slice::slice_subrange(d, o, end);
            self.offset = end;
            match utf8_text(bytes) {
                Some(s) => Some(s),
                None => Some(String::new()),
            }
        } else {
            None
        }
    }
}

fn read_status(r: &mut Reader) -> (s: Option<Status>)
    ensures
        (match s {
            Some(x) => Some(status_view(x)),
            None => None,
        }) == status_spec(old(r).data@, old(r).offset as int),
{
    let client_id = match r.string() {
        Some(c) => c,
        None => return None,
    };
    let dial_frequency_hz = match r.u64() {
        Some(f) => f,
        None => return None,
    };
    let mode = match r.string() { Some(x) => x, None => String::new() };
    let dx_call = match r.string() { Some(x) => x, None => String::new() };
    let report = match r.string() { Some(x) => x, None => String::new() };
    let tx_mode = match r.string() { Some(x) => x, None => String::new() };
    let tx_enabled = match r.bool() { Some(x) => x, None => false };
    let transmitting = match r.bool() { Some(x) => x, None => false };
    let decoding = match r.bool() { Some(x) => x, None => false };
    let rx_df = match r.u32() { Some(x) => x, None => 0 };
    let tx_df = match r.u32() { Some(x) => x, None => 0 };
    let de_call = match r.string() { Some(x) => x, None => String::new() };
    let de_grid = match r.string() { Some(x) => x, None => String::new() };
    let dx_grid = match r.string() { Some(x) => x, None => String::new() };
    Some(Status {
        client_id,
        dial_frequency_hz,
        mode,
        dx_call,
        report,
        tx_mode,
        tx_enabled,
        transmitting,
        decoding,
        rx_df,
        tx_df,
        de_call,
        de_grid,
        dx_grid,
    })
}

fn read_decode(r: &mut Reader) -> (x: Option<Decode>)
    ensures
        (match x {
            Some(v) => Some(decode_view(v)),
            None => None,
        }) == decode_spec(old(r).data@, old(r).offset as int),
{
    let client_id = r.string();
    let is_new = match r.bool() { Some(b) => b, None => true };
    let time_ms = r.u32();
    let snr = r.u32();
    let delta = r.u64();
    let df = r.u32();
    let mode = r.string();
    let message = r.string();
    let low = match r.bool() { Some(b) => b, None => false };
    let off_air = match r.bool() { Some(b) => b, None => false };
    match (client_id, time_ms, snr, delta, df, mode, message) {
        (Some(client_id), Some(time_ms), Some(snr), Some(delta), Some(df), Some(mode), Some(message)) => {
            Some(Decode {
                client_id,
                is_new,
                time_ms,
                snr_db: snr as i32,
                delta_time_bits: delta,
                delta_frequency_hz: df,
                mode,
                message,
                low_confidence: low,
                off_air,
            })
        },
        _ => None,
    }
}

/// Parse one UDP datagram (see [`parse_spec`]).
pub fn parse(data: &[u8]) -> (r: Option<Parsed>)
    ensures
        (match r {
            Some(p) => Some(parsed_view(p)),
            None => None,
        }) == parse_spec(data@),
{
    let mut r = Reader { data, offset: 0 };
    let m = r.u32();
    let schema = r.u32();
    let raw = r.u32();
    let (schema, raw) = match (m, schema, raw) {
        (Some(m), Some(s), Some(t)) => {
            if m != MAGIC {
                return None;
            }
            (s, t)
        },
        _ => return None,
    };
    let t = match MessageType::from_raw(raw) {
        Some(t) => t,
        None => return None,
    };
    match t {
        MessageType::Status => match read_status(&mut r) {
            Some(s) => Some(Parsed { schema, message: Message::Status(s) }),
            None => None,
        },
        MessageType::Decode => match read_decode(&mut r) {
            Some(x) => Some(Parsed { schema, message: Message::Decode(x) }),
            None => None,
        },
        other => Some(Parsed { schema, message: Message::Other(other) }),
    }
}

// ---------------------------------------------------------------------------
// Writing
// ---------------------------------------------------------------------------

pub open spec fn w_bool(b: bool) -> Seq<u8> {
    seq![if b {
        1u8
    } else {
        0u8
    }]
}

/// The length field a string is written with: its UTF-8 byte count,
/// truncated to 32 bits.
pub open spec fn byte_count(s: Seq<char>) -> u32 {
    ((encode_utf8(s).len() as usize) as u32)
}

/// A string as written: its byte count, then its UTF-8 bytes.
pub open spec fn w_str(s: Seq<char>) -> Seq<u8> {
    bytes32(byte_count(s)) + encode_utf8(s)
}

pub open spec fn header_bytes(schema: u32, t: MessageType) -> Seq<u8> {
    bytes32(MAGIC) + (bytes32(schema) + bytes32(type_code(t)))
}

/// The bytes of a Status datagram: the header, then every field in wire
/// order.
pub open spec fn status_bytes(schema: u32, v: StatusV) -> Seq<u8> {
    header_bytes(schema, MessageType::Status) + w_str(v.client_id) + bytes64(v.dial_frequency_hz) + w_str(
        v.mode,
    ) + w_str(v.dx_call) + w_str(v.report) + w_str(v.tx_mode) + w_bool(v.tx_enabled) + w_bool(
        v.transmitting,
    ) + w_bool(v.decoding) + bytes32(v.rx_df) + bytes32(v.tx_df) + w_str(v.de_call) + w_str(v.de_grid)
        + w_str(v.dx_grid)
}

/// The bytes of a Decode datagram.
pub open spec fn decode_bytes(schema: u32, v: DecodeV) -> Seq<u8> {
    header_bytes(schema, MessageType::Decode) + w_str(v.client_id) + w_bool(v.is_new) + bytes32(
        v.time_ms,
    ) + bytes32(v.snr_db as u32) + bytes64(v.delta_time_bits) + bytes32(v.delta_frequency_hz) + w_str(
        v.mode,
    ) + w_str(v.message) + w_bool(v.low_confidence) + w_bool(v.off_air)
}

fn push_u32(out: &mut Vec<u8>, v: u32)
    ensures
        final(out)@ == old(out)@ + bytes32(v),
{
    out.push((v >> 24u32) as u8);
    out.push(((v >> 16u32) & 0xffu32) as u8);
    out.push(((v >> 8u32) & 0xffu32) as u8);
    out.push((v & 0xffu32) as u8);
    assert(out@ =~= old(out)@ + bytes32(v));
}

fn push_u64(out: &mut Vec<u8>, v: u64)
    ensures
        final(out)@ == old(out)@ + bytes64(v),
{
    push_u32(out, (v >> 32u64) as u32);
    push_u32(out, (v & 0xffff_ffffu64) as u32);
    assert(out@ =~= old(out)@ + bytes64(v));
}

fn push_bool(out: &mut Vec<u8>, b: bool)
    ensures
        final(out)@ == old(out)@ + w_bool(b),
{
    out.push(if b {
        1u8
    } else {
        0u8
    });
    assert(out@ =~= old(out)@ + w_bool(b));
}

fn push_str(out: &mut Vec<u8>, s: &str)
    ensures
        final(out)@ == old(out)@ + w_str(s@),
{
    let n = s.len();
    push_u32(out, n as u32);
    let b = s.as_bytes();
    let ghost start = out@;
    let mut i: usize = 0;
    while i < b.len()
        invariant
            i <= b@.len(),
            b@ == encode_utf8(s@),
            out@ == start + b@.take(i as int),
        decreases b@.len() - i,
    {
        out.push(b[i]);
        i = i + 1;
        assert(b@.take(i as int) =~= b@.take(i - 1).push(b@[i - 1]));
    }
    assert(b@.take(b@.len() as int) =~= b@);
    assert(out@ =~= old(out)@ + w_str(s@));
}

fn push_header(out: &mut Vec<u8>, schema: u32, t: MessageType)
    ensures
        final(out)@ == old(out)@ + header_bytes(schema, t),
{
    push_u32(out, MAGIC);
    push_u32(out, schema);
    push_u32(out, t.code());
    assert(out@ =~= old(out)@ + header_bytes(schema, t));
}

/// Encode a Status with the given schema.
pub fn encode_status(schema: u32, s: &Status) -> (r: Vec<u8>)
    ensures
        r@ == status_bytes(schema, status_view(*s)),
{
    let mut out: Vec<u8> = Vec::new();
    push_header(&mut out, schema, MessageType::Status);
    assert(out@ =~= header_bytes(schema, MessageType::Status));
    push_str(&mut out, s.client_id.as_str());
    push_u64(&mut out, s.dial_frequency_hz);
    push_str(&mut out, s.mode.as_str());
    push_str(&mut out, s.dx_call.as_str());
    push_str(&mut out, s.report.as_str());
    push_str(&mut out, s.tx_mode.as_str());
    push_bool(&mut out, s.tx_enabled);
    push_bool(&mut out, s.transmitting);
    push_bool(&mut out, s.decoding);
    push_u32(&mut out, s.rx_df);
    push_u32(&mut out, s.tx_df);
    push_str(&mut out, s.de_call.as_str());
    push_str(&mut out, s.de_grid.as_str());
    push_str(&mut out, s.dx_grid.as_str());
    out
}

/// Encode a Decode with the given schema.
pub fn encode_decode(schema: u32, d: &Decode) -> (r: Vec<u8>)
    ensures
        r@ == decode_bytes(schema, decode_view(*d)),
{
    let mut out: Vec<u8> = Vec::new();
    push_header(&mut out, schema, MessageType::Decode);
    assert(out@ =~= header_bytes(schema, MessageType::Decode));
    push_str(&mut out, d.client_id.as_str());
    push_bool(&mut out, d.is_new);
    push_u32(&mut out, d.time_ms);
    push_u32(&mut out, d.snr_db as u32);
    push_u64(&mut out, d.delta_time_bits);
    push_u32(&mut out, d.delta_frequency_hz);
    push_str(&mut out, d.mode.as_str());
    push_str(&mut out, d.message.as_str());
    push_bool(&mut out, d.low_confidence);
    push_bool(&mut out, d.off_air);
    out
}

/// The client id the aggregator identifies as when synthesizing messages.
pub fn default_client_id() -> (r: &'static str)
    ensures
        r@ == "DXClusterAggregator"@,
{
    "DXClusterAggregator"
}

/// The operator callsign a synthesized Status carries, so loggers treat the
/// pair as the aggregator's loop-back rather than a DX station.
pub fn aggregator_de_call() -> (r: &'static str)
    ensures
        r@ == "DXCAGGR"@,
{
    "DXCAGGR"
}

/// The Status announcing one aggregated spot: dial at the exact spot
/// frequency, under the aggregator's own client id and operator call.
pub open spec fn spot_status(frequency_hz: u64, mode: Seq<char>) -> StatusV {
    StatusV {
        client_id: "DXClusterAggregator"@,
        dial_frequency_hz: frequency_hz,
        mode: mode,
        dx_call: Seq::empty(),
        report: Seq::empty(),
        tx_mode: Seq::empty(),
        tx_enabled: false,
        transmitting: false,
        decoding: false,
        rx_df: 0,
        tx_df: 0,
        de_call: "DXCAGGR"@,
        de_grid: Seq::empty(),
        dx_grid: Seq::empty(),
    }
}

/// The Decode carrying one aggregated spot: new, delta 0, at the caller's
/// time of day (milliseconds since midnight UTC).
pub open spec fn spot_decode(message: Seq<char>, snr_db: i32, mode: Seq<char>, time_ms: u32) -> DecodeV {
    DecodeV {
        client_id: "DXClusterAggregator"@,
        is_new: true,
        time_ms: time_ms,
        snr_db: snr_db,
        delta_time_bits: 0,
        delta_frequency_hz: 0,
        mode: mode,
        message: message,
        low_confidence: false,
        off_air: false,
    }
}

/// The Status and Decode pair for one aggregated spot, in the current
/// schema.
pub fn encode_spot(callsign_message: &str, frequency_hz: u64, snr_db: i32, mode: &str, time_ms: u32) -> (r: (Vec<u8>, Vec<u8>))
    ensures
        r.0@ == status_bytes(SCHEMA_VERSION, spot_status(frequency_hz, mode@)),
        r.1@ == decode_bytes(SCHEMA_VERSION, spot_decode(callsign_message@, snr_db, mode@, time_ms)),
{
    let status = Status {
        client_id: default_client_id().to_owned(),
        dial_frequency_hz: frequency_hz,
        mode: mode.to_owned(),
        dx_call: String::new(),
        report: String::new(),
        tx_mode: String::new(),
        tx_enabled: false,
        transmitting: false,
        decoding: false,
        rx_df: 0,
        tx_df: 0,
        de_call: aggregator_de_call().to_owned(),
        de_grid: String::new(),
        dx_grid: String::new(),
    };
    let decode = Decode {
        client_id: default_client_id().to_owned(),
        is_new: true,
        time_ms,
        snr_db,
        delta_time_bits: 0,
        delta_frequency_hz: 0,
        mode: mode.to_owned(),
        message: callsign_message.to_owned(),
        low_confidence: false,
        off_air: false,
    };
    let a = encode_status(SCHEMA_VERSION, &status);
    let b = encode_decode(SCHEMA_VERSION, &decode);
    proof {
        assert(status_view(status).dx_call =~= Seq::<char>::empty());
    }
    (a, b)
}

// ---------------------------------------------------------------------------
// Reading back what was written
// ---------------------------------------------------------------------------

/// `p` lies at offset `o` of `d`.
pub open spec fn at(d: Seq<u8>, o: int, p: Seq<u8>) -> bool {
    0 <= o && o + p.len() <= d.len() && d.subrange(o, o + p.len()) == p
}

proof fn lemma_rd_u32_at(d: Seq<u8>, o: int, v: u32)
    requires
        at(d, o, bytes32(v)),
    ensures
        rd_u32(d, o) == (Some(v), o + 4),
{
    reveal(rd_u32);
    lemma_be32_at(d, o, bytes32(v));
    lemma_be32_bytes(v);
}

proof fn lemma_rd_u64_at(d: Seq<u8>, o: int, v: u64)
    requires
        at(d, o, bytes64(v)),
    ensures
        rd_u64(d, o) == (Some(v), o + 8),
{
    reveal(rd_u64);
    let hi = (v >> 32u64) as u32;
    let lo = (v & 0xffff_ffffu64) as u32;
    assert(d.subrange(o, o + 4) =~= bytes32(hi)) by {
        assert(d.subrange(o, o + 4) =~= d.subrange(o, o + 8).subrange(0, 4));
    }
    assert(d.subrange(o + 4, o + 8) =~= bytes32(lo)) by {
        assert(d.subrange(o + 4, o + 8) =~= d.subrange(o, o + 8).subrange(4, 8));
    }
    lemma_be32_at(d, o, bytes32(hi));
    lemma_be32_at(d, o + 4, bytes32(lo));
    lemma_be64_bytes(v);
    assert(bytes64(v).subrange(0, 4) =~= bytes32(hi));
    assert(bytes64(v).subrange(4, 8) =~= bytes32(lo));
    lemma_be32_at(bytes64(v), 0, bytes32(hi));
    lemma_be32_at(bytes64(v), 4, bytes32(lo));
}

proof fn lemma_rd_bool_at(d: Seq<u8>, o: int, b: bool)
    requires
        at(d, o, w_bool(b)),
    ensures
        rd_bool(d, o) == (Some(b), o + 1),
{
    reveal(rd_bool);
    assert(d[o] == d.subrange(o, o + 1)[0]);
}

proof fn lemma_encode_nonempty(s: Seq<char>)
    requires
        s.len() > 0,
    ensures
        encode_utf8(s).len() > 0,
{
    let c = s[0] as u32;
    assert(vstd::utf8::encode_scalar(c).len() > 0);
}

proof fn lemma_rd_str_at(d: Seq<u8>, o: int, s: Seq<char>)
    requires
        at(d, o, w_str(s)),
        encode_utf8(s).len() < 0xFFFF_FFFF,
    ensures
        rd_string(d, o) == (Some(s), o + w_str(s).len()),
{
    reveal(rd_string);
    let e = encode_utf8(s);
    let n = byte_count(s);
    assert(n == e.len());
    assert(d.subrange(o, o + 4) =~= bytes32(n)) by {
        assert(d.subrange(o, o + 4) =~= d.subrange(o, o + w_str(s).len()).subrange(0, 4));
    }
    lemma_rd_u32_at(d, o, n);
    if n == 0 {
        if s.len() > 0 {
            lemma_encode_nonempty(s);
        }
        assert(s =~= Seq::<char>::empty());
    } else {
        assert(d.subrange(o + 4, o + 4 + n) =~= e) by {
            assert(d.subrange(o + 4, o + 4 + n) =~= d.subrange(o, o + w_str(s).len()).subrange(
                4,
                4 + n,
            ));
        }
        vstd::utf8::encode_utf8_valid_utf8(s);
        vstd::utf8::encode_utf8_decode_utf8(s);
    }
}

/// `x` then `y` begin `d`.
pub open spec fn begins(d: Seq<u8>, x: Seq<u8>) -> bool {
    x.len() <= d.len() && d.subrange(0, x.len() as int) == x
}

proof fn lemma_begins(d: Seq<u8>, x: Seq<u8>, y: Seq<u8>)
    requires
        begins(d, x + y),
    ensures
        begins(d, x),
        at(d, x.len() as int, y),
{
    let n = (x.len() + y.len()) as int;
    let whole = d.subrange(0, n);
    assert(whole == x + y);
    assert(d.subrange(0, x.len() as int) =~= whole.subrange(0, x.len() as int));
    assert((x + y).subrange(0, x.len() as int) =~= x);
    assert(d.subrange(x.len() as int, n) =~= whole.subrange(x.len() as int, n));
    assert((x + y).subrange(x.len() as int, n) =~= y);
}

proof fn lemma_header(d: Seq<u8>, schema: u32, t: MessageType)
    requires
        begins(d, header_bytes(schema, t)),
    ensures
        rd_u32(d, 0) == (Some(MAGIC), 4int),
        rd_u32(d, 4) == (Some(schema), 8int),
        rd_u32(d, 8) == (Some(type_code(t)), 12int),
        type_of_code(type_code(t)) == Some(t),
{
    let h = header_bytes(schema, t);
    assert(d.subrange(0, 4) =~= h.subrange(0, 4));
    assert(d.subrange(4, 8) =~= h.subrange(4, 8));
    assert(d.subrange(8, 12) =~= h.subrange(8, 12));
    assert(h.subrange(0, 4) =~= bytes32(MAGIC));
    assert(h.subrange(4, 8) =~= bytes32(schema));
    assert(h.subrange(8, 12) =~= bytes32(type_code(t)));
    lemma_rd_u32_at(d, 0, MAGIC);
    lemma_rd_u32_at(d, 4, schema);
    lemma_rd_u32_at(d, 8, type_code(t));
}

/// Strings short enough to be written and read back: fewer than
/// `0xFFFF_FFFF` UTF-8 bytes (that count is the null marker).
pub open spec fn writable(s: Seq<char>) -> bool {
    encode_utf8(s).len() < 0xFFFF_FFFF
}

/// Reading an encoded Status gives back the schema and every field.
#[verifier::rlimit(80)]
pub proof fn law_status_roundtrip(schema: u32, v: StatusV)
    requires
        writable(v.client_id),
        writable(v.mode),
        writable(v.dx_call),
        writable(v.report),
        writable(v.tx_mode),
        writable(v.de_call),
        writable(v.de_grid),
        writable(v.dx_grid),
    ensures
        parse_spec(status_bytes(schema, v)) == Some((schema, MessageV::Status(v))),
{
    let d = status_bytes(schema, v);
    let d0 = header_bytes(schema, MessageType::Status);
    let d1 = d0 + w_str(v.client_id);
    let d2 = d1 + bytes64(v.dial_frequency_hz);
    let d3 = d2 + w_str(v.mode);
    let d4 = d3 + w_str(v.dx_call);
    let d5 = d4 + w_str(v.report);
    let d6 = d5 + w_str(v.tx_mode);
    let d7 = d6 + w_bool(v.tx_enabled);
    let d8 = d7 + w_bool(v.transmitting);
    let d9 = d8 + w_bool(v.decoding);
    let d10 = d9 + bytes32(v.rx_df);
    let d11 = d10 + bytes32(v.tx_df);
    let d12 = d11 + w_str(v.de_call);
    let d13 = d12 + w_str(v.de_grid);
    assert(d == d13 + w_str(v.dx_grid));
    assert(begins(d, d)) by {
        assert(d.subrange(0, d.len() as int) =~= d);
    }
    lemma_begins(d, d13, w_str(v.dx_grid));
    lemma_begins(d, d12, w_str(v.de_grid));
    lemma_begins(d, d11, w_str(v.de_call));
    lemma_begins(d, d10, bytes32(v.tx_df));
    lemma_begins(d, d9, bytes32(v.rx_df));
    lemma_begins(d, d8, w_bool(v.decoding));
    lemma_begins(d, d7, w_bool(v.transmitting));
    lemma_begins(d, d6, w_bool(v.tx_enabled));
    lemma_begins(d, d5, w_str(v.tx_mode));
    lemma_begins(d, d4, w_str(v.report));
    lemma_begins(d, d3, w_str(v.dx_call));
    lemma_begins(d, d2, w_str(v.mode));
    lemma_begins(d, d1, bytes64(v.dial_frequency_hz));
    lemma_begins(d, d0, w_str(v.client_id));
    lemma_header(d, schema, MessageType::Status);
    lemma_rd_str_at(d, d0.len() as int, v.client_id);
    lemma_rd_u64_at(d, d1.len() as int, v.dial_frequency_hz);
    lemma_rd_str_at(d, d2.len() as int, v.mode);
    lemma_rd_str_at(d, d3.len() as int, v.dx_call);
    lemma_rd_str_at(d, d4.len() as int, v.report);
    lemma_rd_str_at(d, d5.len() as int, v.tx_mode);
    lemma_rd_bool_at(d, d6.len() as int, v.tx_enabled);
    lemma_rd_bool_at(d, d7.len() as int, v.transmitting);
    lemma_rd_bool_at(d, d8.len() as int, v.decoding);
    lemma_rd_u32_at(d, d9.len() as int, v.rx_df);
    lemma_rd_u32_at(d, d10.len() as int, v.tx_df);
    lemma_rd_str_at(d, d11.len() as int, v.de_call);
    lemma_rd_str_at(d, d12.len() as int, v.de_grid);
    lemma_rd_str_at(d, d13.len() as int, v.dx_grid);
}

/// Reading an encoded Decode gives back the schema and every field.
#[verifier::rlimit(80)]
pub proof fn law_decode_roundtrip(schema: u32, v: DecodeV)
    requires
        writable(v.client_id),
        writable(v.mode),
        writable(v.message),
    ensures
        parse_spec(decode_bytes(schema, v)) == Some((schema, MessageV::Decode(v))),
{
    let d = decode_bytes(schema, v);
    let d0 = header_bytes(schema, MessageType::Decode);
    let d1 = d0 + w_str(v.client_id);
    let d2 = d1 + w_bool(v.is_new);
    let d3 = d2 + bytes32(v.time_ms);
    let d4 = d3 + bytes32(v.snr_db as u32);
    let d5 = d4 + bytes64(v.delta_time_bits);
    let d6 = d5 + bytes32(v.delta_frequency_hz);
    let d7 = d6 + w_str(v.mode);
    let d8 = d7 + w_str(v.message);
    let d9 = d8 + w_bool(v.low_confidence);
    assert(d == d9 + w_bool(v.off_air));
    assert(begins(d, d)) by {
        assert(d.subrange(0, d.len() as int) =~= d);
    }
    lemma_begins(d, d9, w_bool(v.off_air));
    lemma_begins(d, d8, w_bool(v.low_confidence));
    lemma_begins(d, d7, w_str(v.message));
    lemma_begins(d, d6, w_str(v.mode));
    lemma_begins(d, d5, bytes32(v.delta_frequency_hz));
    lemma_begins(d, d4, bytes64(v.delta_time_bits));
    lemma_begins(d, d3, bytes32(v.snr_db as u32));
    lemma_begins(d, d2, bytes32(v.time_ms));
    lemma_begins(d, d1, w_bool(v.is_new));
    lemma_begins(d, d0, w_str(v.client_id));
    lemma_header(d, schema, MessageType::Decode);
    lemma_rd_str_at(d, d0.len() as int, v.client_id);
    lemma_rd_bool_at(d, d1.len() as int, v.is_new);
    lemma_rd_u32_at(d, d2.len() as int, v.time_ms);
    lemma_rd_u32_at(d, d3.len() as int, v.snr_db as u32);
    lemma_rd_u64_at(d, d4.len() as int, v.delta_time_bits);
    lemma_rd_u32_at(d, d5.len() as int, v.delta_frequency_hz);
    lemma_rd_str_at(d, d6.len() as int, v.mode);
    lemma_rd_str_at(d, d7.len() as int, v.message);
    lemma_rd_bool_at(d, d8.len() as int, v.low_confidence);
    lemma_rd_bool_at(d, d9.len() as int, v.off_air);
    let x = v.snr_db;
    assert(((x as u32) as i32) == x) by (bit_vector);
}

} // verus!

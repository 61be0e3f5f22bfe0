use dxca::format::format_with_frequency;
use dxca::spot::{message_is_cq, time_from_decode_ms, Spot};
use dxca::wsjtx::{encode_decode, encode_spot, encode_status, parse, Decode, Message, MessageType, Status};

fn spot(message: &str) -> Spot {
    Spot {
        time_unix: 1_787_745_000,
        snr_db: -12,
        delta_time_bits: 0.2f64.to_bits(),
        delta_frequency_hz: 1487,
        mode: "FT8".into(),
        mode_inferred: false,
        message: message.into(),
        is_cq: true,
        comment: String::new(),
        low_confidence: false,
        off_air: false,
        dial_frequency_hz: 14_074_000,
        source_name: "JTDX".into(),
        spotter: None,
    }
}

fn header(schema: u32, code: u32) -> Vec<u8> {
    let mut out = Vec::new();
    out.extend_from_slice(&0xADBC_CBDAu32.to_be_bytes());
    out.extend_from_slice(&schema.to_be_bytes());
    out.extend_from_slice(&code.to_be_bytes());
    out
}

#[test]
fn dx_call_extraction_table() {
    let cases = [
        ("CQ P5DX PM95", Some("P5DX")),
        ("CQ NA K1JT FN20", Some("K1JT")),
        ("CQ DX VU2CPL MK83", Some("VU2CPL")),
        ("K1JT VU2CPL -15", Some("VU2CPL")),
        ("VU2CPL K1JT RR73", Some("K1JT")),
        ("K1JT RR73", Some("K1JT")),
        ("<K1JT> VU2CPL R-07", Some("VU2CPL")),
        ("VU2CPL <K1JT> +03", Some("K1JT")),
        ("K1JT LL85", Some("K1JT")),
        ("CQ TEST", None),
        ("73", None),
    ];
    for (msg, want) in cases {
        assert_eq!(spot(msg).dx_callsign().as_deref(), want, "message: {msg:?}");
    }
}

#[test]
fn cq_and_keys() {
    let s = spot("CQ P5DX PM95");
    assert!(s.is_cq);
    assert_eq!(s.duplicate_key().as_deref(), Some("P5DX-20M-FT8"));
    assert_eq!(spot("73").duplicate_key(), None);
    assert_eq!(s.frequency_hz(), 14_075_487);
}

#[test]
fn decode_time_maps_onto_today() {
    let t = time_from_decode_ms(1_787_836_200, 19_890_000);
    assert_eq!(t.rem_euclid(86_400), 5 * 3600 + 31 * 60 + 30);
    let s = Spot { time_unix: t, ..spot("CQ P5DX PM95") };
    assert_eq!(s.hhmm(), "0531");
}

#[test]
fn cq_messages_are_recognised() {
    assert!(message_is_cq("CQ P5DX PM95"));
    assert!(message_is_cq("cq dx K1JT"));
    assert!(!message_is_cq("K1JT VU2CPL -15"));
}

fn format_spot(time_unix: i64, snr: i32, mode: &str, message: &str, dial: u64, source: &str) -> Spot {
    Spot {
        time_unix,
        snr_db: snr,
        delta_time_bits: 0,
        delta_frequency_hz: 0,
        mode: mode.into(),
        mode_inferred: false,
        message: message.into(),
        is_cq: true,
        comment: String::new(),
        low_confidence: false,
        off_air: false,
        dial_frequency_hz: dial,
        source_name: source.into(),
        spotter: None,
    }
}

#[test]
fn spider_layout() {
    let s = format_spot(14 * 3600 + 28 * 60, -10, "FT8", "CQ K1JT FN20", 14_074_000, "MSHV 2333");
    let line = format_with_frequency(&s, "14074.0");
    assert_eq!(line, "DX de MSHV2333:      14074.0   K1JT          FT8 -10 dB                   1428Z");
    assert!(line.ends_with("Z"));
    assert_eq!(line.split_whitespace().nth(2), Some("MSHV2333:"));
}

#[test]
fn no_callsign_becomes_unknown() {
    let s = format_spot(0, 3, "FT4", "73", 7_047_500, "JTDX");
    assert!(format_with_frequency(&s, "7047.5").contains("UNKNOWN"));
}

#[test]
fn punctuation_in_a_source_name_is_silently_welded_not_rejected() {
    let mut s = format_spot(0, -10, "FT8", "CQ K1JT", 14_074_000, "MSHV");
    assert!(format_with_frequency(&s, "14074.0").contains("MSHV:"), "the ordinary case");
    s.source_name = "VU2CPL:MSHV".into();
    let welded = format_with_frequency(&s, "14074.0");
    assert!(welded.contains("VU2CPLMSHV:"), "{welded}");
    assert!(!welded.contains("VU2CPL:MSHV"));
}

#[test]
fn rejects_bad_magic_and_unknown_type() {
    assert!(parse(&[0u8; 12]).is_none());
    assert!(parse(&header(2, 99)).is_none());
}

#[test]
fn header_only_types_parse_as_other() {
    let p = parse(&header(2, 0)).unwrap();
    assert_eq!(p.schema, 2);
    assert_eq!(p.message, Message::Other(MessageType::Heartbeat));
}

#[test]
fn decode_roundtrips_through_encode() {
    let d = Decode {
        client_id: "JTDX".into(),
        is_new: true,
        time_ms: 41_130_000,
        snr_db: -17,
        delta_time_bits: 0.2f64.to_bits(),
        delta_frequency_hz: 1487,
        mode: "~".into(),
        message: "CQ P5DX PM95".into(),
        low_confidence: false,
        off_air: false,
    };
    let bytes = encode_decode(3, &d);
    let p = parse(&bytes).unwrap();
    assert_eq!(p.schema, 3);
    assert_eq!(p.message, Message::Decode(d));
}

#[test]
fn status_roundtrips_through_encode() {
    let s = Status {
        client_id: "WSJT-X".into(),
        dial_frequency_hz: 14_074_000,
        mode: "FT8".into(),
        de_call: "VU2CPL".into(),
        de_grid: "MK83".into(),
        ..Status::default()
    };
    let bytes = encode_status(2, &s);
    let p = parse(&bytes).unwrap();
    assert_eq!(p.message, Message::Status(s));
}

#[test]
fn truncated_status_keeps_required_fields() {
    let s = Status { client_id: "MSHV".into(), dial_frequency_hz: 7_074_000, ..Status::default() };
    let full = encode_status(2, &s);
    let cut = &full[..12 + 4 + 4 + 8];
    let p = parse(cut).unwrap();
    assert_eq!(p.message, Message::Status(s));
}

#[test]
fn null_string_parses_as_empty() {
    let mut w = header(2, 1);
    w.extend_from_slice(&0xFFFF_FFFFu32.to_be_bytes());
    w.extend_from_slice(&14_074_000u64.to_be_bytes());
    let p = parse(&w).unwrap();
    match p.message {
        Message::Status(s) => {
            assert_eq!(s.client_id, "");
            assert_eq!(s.dial_frequency_hz, 14_074_000);
        }
        other => panic!("expected Status, got {other:?}"),
    }
}

#[test]
fn a_spot_becomes_a_status_and_a_decode() {
    let (status, decode) = encode_spot("CQ K1JT FN20", 14_074_000, -10, "FT8", 51_000_000);
    match parse(&status).unwrap().message {
        Message::Status(s) => {
            assert_eq!(s.dial_frequency_hz, 14_074_000);
            assert_eq!(s.mode, "FT8");
        }
        other => panic!("expected Status, got {other:?}"),
    }
    match parse(&decode).unwrap().message {
        Message::Decode(d) => {
            assert_eq!(d.message, "CQ K1JT FN20");
            assert_eq!(d.snr_db, -10);
            assert_eq!(d.time_ms, 51_000_000);
        }
        other => panic!("expected Decode, got {other:?}"),
    }
}

use dxca::assoc::{StrMap, StrSet};
use dxca::broadcast::{datagrams, takes_raw, takes_spot, Counters, Format, SpotPayload};
use dxca::dxcluster::wire::{received_text, strip_telnet_iac};
use dxca::dxcluster::{ClientConfig, SpotKind};
use dxca::mqtt::{MqttCounters, MqttDestinationConfig};
use dxca::telnet::{
    bound_input, line_text, must_hang_up, on_line, on_verdict, take_line, LineAction, SessionState, TelnetIdentity, MAX_LINE,
};

fn mqtt_cfg(topic: &str) -> MqttDestinationConfig {
    MqttDestinationConfig {
        name: "panadapter".into(),
        host: "192.168.1.169".into(),
        port: 1883,
        username: "svc".into(),
        password: "x".into(),
        topic: topic.into(),
        client_id: "dxca".into(),
        allowed_sources: StrSet::new(),
        unfiltered: false,
    }
}

#[test]
fn topics_are_siblings_of_the_configured_base() {
    let cfg = mqtt_cfg("shack/dxca/spots/");
    assert_eq!(cfg.json_topic(), "shack/dxca/spots/json");
    assert_eq!(cfg.cluster_topic(), "shack/dxca/spots/cluster");
}

#[test]
fn a_filtered_destination_needs_the_verdict_and_an_admitted_source() {
    let mut cfg = mqtt_cfg("base");
    assert!(cfg.accepts("VU2OY", true));
    assert!(!cfg.accepts("VU2OY", false));
    cfg.unfiltered = true;
    assert!(cfg.accepts("VU2OY", false));
    cfg.allowed_sources.insert("RBN".into());
    assert!(!cfg.accepts("VU2OY", true));
    assert!(cfg.accepts("RBN", true));
}

#[test]
fn unknown_format_names_fall_back_to_cluster() {
    assert_eq!(Format::from_str_lossy("wsjtx"), Format::Wsjtx);
    assert_eq!(Format::from_str_lossy("passthrough"), Format::Passthrough);
    assert_eq!(Format::from_str_lossy("WSJTX"), Format::Cluster);
    assert_eq!(Format::from_str_lossy(""), Format::Cluster);
}

#[test]
fn passthrough_destinations_take_raw_datagrams_only() {
    let all = StrSet::new();
    assert!(!takes_spot(Format::Passthrough, &all, true, "JTDX", true));
    assert!(takes_raw(Format::Passthrough, &all, "JTDX"));
    assert!(!takes_raw(Format::Cluster, &all, "JTDX"));
    assert!(takes_spot(Format::Wsjtx, &all, false, "JTDX", true));
    assert!(!takes_spot(Format::Cluster, &all, false, "JTDX", false));
    assert!(takes_spot(Format::Cluster, &all, true, "JTDX", false));
}

#[test]
fn counters_book_and_total() {
    let mut c = Counters::default();
    c.book("a", true);
    c.book("a", true);
    c.book("b", true);
    c.book("b", false);
    assert_eq!(c.total_sent(), 3);
    assert_eq!(c.total_failed(), 1);
    assert_eq!(c.sent.get(&['a']), Some(&2));

    let mut m = MqttCounters::default();
    m.sent.insert("x".into(), 5);
    m.failed.insert("x".into(), 1);
    m.failed.insert("y".into(), 2);
    assert_eq!(m.total_sent(), 5);
    assert_eq!(m.total_failed(), 3);
    let empty: StrMap<u64> = StrMap::new();
    assert_eq!(empty.len(), 0);
}

#[test]
fn iac_stripping() {
    let mut data = vec![0xFF, 0xFB, 0x03, 0xFF, 0xFB, 0x01];
    data.extend_from_slice(b"login: ");
    assert_eq!(strip_telnet_iac(&data), b"login: ");
    assert_eq!(strip_telnet_iac(&[0x41, 0xFF, 0xFF, 0x42, 0xFF]), &[0x41, 0xFF, 0x42]);
}

#[test]
fn subnegotiation_is_dropped_through_its_end() {
    assert_eq!(strip_telnet_iac(&[0x41, 0xFF, 0xFA, 0x18, 0x01, 0xFF, 0xF0, 0x42]), &[0x41, 0x42]);
    assert_eq!(strip_telnet_iac(&[0xFF, 0xF1, 0x43]), &[0x43], "a two-byte command goes");
}

#[test]
fn spot_kinds_name_their_token() {
    assert_eq!(SpotKind::Cq.token(), Some("CQ"));
    assert_eq!(SpotKind::Ncdxf.token(), Some("NCDXF"));
    assert_eq!(SpotKind::De.token(), None);
    assert_eq!(SpotKind::default(), SpotKind::Unknown);
}

#[test]
fn a_new_client_config_has_the_house_defaults() {
    let c = ClientConfig::new("dxc.example", 7300, "VU2CPL");
    assert_eq!(c.host, "dxc.example");
    assert_eq!(c.port, 7300);
    assert_eq!(c.login_call, "VU2CPL");
    assert!(c.password.is_empty());
    assert_eq!(c.login_prompts, vec!["login:", "callsign:", "call:"]);
    assert_eq!(c.init_commands, vec!["set/page 0", "set/dxgrid on"]);
    assert_eq!(c.reconnect_schedule_s, vec![10, 30, 60, 120, 300]);
    assert_eq!((c.keepalive_secs, c.auth_timeout_s, c.silence_timeout_s), (300, 120, 900));
}

fn reply(a: LineAction) -> Option<String> {
    match a {
        LineAction::Reply(t) => Some(t),
        _ => None,
    }
}

#[test]
fn login_asks_for_a_password_and_a_verdict_answers() {
    let mut st = SessionState::Anonymous;
    let mut failures = 0u32;
    assert_eq!(reply(on_line(&mut st, "login k1abc")).as_deref(), Some("Password: "));
    match on_line(&mut st, "secret") {
        LineAction::Authenticate { callsign, password } => {
            assert_eq!(callsign, "K1ABC");
            assert_eq!(password, "secret");
        }
        _ => panic!("expected a credential check"),
    }
    let id = TelnetIdentity { user_id: 7, callsign: "K1ABC".into(), role: "admin".into() };
    let hello = on_verdict(&mut st, &mut failures, Some(id));
    assert_eq!(hello, "Welcome K1ABC (admin). Commands arrive in a later release.\r\n");
    assert_eq!(
        reply(on_line(&mut st, "BYE")).as_deref(),
        Some("73 K1ABC; logged out, the spot feed continues.\r\n")
    );
}

#[test]
fn a_failed_login_counts_and_says_nothing_specific() {
    let mut st = SessionState::AwaitingPassword { callsign: "K1ABC".into() };
    let mut failures = 1u32;
    assert_eq!(on_verdict(&mut st, &mut failures, None), "Login failed.\r\n");
    assert_eq!(failures, 2);
    assert!(matches!(st, SessionState::Anonymous));
}

#[test]
fn anonymous_sessions_hear_only_login() {
    let mut st = SessionState::Anonymous;
    assert!(matches!(on_line(&mut st, "BYE"), LineAction::Silent), "an anonymous BYE is ignored");
    assert!(matches!(on_line(&mut st, "SH/DX"), LineAction::Silent));
    assert_eq!(reply(on_line(&mut st, "LOGIN")).as_deref(), Some("Usage: LOGIN <callsign>\r\n"));
}

fn payload(callsign: Option<&'static str>) -> SpotPayload<'static> {
    SpotPayload {
        cluster_line: "DX de DXCA:  14074.0  K1JT  FT8 -10 dB  1428Z",
        source_name: "MSHV",
        callsign,
        frequency_hz: 14_074_000,
        snr_db: -10,
        mode: "FT8",
        time_ms: 51_600_000,
    }
}

#[test]
fn a_cluster_destination_gets_one_line_ending_in_crlf() {
    let d = datagrams(Format::Cluster, &payload(None)).expect("a line is always sendable");
    assert_eq!(d.len(), 1);
    assert_eq!(d[0], b"DX de DXCA:  14074.0  K1JT  FT8 -10 dB  1428Z\r\n".to_vec());
}

#[test]
fn a_wsjtx_destination_gets_status_then_decode_and_needs_a_call() {
    let d = datagrams(Format::Wsjtx, &payload(Some("CQ K1JT FN20"))).expect("a call was given");
    let (status, decode) = dxca::wsjtx::encode_spot("CQ K1JT FN20", 14_074_000, -10, "FT8", 51_600_000);
    assert_eq!(d, vec![status, decode]);
    assert!(datagrams(Format::Wsjtx, &payload(None)).is_none());
    assert!(datagrams(Format::Wsjtx, &payload(Some(""))).is_none());
    assert!(datagrams(Format::Passthrough, &payload(Some("CQ K1JT FN20"))).is_none());
}

#[test]
fn input_splits_at_either_line_end() {
    let mut pending = b"LOGIN vu2cpl\r\nsecret\npart".to_vec();
    assert_eq!(take_line(&mut pending), Some(b"LOGIN vu2cpl".to_vec()));
    assert_eq!(take_line(&mut pending), Some(Vec::new()), "the LF of a CRLF is an empty line");
    assert_eq!(take_line(&mut pending), Some(b"secret".to_vec()));
    assert_eq!(take_line(&mut pending), None);
    assert_eq!(pending, b"part".to_vec(), "an unterminated tail waits for the rest");
}

#[test]
fn an_overlong_unterminated_line_is_dropped() {
    let mut short = vec![b'a'; MAX_LINE];
    bound_input(&mut short);
    assert_eq!(short.len(), MAX_LINE);
    let mut long = vec![b'a'; MAX_LINE + 1];
    bound_input(&mut long);
    assert!(long.is_empty());
}

#[test]
fn three_failed_logins_hang_up() {
    assert!(!must_hang_up(2));
    assert!(must_hang_up(3));
}

#[test]
fn mqtt_and_udp_destinations_take_the_same_spots() {
    let mut allowed = StrSet::new();
    allowed.insert("RBN".into());
    let mut cfg = mqtt_cfg("base");
    cfg.allowed_sources = StrSet::new();
    cfg.allowed_sources.insert("RBN".into());
    for (source, verdict, unfiltered) in [("RBN", true, false), ("RBN", false, false), ("MSHV", true, false), ("RBN", false, true)] {
        cfg.unfiltered = unfiltered;
        assert_eq!(
            cfg.accepts(source, verdict),
            takes_spot(Format::Cluster, &allowed, unfiltered, source, verdict),
            "{source} {verdict} {unfiltered}"
        );
    }
}

#[test]
fn a_received_line_is_decoded_and_trimmed() {
    assert_eq!(line_text(b"  SH/DX 20  \r"), "SH/DX 20");
    assert_eq!(line_text(b"caf\xc3\xa9"), "caf\u{e9}");
    assert_eq!(line_text(b"a\xffb"), "a\u{fffd}b");
    assert_eq!(line_text(b""), "");
}

#[test]
fn received_cluster_text_drops_negotiation_and_replaces_bad_bytes() {
    assert_eq!(received_text(&[0xff, 0xfb, 0x01, b'o', b'k', 0xff, 0xff]), "ok\u{fffd}");
    assert_eq!(received_text(b"DX de W1AW"), "DX de W1AW");
    assert_eq!(received_text(&[b'a', 0x80, b'b']), "a\u{fffd}b");
}

use dxca::dxcluster::client::{ClientEvent, ClientSession};
use dxca::dxcluster::supervise::{watchdog, Backoff};
use dxca::dxcluster::wire::{classify_line, dx_command, is_float_text, parse_spot_line, strip_telnet_iac, ClusterSpot, LineClass};
use dxca::dxcluster::{ClientConfig, SpotKind};

#[test]
fn parses_a_spider_line() {
    let p = parse_spot_line("DX de W3LPL:     14074.0  K1JT           FT8 -10 dB                  1428Z").unwrap();
    assert_eq!(p.spotter, "W3LPL");
    assert_eq!(p.freq_khz, "14074.0");
    assert_eq!(p.freq_khz.parse::<f64>().unwrap(), 14074.0);
    assert_eq!(p.call, "K1JT");
    assert_eq!(p.snr_db, Some(-10));
    assert_eq!(p.mode.as_deref(), Some("FT8"));
    assert_eq!((p.hour, p.minute), (14, 28));
    assert_eq!(p.comment, "FT8 -10 dB");
}

#[test]
fn skimmer_suffix_and_grids() {
    let p = parse_spot_line("DX de K1ABC-#:   14025.3  W9XYZ          12 dB  22 WPM  CQ  FN20    1423Z EM12").unwrap();
    assert!(p.spotter_is_skimmer);
    assert_eq!(p.spotter, "K1ABC");
    assert_eq!(p.mode.as_deref(), Some("CW"));
    assert_eq!(p.wpm, Some(22));
    assert_eq!(p.grid.as_deref(), Some("FN20"));
    assert_eq!(p.spotter_grid.as_deref(), Some("EM12"));
    assert_eq!(p.kind, SpotKind::Cq);
}

#[test]
fn classification() {
    assert!(matches!(classify_line("WWV de VE7CC <18>: SFI=150"), LineClass::Wwv));
    assert!(matches!(classify_line("To ALL de W6BT: hi"), LineClass::Announce));
    assert!(matches!(classify_line("W6BT de GB7DJK 11-Jul-2026 0923Z dxspider >"), LineClass::Prompt));
    assert!(matches!(classify_line("random banner text"), LineClass::Other));
}

#[test]
fn a_line_without_a_time_or_a_number_is_no_spot() {
    assert!(parse_spot_line("DX de W3LPL: 14074.0 K1JT FT8 -10 dB").is_none());
    assert!(parse_spot_line("DX de W3LPL: fourteen K1JT FT8 1428Z").is_none());
    assert!(parse_spot_line("DX de W3LPL: 14074.0 K1JT FT8 2460Z").is_none(), "no 24 o'clock");
    assert!(parse_spot_line("dx de W3LPL: 14074.0 K1JT 1428Z").is_none(), "the prefix is exact");
}

#[test]
fn the_float_grammar_is_the_standard_one() {
    for ok in ["14074.0", "7", ".5", "5.", "+1e3", "-2.5E-1", "inf", "NaN", "Infinity"] {
        assert!(is_float_text(&ok.chars().collect::<Vec<_>>()), "{ok}");
        assert!(ok.parse::<f64>().is_ok(), "{ok}");
    }
    for bad in ["", ".", "1..2", "e5", "1e", "0x10", "14,074", "infinite"] {
        assert!(!is_float_text(&bad.chars().collect::<Vec<_>>()), "{bad}");
        assert!(bad.parse::<f64>().is_err(), "{bad}");
    }
}

#[test]
fn the_kind_prefers_the_last_token_and_dx_only_counts_last() {
    let kind = |c: &str| parse_spot_line(&format!("DX de A1A: 14000.0 B2B {c} 1200Z")).unwrap().kind;
    assert_eq!(kind("CQ DX"), SpotKind::Dx);
    assert_eq!(kind("DX CQ"), SpotKind::Cq);
    assert_eq!(kind("BEACON up 5 FN20"), SpotKind::Bcn);
    assert_eq!(kind("DX up"), SpotKind::Unknown);
    assert_eq!(kind("NCDXF beacon"), SpotKind::Ncdxf);
}

#[test]
fn a_dx_command_carries_report_speed_kind_and_grid() {
    let s = ClusterSpot {
        call: "K1JT".into(),
        mode: "CW".into(),
        snr_db: 12,
        wpm: 22,
        grid: Some("FN20".into()),
        kind: SpotKind::Cq,
    };
    assert_eq!(dx_command(&s, "14025.3"), "dx 14025.3 K1JT 12 dB 22 WPM CQ FN20\r\n");
    let ft8 = ClusterSpot { mode: "FT8".into(), snr_db: -7, grid: Some("RR7".into()), kind: SpotKind::Unknown, ..s };
    assert_eq!(dx_command(&ft8, "14074.0"), "dx 14074.0 K1JT -7 dB FT8\r\n");
}

fn cfg() -> ClientConfig {
    ClientConfig::new("127.0.0.1", 7300, "VU2CPL")
}

const SPOT_LINE: &str = "DX de W3LPL:   14074.0  K1JT          FT8 -10 dB                  1428Z\r\n";

fn proven_events(ev: &[ClientEvent]) -> usize {
    ev.iter().filter(|e| **e == ClientEvent::Proven).count()
}

#[test]
fn login_prompt_then_node_prompt_proves() {
    let mut s = ClientSession::new(&cfg(), 100);
    assert!(s.on_bytes("login: ", 100).is_empty());
    assert_eq!(s.take_output(), vec!["VU2CPL\r\n".to_string()]);
    assert!(!s.proven());

    let ev = s.on_bytes("VU2CPL de GB7DJK 27-Aug-2026 0923Z dxspider >\r\n", 101);
    assert!(ev.contains(&ClientEvent::LoggedIn));
    assert_eq!(proven_events(&ev), 1);
    assert!(s.ready() && s.proven());
}

#[test]
fn password_prompt_gets_the_password() {
    let mut c = cfg();
    c.password = "secret".into();
    let mut s = ClientSession::new(&c, 100);
    s.on_bytes("login: ", 100);
    s.take_output();
    s.on_bytes("password: ", 101);
    assert_eq!(s.take_output(), vec!["secret\r\n".to_string()]);
    s.on_bytes("password: ", 102);
    assert!(s.take_output().is_empty());
}

#[test]
fn welcome_line_is_a_login_ack() {
    let mut s = ClientSession::new(&cfg(), 100);
    s.on_bytes("login: ", 100);
    s.take_output();
    let ev = s.on_bytes("Hello VU2CPL, welcome to the AR-Cluster node\r\n", 101);
    assert!(ev.contains(&ClientEvent::LoggedIn));
    assert_eq!(proven_events(&ev), 1);
    assert!(s.proven());
}

#[test]
fn timeout_readies_but_does_not_prove() {
    let mut s = ClientSession::new(&cfg(), 100);
    let ev = s.on_tick(131);
    assert!(ev.contains(&ClientEvent::LoggedIn));
    assert_eq!(proven_events(&ev), 0, "timeout must not prove");
    assert!(s.ready() && !s.proven());

    let ev = s.on_bytes(SPOT_LINE, 200);
    assert_eq!(proven_events(&ev), 1);
    assert!(s.proven());
}

#[test]
fn data_before_any_prompt_means_a_no_login_feed() {
    let mut s = ClientSession::new(&cfg(), 100);
    let ev = s.on_bytes(SPOT_LINE, 100);
    assert!(ev.contains(&ClientEvent::LoggedIn));
    assert_eq!(proven_events(&ev), 1);
    assert!(matches!(ev.last(), Some(ClientEvent::Spot { spot, .. }) if spot.call == "K1JT"));
}

#[test]
fn db0sue_dxspider_logs_in_and_proves() {
    let mut s = ClientSession::new(&cfg(), 100);
    assert!(s.on_bytes("* Welcome, DXer! *\r\nlogin: ", 100).is_empty());
    assert_eq!(s.take_output(), vec!["VU2CPL\r\n".to_string()]);
    assert!(!s.proven(), "a prompt alone is not evidence");

    let ev = s.on_bytes(
        "Hello Manoj Ramawarrier, this is DO5SSB-2 in Frankfurt, Germany\r\n\
         running DXSpider V1.57 build 633\r\n\
         Capabilities: ve7cc rbn\r\n\
         ***********************************************************\r\n\
         **  **    You are connected to 'spider.dxtron.com'    **  **\r\n\
         ***********************************************************\r\n\
         Nodes: 15/406 Users [Loc/Clr]: 101/3995 Max: 233/7822\r\n\
         VU2CPL de DO5SSB-2 27-Aug-2026 0508Z dxspider >\r\n",
        101,
    );
    assert!(ev.contains(&ClientEvent::LoggedIn));
    assert_eq!(proven_events(&ev), 1);
    assert!(s.ready() && s.proven());

    let ev = s.on_bytes(
        "DX de SV1OML:    24915.0  JR3UIC       FT8 KM18vc -> PM75 73 t u      0508Z\x07\x07\r\n",
        102,
    );
    assert!(
        matches!(ev.last(), Some(ClientEvent::Spot { spot, .. }) if spot.call == "JR3UIC"),
        "expected a JR3UIC spot, got {ev:?}"
    );
}

#[test]
fn iac_prefixed_login_prompt_still_matches() {
    let mut data = vec![0xFF, 0xFB, 0x03, 0xFF, 0xFB, 0x01];
    data.extend_from_slice(b"login: ");
    let cleaned = strip_telnet_iac(&data);
    let mut s = ClientSession::new(&cfg(), 100);
    s.on_bytes(&String::from_utf8_lossy(&cleaned), 100);
    assert_eq!(s.take_output(), vec!["VU2CPL\r\n".to_string()]);
}

#[test]
fn init_commands_are_paced_and_the_keepalive_follows() {
    let mut s = ClientSession::new(&cfg(), 100);
    s.on_bytes(SPOT_LINE, 100);
    assert_eq!(s.take_output(), vec!["set/page 0\r\n".to_string()]);
    s.on_tick(101);
    assert!(s.take_output().is_empty(), "paced two seconds apart");
    s.on_tick(102);
    assert_eq!(s.take_output(), vec!["set/dxgrid on\r\n".to_string()]);
    s.on_tick(401);
    assert!(s.take_output().is_empty());
    s.on_tick(402);
    assert_eq!(s.take_output(), vec!["\r\n".to_string()], "keepalive after five idle minutes");
}

#[test]
fn lines_are_dropped_until_logged_in() {
    let mut s = ClientSession::new(&cfg(), 100);
    assert!(!s.send_line("sh/dx  ", 100));
    s.on_tick(130);
    s.take_output();
    assert!(s.send_line("sh/dx  ", 131));
    assert_eq!(s.take_output(), vec!["sh/dx\r\n".to_string()]);
}

#[test]
fn the_backoff_escalates_and_only_a_proven_session_resets_it() {
    let mut b = Backoff::new(&[10, 30, 60]);
    assert_eq!(b.next_delay(), 10);
    b.connection_ended(false);
    assert_eq!(b.next_delay(), 30, "an unproven connection keeps escalating");
    assert_eq!(b.next_delay(), 60);
    assert_eq!(b.next_delay(), 60, "the last entry repeats");
    b.connection_ended(true);
    assert_eq!(b.next_delay(), 10, "a proven session earns the fast retry");
}

#[test]
fn an_empty_schedule_waits_ten_seconds() {
    let mut b = Backoff::new(&[]);
    assert_eq!(b.next_delay(), 10);
    assert_eq!(b.next_delay(), 10);
}

#[test]
fn the_watchdog_recycles_the_unproven_and_the_silent() {
    let cfg = ClientConfig::new("node.example", 7300, "VU2CPL");
    assert_eq!(watchdog(&cfg, false, 119, 0), None);
    assert_eq!(watchdog(&cfg, false, 120, 0).as_deref(), Some("no login ack within 120s"));
    assert_eq!(watchdog(&cfg, true, 10_000, 899), None, "a proven session is judged by silence alone");
    assert_eq!(watchdog(&cfg, true, 10_000, 900).as_deref(), Some("silent for 900s"));
    assert_eq!(watchdog(&cfg, false, 0, 100_000), None, "silence does not count before proof");
}

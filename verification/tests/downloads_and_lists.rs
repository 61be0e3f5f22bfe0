use std::io::Write;

use dxca::clublog::{adif_form, adif_url, cty_url, gunzip_if_needed, urlencode, Endpoints};
use dxca::iota::IotaDirectory;
use dxca::lotw::{is_user, parse_users};
use dxca::lotwreport::validate;
use dxca::telegram::{after_attempt, configured, escape_html, Attempt, NextStep, Telegram};

#[test]
fn urlencoding() {
    assert_eq!(urlencode("a b+c@d"), "a%20b%2Bc%40d");
}

#[test]
fn non_ascii_is_encoded_byte_by_byte() {
    assert_eq!(urlencode("ø"), "%C3%B8");
    assert_eq!(urlencode("-_.~Az9"), "-_.~Az9");
    assert_eq!(urlencode("€"), "%E2%82%AC");
}

#[test]
fn gunzip_detection() {
    let mut enc = flate2::write::GzEncoder::new(Vec::new(), flate2::Compression::default());
    enc.write_all(b"<clublog/>").unwrap();
    let gz = enc.finish().unwrap();
    assert_eq!(gunzip_if_needed(gz).unwrap(), b"<clublog/>");
    assert_eq!(gunzip_if_needed(b"plain".to_vec()).unwrap(), b"plain");
}

#[test]
fn a_corrupt_gzip_body_is_an_error() {
    assert!(gunzip_if_needed(vec![0x1f, 0x8b, 0, 0]).is_err());
}

#[test]
fn request_addresses_are_built_from_the_endpoints() {
    let ep = Endpoints::single_base("http://127.0.0.1:8080//");
    assert_eq!(ep.cty_base, "http://127.0.0.1:8080");
    assert_eq!(cty_url(&ep, "k y"), "http://127.0.0.1:8080/cty.php?api=k%20y");
    assert_eq!(adif_url(&Endpoints::default()), "https://clublog.org/getadif.php");
    assert_eq!(adif_form("VU2CPL", "a@b.c", "p&w"), "email=a%40b.c&password=p%26w&call=VU2CPL");
}

#[test]
fn parse_and_lookup() {
    let users = parse_users("# header\nK1JT,2026-08-01,12:00:00\nVU2CPL\t2026-08-02\nbad\n73,x\n");
    assert_eq!(users.len(), 2);
    assert!(is_user(&users, "k1jt"));
    assert!(is_user(&users, "K1JT/4"));
    assert!(is_user(&users, "VP8/VU2CPL"));
    assert!(!is_user(&users, "N0CALL"));
}

#[test]
fn a_full_size_user_list_is_held_and_searched_whole() {
    let mut text = String::new();
    for n in 0..150_000u32 {
        text.push_str(&format!("K{n}A,2026-08-01,12:00:00\n"));
    }
    text.push_str("K0A,2026-08-02,12:00:00\n");
    let users = parse_users(&text);
    assert_eq!(users.len(), 150_000, "a repeated call is held once");
    assert!(is_user(&users, "k149999a"));
    assert!(is_user(&users, "K77A/P"));
    assert!(!is_user(&users, "K150000A"));
}

#[test]
fn carriage_returns_end_lines_and_an_empty_list_knows_nobody() {
    let users = parse_users("w1aw\r\nk1jt\r\n");
    assert_eq!(users.len(), 2);
    assert!(users.contains("W1AW"));
    assert!(!is_user(&parse_users(""), "W1AW"));
}

#[test]
fn html_and_junk_are_refused_adif_passes() {
    assert!(validate("<HTML><body>password incorrect").is_err());
    assert!(validate("<!DOCTYPE html><p>login</p>").is_err());
    assert!(validate("plain text that is not a report").is_err());
    assert!(validate("<APP_LoTW_LASTQSL:19>2026-08-30 00:00:00\n<eoh>\n").is_ok());
    assert!(validate("header\n<eoh>\n<CALL:4>W8AA<eor>").is_ok());
}

#[test]
fn the_refusals_say_which_kind() {
    assert_eq!(
        validate("<html>").unwrap_err(),
        "LoTW rejected the login — check the LoTW username and password"
    );
    assert_eq!(validate("junk").unwrap_err(), "LoTW report: response is not ADIF");
}

#[test]
fn parses_refno_and_name_and_refuses_small() {
    let mut items: Vec<String> = (1..=600).map(|i| format!(r#"{{"refno":"AS-{i:03}","name":"Group {i}"}}"#)).collect();
    items.push(r#"{"refno":"nonsense","name":"skipped"}"#.into());
    let text = format!("[{}]", items.join(","));
    let dir = IotaDirectory::parse(&text).unwrap();
    assert_eq!(dir.len(), 600, "malformed refno skipped");
    assert!(dir.is_valid("AS-003"));
    assert_eq!(dir.name("AS-003"), Some("Group 3"));
    assert!(!dir.is_valid("EU-001"));

    assert!(IotaDirectory::parse("[]").is_err(), "empty refused");
    assert!(IotaDirectory::parse("<html>err</html>").is_err());
}

#[test]
fn iota_refusals_are_explained() {
    assert_eq!(
        IotaDirectory::parse("[]").err().unwrap(),
        "IOTA parse: only 0 groups — refusing a suspiciously small directory"
    );
    assert_eq!(IotaDirectory::parse("{}").err().unwrap(), "IOTA parse: not a JSON array");
    assert!(IotaDirectory::parse("nope").err().unwrap().starts_with("IOTA parse: "));
    assert!(IotaDirectory::default().is_empty());
}

#[test]
fn references_are_normalised_and_a_missing_name_is_empty() {
    let mut items: Vec<String> = (1..=500).map(|i| format!(r#"{{"refno":"eu-{i}"}}"#)).collect();
    items.push(r#"{"name":"no reference"}"#.into());
    let dir = IotaDirectory::parse(&format!("[{}]", items.join(","))).unwrap();
    assert_eq!(dir.len(), 500);
    assert_eq!(dir.name("EU-007"), Some(""));
}

#[test]
fn escaping() {
    assert_eq!(escape_html("a<b> & c"), "a&lt;b&gt; &amp; c");
}

#[test]
fn the_bot_api_base_loses_its_trailing_slash() {
    assert_eq!(Telegram::with_base("http://127.0.0.1:9/").base, "http://127.0.0.1:9");
    assert_eq!(Telegram::default().base, "https://api.telegram.org");
    assert_eq!(Telegram::default().retry_delay, std::time::Duration::from_secs(2));
}

#[test]
fn the_send_address_names_the_bot() {
    let t = Telegram::with_base("http://127.0.0.1:9000/");
    assert_eq!(t.send_url("tok"), "http://127.0.0.1:9000/bottok/sendMessage");
}

#[test]
fn a_missing_token_or_chat_is_refused_before_any_request() {
    assert_eq!(configured("tok", "chat"), Ok(()));
    assert_eq!(configured("", "chat"), Err("bot token / chat id not configured".to_string()));
    assert_eq!(configured("tok", ""), Err("bot token / chat id not configured".to_string()));
}

#[test]
fn a_transport_failure_earns_exactly_one_retry() {
    assert!(matches!(after_attempt(None, Attempt::Transport("timed out".into())), NextStep::RetryAfterPause));
    match after_attempt(Some("timed out"), Attempt::Transport("reset".into())) {
        NextStep::Finish(Err(e)) => {
            assert_eq!(e, "telegram send: reset (retried; first attempt: timed out)")
        }
        _ => panic!("the second failure is final"),
    }
    assert!(matches!(after_attempt(Some("timed out"), Attempt::Delivered), NextStep::Finish(Ok(()))));
}

#[test]
fn an_http_rejection_is_final_at_once() {
    match after_attempt(None, Attempt::Refused("status code 400".into())) {
        NextStep::Finish(Err(e)) => assert_eq!(e, "telegram send: status code 400"),
        _ => panic!("a rejection is never retried"),
    }
    assert!(matches!(after_attempt(None, Attempt::Delivered), NextStep::Finish(Ok(()))));
}

use dxca::adif::parse;

#[test]
fn parses_records_and_flushes_trailing() {
    let adif = "<ADIF_VER:5>3.1.0<eoh>\
                <CALL:6>VU2CPL<BAND:3>20M<MODE:3>FT8<LOTW_QSL_RCVD:1>Y<eor>\n\
                <CALL:4>P5DX<BAND:3>40M<MODE:2>CW";
    let recs = parse(adif);
    assert_eq!(recs.len(), 2);
    // The header field leaks into the first record.
    assert_eq!(recs[0].field("ADIF_VER"), Some("3.1.0"));
    assert_eq!(recs[0].call().as_deref(), Some("VU2CPL"));
    assert!(recs[0].is_confirmed());
    // A trailing record without <eor> is flushed.
    assert_eq!(recs[1].call().as_deref(), Some("P5DX"));
    assert!(!recs[1].is_confirmed());
}

#[test]
fn lengths_count_characters_not_bytes() {
    // "Tolløse" is 7 characters but 8 UTF-8 bytes.
    let adif = "<NAME:7>Tolløse<CALL:6>OZ7IGY<eor>";
    let recs = parse(adif);
    assert_eq!(recs[0].field("NAME"), Some("Tolløse"));
    assert_eq!(recs[0].call().as_deref(), Some("OZ7IGY"));
}

#[test]
fn confirmed_variants() {
    for (field, val, expect) in [
        ("QSL_RCVD", "V", true),
        ("EQSL_QSL_RCVD", "y", true),
        ("APP_CLUBLOG_QSO_QSL", "Y", true),
        ("QSL_RCVD", "N", false),
        ("QSL_SENT", "Y", false),
    ] {
        let adif = format!("<CALL:4>TEST<{field}:{}>{val}<eor>", val.len());
        assert_eq!(parse(&adif)[0].is_confirmed(), expect, "{field}={val}");
    }
}

#[test]
fn malformed_tags_are_skipped() {
    let recs = parse("<NOLEN><CALL:6>VU2CPL<BAD:x>zz<eor>");
    assert_eq!(recs[0].call().as_deref(), Some("VU2CPL"));
    assert!(recs[0].field("NOLEN").is_none());
}

#[test]
fn record_accessors_read_their_fields() {
    let recs = parse(
        "<CALL:5>K1ABC<QSO_DATE:8>20240315<TIME_ON:4>1230<DXCC:3>291<CQZ:2>05\
         <STATE:2>MA<IOTA:6>NA-046<GRIDSQUARE:6>FN42ab<eor>",
    );
    let r = &recs[0];
    assert_eq!(r.qso_date(), Some("20240315"));
    assert_eq!(r.time_on(), Some("1230"));
    assert_eq!(r.dxcc(), Some(291));
    assert_eq!(r.cqz(), Some(5));
    assert_eq!(r.state().as_deref(), Some("MA"));
    assert_eq!(r.iota(), Some("NA-046"));
    assert_eq!(r.qso_year(), Some(2024));
    assert_eq!(r.qso_datetime_unix(), Some(1_710_505_800));
}

#[test]
fn an_empty_document_has_no_records() {
    assert!(parse("").is_empty());
    assert!(parse("<eoh>").is_empty());
}

use apcaccess::framing::{has_terminator, read_step, request_frame};
use apcaccess::parse::entry_of_record;
use apcaccess::text::{compare_text, ends_with_text};
use apcaccess::units::strip_unit_from_line;
use apcaccess::{fetch_stats, parse, parse_response, split, strip_units_from_lines, ApcAccessError, Snapshot};

const SAMPLE: &str = "\x001APC      : 001,036,0876\n\x00\x001STATUS   : ONLINE\n\x00  \n\x00\x00";

#[test]
fn test_split() {
    let raw_status = "\x001APC      : 001,036,0876\n\x00\x001STATUS   : ONLINE\n\x00  \n\x00\x00";
    let lines = split(raw_status);
    assert_eq!(lines.len(), 2);
    assert_eq!(lines[0], "APC      : 001,036,0876");
    assert_eq!(lines[1], "STATUS   : ONLINE");
}

#[test]
fn test_parse() {
    let raw_status = "\x001APC      : 001,036,0876\n\x00\x001STATUS   : ONLINE\n\x00  \n\x00\x00";
    let parsed = parse(raw_status, false);
    assert_eq!(parsed.get("APC"), Some(&"001,036,0876".to_string()));
    assert_eq!(parsed.get("STATUS"), Some(&"ONLINE".to_string()));
}

#[test]
fn test_strip_units() {
    let lines = vec![
        "LINEV    : 120.0 Volts".to_string(),
        "LOADPCT  : 15.0 Percent".to_string(),
        "BCHARGE  : 100.0 Percent".to_string(),
        "TIMELEFT : 45.0 Minutes".to_string(),
    ];
    let stripped = strip_units_from_lines(&lines);
    assert_eq!(stripped[0], "LINEV    : 120.0");
    assert_eq!(stripped[1], "LOADPCT  : 15.0");
    assert_eq!(stripped[2], "BCHARGE  : 100.0");
    assert_eq!(stripped[3], "TIMELEFT : 45.0");
}

#[test]
fn split_of_short_input_is_empty() {
    assert!(split("").is_empty());
    assert!(split("  \n\x00").is_empty());
    assert!(split("abcd").is_empty());
}

#[test]
fn split_of_terminator_alone_is_empty() {
    assert!(split("  \n\x00\x00").is_empty());
}

#[test]
fn split_drops_short_pieces_and_keeps_order() {
    let raw = "\x00\x05B : 2\n\x00ab\x00\x04A : 1\n\x00  \n\x00\x00";
    let lines = split(raw);
    assert_eq!(lines, vec!["B : 2".to_string(), "A : 1".to_string()]);
}

#[test]
fn split_without_terminator_cuts_last_five_characters() {
    let lines = split("\x00xKEY : VALUE\n");
    assert_eq!(lines, vec!["KEY : ".to_string()]);
}

#[test]
fn split_ignores_the_length_character() {
    let lines = split("\x00zK : v\n\x00  \n\x00\x00");
    assert_eq!(lines, vec!["K : v".to_string()]);
}

#[test]
fn scenario_parse_gives_two_entries() {
    let parsed = parse(SAMPLE, false);
    assert_eq!(parsed.len(), 2);
    assert_eq!(parsed.get("APC").map(|s| s.as_str()), Some("001,036,0876"));
    assert_eq!(parsed.get("STATUS").map(|s| s.as_str()), Some("ONLINE"));
    assert_eq!(parsed.get("MODEL"), None);
}

#[test]
fn strip_single_record_volts() {
    assert_eq!(strip_unit_from_line("LINEV    : 120.0 Volts"), "LINEV    : 120.0");
}

#[test]
fn strip_percent() {
    assert_eq!(strip_unit_from_line("LOADPCT  : 15.0 Percent"), "LOADPCT  : 15.0");
}

#[test]
fn strip_multi_word_unit_whole() {
    assert_eq!(strip_unit_from_line("LOADPCT  : 15.0 Percent Load Capacity"), "LOADPCT  : 15.0");
}

#[test]
fn strip_needs_a_space_before_the_unit() {
    assert_eq!(strip_unit_from_line("X : 5Volts"), "X : 5Volts");
    assert_eq!(strip_unit_from_line("ITEMP    : 29.2 C"), "ITEMP    : 29.2");
    assert_eq!(strip_unit_from_line("NOMPOWER : 865 Watts"), "NOMPOWER : 865");
}

#[test]
fn strip_removes_only_one_unit() {
    let once = strip_unit_from_line("V : 1 Volts Volts");
    assert_eq!(once, "V : 1 Volts");
    assert_eq!(strip_unit_from_line(&once), "V : 1");
}

#[test]
fn strip_twice_is_no_op_without_unit() {
    let once = strip_unit_from_line("LINEV    : 120.0 Volts");
    let twice = strip_unit_from_line(&once);
    assert_eq!(once, twice);
    assert_eq!(strip_unit_from_line("STATUS   : ONLINE"), "STATUS   : ONLINE");
}

#[test]
fn parse_with_units_stripped() {
    let raw = "\x00\x18LINEV    : 120.0 Volts\n\x00\x18LOADPCT  : 15.0 Percent\n\x00  \n\x00\x00";
    let parsed = parse(raw, true);
    assert_eq!(parsed.get("LINEV").map(|s| s.as_str()), Some("120.0"));
    assert_eq!(parsed.get("LOADPCT").map(|s| s.as_str()), Some("15.0"));
    let kept = parse(raw, false);
    assert_eq!(kept.get("LINEV").map(|s| s.as_str()), Some("120.0 Volts"));
}

#[test]
fn parse_drops_records_without_key() {
    let raw = "\x00xNO SEPARATOR\n\x00x   : orphan\n\x00xK:v:w\n\x00  \n\x00\x00";
    let parsed = parse(raw, false);
    assert_eq!(parsed.len(), 1);
    assert_eq!(parsed.get("K").map(|s| s.as_str()), Some("v:w"));
}

#[test]
fn parse_trims_keys_and_values() {
    let raw = "\x00x  KEY \t:   some value  \n\x00  \n\x00\x00";
    let parsed = parse(raw, false);
    let (k, v) = parsed.entry(0);
    assert_eq!(k, "KEY");
    assert_eq!(v, "some value");
}

#[test]
fn parse_last_value_wins() {
    let raw = "\x00xA : 1\n\x00xA : 2\n\x00  \n\x00\x00";
    let parsed = parse(raw, false);
    assert_eq!(parsed.len(), 1);
    assert_eq!(parsed.get("A").map(|s| s.as_str()), Some("2"));
}

#[test]
fn snapshot_is_sorted_by_key() {
    let raw = "\x00xZETA : 1\n\x00xALPHA : 2\n\x00xMID : 3\n\x00xAB : 4\n\x00  \n\x00\x00";
    let parsed = parse(raw, false);
    let keys: Vec<String> = (0..parsed.len()).map(|i| parsed.entry(i).0.clone()).collect();
    assert_eq!(keys, vec!["AB", "ALPHA", "MID", "ZETA"]);
}

#[test]
fn round_trip_of_wire_records() {
    let pairs = [("DATE", "2024-01-01 10:00:00 +0000"), ("BCHARGE", "100.0"), ("CABLE", "USB Cable")];
    let mut raw = String::new();
    for (k, v) in pairs.iter() {
        let text = format!("{} : {}", k, v);
        raw.push('\x00');
        raw.push(char::from((text.len() + 1) as u8));
        raw.push_str(&text);
        raw.push('\n');
    }
    raw.push_str("  \n\x00\x00");
    let parsed = parse(&raw, false);
    assert_eq!(parsed.len(), pairs.len());
    for (k, v) in pairs.iter() {
        assert_eq!(parsed.get(k).map(|s| s.as_str()), Some(*v));
    }
}

#[test]
fn snapshot_insert_and_get() {
    let mut s = Snapshot::new();
    assert_eq!(s.len(), 0);
    s.insert("B".to_string(), "2".to_string());
    s.insert("A".to_string(), "1".to_string());
    s.insert("B".to_string(), "3".to_string());
    assert_eq!(s.len(), 2);
    assert_eq!(s.entry(0), (&"A".to_string(), &"1".to_string()));
    assert_eq!(s.get("B").map(|x| x.as_str()), Some("3"));
}

#[test]
fn request_frame_is_status_command() {
    assert_eq!(request_frame(), b"\x00\x06status".to_vec());
}

#[test]
fn read_step_stops_on_terminator_or_close() {
    let mut acc: Vec<u8> = Vec::new();
    assert!(!read_step(&mut acc, b"\x00\x10STATUS : ONLINE\n"));
    assert!(!read_step(&mut acc, b"\x00  \n"));
    assert!(read_step(&mut acc, b"\x00\x00"));
    assert_eq!(acc, b"\x00\x10STATUS : ONLINE\n\x00  \n\x00\x00".to_vec());
    let mut other: Vec<u8> = b"abc".to_vec();
    assert!(read_step(&mut other, b""));
    assert_eq!(other, b"abc".to_vec());
}

#[test]
fn terminator_detection() {
    assert!(has_terminator(&b"  \n\x00\x00".to_vec()));
    assert!(!has_terminator(&b" \n\x00\x00".to_vec()));
    assert!(!has_terminator(&b"  \n\x00\x00x".to_vec()));
}

#[test]
fn parse_response_decodes_invalid_bytes() {
    let mut bytes: Vec<u8> = Vec::new();
    bytes.extend_from_slice(b"\x00\xffSTATUS : ONLINE\n\x00\x0bBAD : \xfe\n\x00  \n\x00\x00");
    let parsed = parse_response(&bytes, false);
    assert_eq!(parsed.get("STATUS").map(|s| s.as_str()), Some("ONLINE"));
    assert_eq!(parsed.get("BAD").map(|s| s.as_str()), Some("\u{fffd}"));
}

#[test]
fn fetch_stats_passes_failure_through() {
    let err = std::io::Error::new(std::io::ErrorKind::ConnectionRefused, "refused");
    let r = fetch_stats(Err(ApcAccessError::from(err)), true);
    match r {
        Err(ApcAccessError::IoError(e)) => assert_eq!(e.kind(), std::io::ErrorKind::ConnectionRefused),
        Ok(_) => panic!("a failure must not yield a snapshot"),
    }
}

#[test]
fn fetch_stats_parses_response() {
    let r = fetch_stats(Ok(SAMPLE.as_bytes().to_vec()), true);
    let snap = r.expect("bytes parse");
    assert_eq!(snap.get("STATUS").map(|s| s.as_str()), Some("ONLINE"));
}

#[test]
fn entry_of_record_cuts_at_first_colon() {
    assert_eq!(entry_of_record("DATE : 10:00"), Some(("DATE".to_string(), "10:00".to_string())));
    assert_eq!(entry_of_record("no separator"), None);
    assert_eq!(entry_of_record(" : value"), None);
}

#[test]
fn text_helpers() {
    assert!(compare_text("AB", "ALPHA") < 0);
    assert!(compare_text("b", "a") > 0);
    assert_eq!(compare_text("x", "x"), 0);
    assert!(compare_text("", "a") < 0);
    assert!(ends_with_text("120.0 Volts", "Volts"));
    assert!(!ends_with_text("Volts", "120.0 Volts"));
}

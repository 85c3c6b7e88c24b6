use xenstore_win::codec::{make_payload, parse_nul_list, parse_nul_string};

#[test]
fn payload_of_path_and_value() {
    let p = make_payload(&["/local/domain/0/name", "mydomain"]);
    assert_eq!(p.len(), 30);
    assert_eq!(p, b"/local/domain/0/name\0mydomain\0".to_vec());
}

#[test]
fn payload_of_nothing_is_empty() {
    assert!(make_payload(&[]).is_empty());
}

#[test]
fn payload_of_empty_string_is_one_nul() {
    assert_eq!(make_payload(&[""]), vec![0u8]);
}

#[test]
fn payload_keeps_multibyte_text() {
    assert_eq!(make_payload(&["é"]), vec![0xc3, 0xa9, 0]);
}

#[test]
fn list_of_driver_reply() {
    let v = parse_nul_list(b"vm\0guest\0\0").unwrap();
    assert_eq!(v, vec!["vm", "guest"]);
}

#[test]
fn list_with_single_trailing_nul() {
    let v = parse_nul_list(b"vm\0guest\0").unwrap();
    assert_eq!(v, vec!["vm", "guest"]);
}

#[test]
fn list_without_final_nul_keeps_last_entry() {
    let v = parse_nul_list(b"a\0bc").unwrap();
    assert_eq!(v, vec!["a", "bc"]);
}

#[test]
fn list_of_empty_buffer_is_empty() {
    assert!(parse_nul_list(b"").unwrap().is_empty());
}

#[test]
fn list_of_lone_nul_is_empty() {
    assert!(parse_nul_list(b"\0").unwrap().is_empty());
}

#[test]
fn list_keeps_inner_empty_entries() {
    let v = parse_nul_list(b"a\0\0b\0").unwrap();
    assert_eq!(v, vec!["a", "", "b"]);
}

#[test]
fn list_with_invalid_utf8_fails() {
    assert!(parse_nul_list(b"ok\0\xff\xfe\0").is_err());
    assert!(parse_nul_list(b"\xc3\0").is_err());
}

#[test]
fn list_round_trip() {
    let texts = ["device", "vif", "0", "état"];
    let p = make_payload(&texts);
    assert_eq!(parse_nul_list(&p).unwrap(), texts.to_vec());
}

#[test]
fn list_round_trip_with_terminator() {
    let texts = ["a", "b"];
    let mut p = make_payload(&texts);
    p.push(0);
    assert_eq!(parse_nul_list(&p).unwrap(), texts.to_vec());
}

#[test]
fn value_of_empty_buffer_is_none() {
    assert_eq!(parse_nul_string(b"").unwrap(), None);
}

#[test]
fn value_strips_one_trailing_nul() {
    assert_eq!(parse_nul_string(b"abc\0").unwrap(), Some("abc"));
    assert_eq!(parse_nul_string(b"abc\0\0").unwrap(), Some("abc\0"));
}

#[test]
fn value_without_nul_is_unchanged() {
    assert_eq!(parse_nul_string(b"abc").unwrap(), Some("abc"));
}

#[test]
fn value_of_lone_nul_is_empty_text() {
    assert_eq!(parse_nul_string(b"\0").unwrap(), Some(""));
}

#[test]
fn value_with_invalid_utf8_fails() {
    assert!(parse_nul_string(b"\xff\0").is_err());
}

#[test]
fn final_empty_text_reads_as_list_terminator() {
    let p = make_payload(&["a", ""]);
    assert_eq!(p, b"a\0\0".to_vec());
    assert_eq!(parse_nul_list(&p).unwrap(), vec!["a"]);
}

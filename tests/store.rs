use xenstore_win::ioctl::{
    control_code, ctl_code, decode_directory_reply, decode_read_reply, directory_request,
    read_request, remove_request, reply_bytes, write_request, StoreError, StoreOp,
    FILE_ANY_ACCESS, FILE_DEVICE_UNKNOWN, METHOD_BUFFERED, REPLY_CAPACITY,
};

#[test]
fn ctl_code_packs_fields() {
    assert_eq!(ctl_code(0x22, 0x800, 0, 0), 0x0022_2000);
    assert_eq!(ctl_code(0x22, 0x801, 1, 2), 0x0022_a005);
    assert_eq!(
        ctl_code(FILE_DEVICE_UNKNOWN, 0x806, METHOD_BUFFERED, FILE_ANY_ACCESS),
        0x0022_2018
    );
}

#[test]
fn control_codes_of_requests() {
    assert_eq!(control_code(StoreOp::Read), 0x0022_2000);
    assert_eq!(control_code(StoreOp::Write), 0x0022_2004);
    assert_eq!(control_code(StoreOp::Directory), 0x0022_2008);
    assert_eq!(control_code(StoreOp::Remove), 0x0022_200c);
    assert_eq!(control_code(StoreOp::AddWatch), 0x0022_2014);
    assert_eq!(control_code(StoreOp::RemoveWatch), 0x0022_2018);
}

#[test]
fn requests_carry_code_payload_and_capacity() {
    let r = read_request("/a");
    assert_eq!((r.code, r.input.as_slice(), r.reply_capacity), (0x0022_2000, &b"/a\0"[..], REPLY_CAPACITY));
    let d = directory_request("/a");
    assert_eq!((d.code, d.input.as_slice(), d.reply_capacity), (0x0022_2008, &b"/a\0"[..], 4096));
    let w = write_request("/a", "v");
    assert_eq!((w.code, w.input.as_slice(), w.reply_capacity), (0x0022_2004, &b"/a\0v\0"[..], 0));
    let m = remove_request("/a");
    assert_eq!((m.code, m.input.as_slice(), m.reply_capacity), (0x0022_200c, &b"/a\0"[..], 0));
}

#[test]
fn reply_bytes_checks_reported_length() {
    let buf = [1u8, 2, 3, 4];
    assert_eq!(reply_bytes(&buf, 2), Some(&buf[..2]));
    assert_eq!(reply_bytes(&buf, 4), Some(&buf[..]));
    assert_eq!(reply_bytes(&buf, 5), None);
}

#[test]
fn directory_reply_is_truncated_to_reported_length() {
    let mut buf = vec![0u8; 4096];
    buf[..10].copy_from_slice(b"vm\0guest\0\0");
    buf[10] = b'x';
    let v = decode_directory_reply(&buf, 10).unwrap();
    assert_eq!(v, vec!["vm".to_string(), "guest".to_string()]);
}

#[test]
fn directory_reply_errors() {
    let buf = [b'a', 0];
    assert_eq!(decode_directory_reply(&buf, 3), Err(StoreError::InvalidEncoding));
    assert_eq!(decode_directory_reply(&[0xff, 0], 2), Err(StoreError::InvalidEncoding));
    assert_eq!(decode_directory_reply(&buf, 0), Ok(vec![]));
}

#[test]
fn read_reply_values() {
    assert_eq!(decode_read_reply(b"mydomain\0", 9), Ok("mydomain".to_string()));
    assert_eq!(decode_read_reply(b"mydomain\0", 4), Ok("mydo".to_string()));
    assert_eq!(decode_read_reply(b"\0", 0), Ok(String::new()));
    assert_eq!(decode_read_reply(b"\0", 1), Ok(String::new()));
}

#[test]
fn read_reply_errors() {
    assert_eq!(decode_read_reply(b"ab", 3), Err(StoreError::InvalidEncoding));
    assert_eq!(decode_read_reply(b"\xc3\x28\0", 3), Err(StoreError::InvalidEncoding));
}

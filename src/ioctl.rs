//! Control requests understood by the store device, and the decoding of its
//! replies.
use vstd::prelude::*;
use vstd::slice::slice_subrange;
use crate::codec::{
    list_texts, list_valid, make_payload, parse_nul_list, parse_nul_string, payload, value_text,
    value_valid, views_of,
};

verus! {

/// Device type tag of the store device.
pub const FILE_DEVICE_UNKNOWN: u32 = 0x22;

/// "Buffered" transfer method.
pub const METHOD_BUFFERED: u32 = 0;

/// "Any access" rights.
pub const FILE_ANY_ACCESS: u32 = 0;

/// Capacity of the reply buffer of a read or directory request. A reply that
/// would need more is not grown into: the request fails.
pub const REPLY_CAPACITY: usize = 4096;

/// The kinds of failure a caller of the store client sees.
#[derive(Clone, Copy, Debug, PartialEq, Eq, Structural)]
pub enum StoreError {
    /// No candidate device could be opened.
    DeviceNotFound,
    /// An operating system call failed with the given error code.
    IoFailure(i32),
    /// A reply was not valid UTF-8, broke the NUL conventions, or claimed more
    /// bytes than its buffer holds; or a request text held a NUL.
    InvalidEncoding,
    /// A device path detail did not fit the fixed detail buffer.
    PathTooLong,
}

/// The requests the store device accepts.
#[derive(Clone, Copy, Debug, PartialEq, Eq, Structural)]
pub enum StoreOp {
    Read,
    Write,
    Directory,
    Remove,
    AddWatch,
    RemoveWatch,
}

/// The numeric value of a control code built from its four fields, when each
/// field fits its slot.
pub open spec fn ctl_code_value(device_type: u32, function: u32, method: u32, access: u32) -> int {
    device_type as int * 0x10000 + access as int * 0x4000 + function as int * 4 + method as int
}

/// Builds a control code from a device type, a function number, a transfer
/// method and the access rights.
pub fn ctl_code(device_type: u32, function: u32, method: u32, access: u32) -> (r: u32)
    ensures
        r == (device_type << 16u32) | (access << 14u32) | (function << 2u32) | method,
        device_type < 0x10000 && access < 4 && function < 0x1000 && method < 4 ==> r
            == ctl_code_value(device_type, function, method, access),
{
    let r = (device_type << 16u32) | (access << 14u32) | (function << 2u32) | method;
    proof {
        if device_type < 0x10000 && access < 4 && function < 0x1000 && method < 4 {
            assert(r == device_type * 0x10000u32 + access * 0x4000u32 + function * 4u32 + method)
                by (bit_vector)
                requires
                    r == (device_type << 16u32) | (access << 14u32) | (function << 2u32) | method,
                    device_type < 0x10000 && access < 4 && function < 0x1000 && method < 4,
            ;
        }
    }
    r
}

/// The function number of each request.
pub open spec fn function_number(op: StoreOp) -> u32 {
    match op {
        StoreOp::Read => 0x800,
        StoreOp::Write => 0x801,
        StoreOp::Directory => 0x802,
        StoreOp::Remove => 0x803,
        StoreOp::AddWatch => 0x805,
        StoreOp::RemoveWatch => 0x806,
    }
}

/// The control code of a request: the store device type, the request's
/// function number, buffered transfer and any access.
pub open spec fn control_code_of(op: StoreOp) -> u32 {
    ctl_code_value(FILE_DEVICE_UNKNOWN, function_number(op), METHOD_BUFFERED, FILE_ANY_ACCESS) as u32
}

/// The control code of a request.
pub fn control_code(op: StoreOp) -> (r: u32)
    ensures
        r == control_code_of(op),
        r as int == ctl_code_value(
            FILE_DEVICE_UNKNOWN,
            function_number(op),
            METHOD_BUFFERED,
            FILE_ANY_ACCESS,
        ),
{
    let function: u32 = match op {
        StoreOp::Read => 0x800,
        StoreOp::Write => 0x801,
        StoreOp::Directory => 0x802,
        StoreOp::Remove => 0x803,
        StoreOp::AddWatch => 0x805,
        StoreOp::RemoveWatch => 0x806,
    };
    ctl_code(FILE_DEVICE_UNKNOWN, function, METHOD_BUFFERED, FILE_ANY_ACCESS)
}

/// One control request: its code, its input bytes and the capacity of the
/// reply buffer to hand the device (zero when no reply is read).
pub struct ControlRequest {
    pub code: u32,
    pub input: Vec<u8>,
    pub reply_capacity: usize,
}

/// The request that lists the children of a path.
pub fn directory_request(path: &str) -> (r: ControlRequest)
    ensures
        r.code == control_code_of(StoreOp::Directory),
        r.input@ == payload(seq![path@]),
        r.reply_capacity == REPLY_CAPACITY,
{
    let parts = [path];
    let input = make_payload(&parts);
    proof {
        assert(views_of(parts@) =~= seq![path@]);
    }
    ControlRequest { code: control_code(StoreOp::Directory), input, reply_capacity: REPLY_CAPACITY }
}

/// The request that reads the value of a path.
pub fn read_request(path: &str) -> (r: ControlRequest)
    ensures
        r.code == control_code_of(StoreOp::Read),
        r.input@ == payload(seq![path@]),
        r.reply_capacity == REPLY_CAPACITY,
{
    let parts = [path];
    let input = make_payload(&parts);
    proof {
        assert(views_of(parts@) =~= seq![path@]);
    }
    ControlRequest { code: control_code(StoreOp::Read), input, reply_capacity: REPLY_CAPACITY }
}

/// The request that writes a value at a path: the path, then the value.
pub fn write_request(path: &str, value: &str) -> (r: ControlRequest)
    ensures
        r.code == control_code_of(StoreOp::Write),
        r.input@ == payload(seq![path@, value@]),
        r.reply_capacity == 0,
{
    let parts = [path, value];
    let input = make_payload(&parts);
    proof {
        assert(views_of(parts@) =~= seq![path@, value@]);
    }
    ControlRequest { code: control_code(StoreOp::Write), input, reply_capacity: 0 }
}

/// The request that removes a path.
pub fn remove_request(path: &str) -> (r: ControlRequest)
    ensures
        r.code == control_code_of(StoreOp::Remove),
        r.input@ == payload(seq![path@]),
        r.reply_capacity == 0,
{
    let parts = [path];
    let input = make_payload(&parts);
    proof {
        assert(views_of(parts@) =~= seq![path@]);
    }
    ControlRequest { code: control_code(StoreOp::Remove), input, reply_capacity: 0 }
}

/// The bytes of a reply: the first `reported` bytes of the buffer, or nothing
/// when the device reports more than the buffer holds.
pub fn reply_bytes(buffer: &[u8], reported: u32) -> (r: Option<&[u8]>)
    ensures
        r is Some <==> reported as int <= buffer@.len(),
        r matches Some(b) ==> b@ == buffer@.subrange(0, reported as int),
{
    if reported as usize <= buffer.len() {
        Some(slice_subrange(buffer, 0, reported as usize))
    } else {
        None
    }
}

/// Decodes the reply to a directory request, of which the device reported
/// `reported` bytes: the child names, in the order the device gave them.
pub fn decode_directory_reply(buffer: &[u8], reported: u32) -> (r: Result<Vec<String>, StoreError>)
    ensures
        r is Ok <==> reported as int <= buffer@.len() && list_valid(
            buffer@.subrange(0, reported as int),
        ),
        r matches Ok(v) ==> v@.map_values(|s: String| s@) == list_texts(
            buffer@.subrange(0, reported as int),
        ),
        r matches Err(e) ==> e == StoreError::InvalidEncoding,
{
    let bytes = match reply_bytes(buffer, reported) {
        Some(b) => b,
        None => {
            return Err(StoreError::InvalidEncoding);
        },
    };
    let names = match parse_nul_list(bytes) {
        Ok(v) => v,
        Err(_) => {
            return Err(StoreError::InvalidEncoding);
        },
    };
    let ghost texts = list_texts(bytes@);
    let mut out: Vec<String> = Vec::new();
    let mut i: usize = 0;
    while i < names.len()
        invariant
            0 <= i <= names@.len(),
            views_of(names@) == texts,
            out@.map_values(|s: String| s@) == texts.subrange(0, i as int),
        decreases names@.len() - i,
    {
        let owned = names[i].to_owned();
        let ghost before = out@;
        out.push(owned);
        proof {
            assert(texts[i as int] == names@[i as int]@);
            assert(out@.map_values(|s: String| s@) =~= before.map_values(|s: String| s@).push(
                owned@,
            ));
            assert(texts.subrange(0, i + 1) =~= texts.subrange(0, i as int).push(texts[i as int]));
        }
        i = i + 1;
    }
    proof {
        assert(texts.subrange(0, names@.len() as int) =~= texts);
    }
    Ok(out)
}

/// The value a read reply holds: empty when the reply is empty.
pub open spec fn read_reply_text(b: Seq<u8>) -> Seq<char> {
    if b.len() == 0 {
        Seq::empty()
    } else {
        value_text(b)
    }
}

/// Decodes the reply to a read request, of which the device reported
/// `reported` bytes: the value without its NUL, the empty string when the
/// reply is empty.
pub fn decode_read_reply(buffer: &[u8], reported: u32) -> (r: Result<String, StoreError>)
    ensures
        r is Ok <==> reported as int <= buffer@.len() && (reported == 0 || value_valid(
            buffer@.subrange(0, reported as int),
        )),
        r matches Ok(s) ==> s@ == read_reply_text(buffer@.subrange(0, reported as int)),
        r matches Err(e) ==> e == StoreError::InvalidEncoding,
{
    let bytes = match reply_bytes(buffer, reported) {
        Some(b) => b,
        None => {
            return Err(StoreError::InvalidEncoding);
        },
    };
    match parse_nul_string(bytes) {
        Ok(Some(t)) => Ok(t.to_owned()),
        Ok(None) => Ok(String::new()),
        Err(_) => Err(StoreError::InvalidEncoding),
    }
}

} // verus!

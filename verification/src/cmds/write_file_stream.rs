//! `openWriteFileStream`: decodes the commands of a write stream from the
//! headers and body of an IPC request, and turns the open options into the
//! flags a file is opened with.

use vstd::prelude::*;
use vstd::utf8::{decode_utf8, encode_utf8, valid_utf8};
use crate::codec;
use crate::codec::{base64_standard_decode, percent_decoded};
use crate::error::{Error, Result, is_raw_error};
use super::bytes::{bytes_eq, starts_with};

verus! {

/// The options of an open request.
pub struct OpenWriteFileStreamEventInputOpenOptions {
    pub append: bool,
    pub create: bool,
    pub create_new: bool,
    pub mode: Option<u32>,
}

/// The flags a file is opened with (as set on `std::fs::OpenOptions`); `mode`
/// applies on Unix only.
pub struct FileOpenFlags {
    pub append: bool,
    pub truncate: bool,
    pub create: bool,
    pub create_new: bool,
    pub write: bool,
    pub mode: Option<u32>,
}

impl OpenWriteFileStreamEventInputOpenOptions {
    /// The file is opened for writing; it is appended to when `append` is set
    /// and truncated otherwise.
    pub fn open_flags(&self) -> (flags: FileOpenFlags)
        ensures
            flags.append == self.append,
            flags.truncate == !self.append,
            flags.create == self.create,
            flags.create_new == self.create_new,
            flags.write,
            flags.mode == self.mode,
    {
        FileOpenFlags {
            append: self.append,
            truncate: !self.append,
            create: self.create,
            create_new: self.create_new,
            write: true,
            mode: self.mode,
        }
    }
}

/// The `data` member of a JSON request body.
pub enum JsonData {
    Missing,
    NotString,
    Text(String),
}

/// The body of a write-stream request: raw bytes, or JSON.
pub enum RequestBody {
    Json(JsonData),
    Raw(Vec<u8>),
}

/// A decoded write-stream command. `args` is the JSON text of the command's
/// arguments (the `tfps-cmd-args` header).
pub enum WriteStreamCommand {
    Open { supports_raw_ipc_request_body: bool, args: String },
    Write { data: Vec<u8>, args: String },
    Close { args: String },
}

/// What the stream answers to a command.
pub enum OpenWriteFileStreamEventOutput {
    Open { id: u32, supports_raw_ipc_request_body: bool },
    Write(()),
    Close(()),
}

/// A header value that reads as a string: visible ASCII or tab
/// (`http::HeaderValue::to_str`).
pub open spec fn header_is_visible_ascii(v: Seq<u8>) -> bool {
    forall|i: int| 0 <= i < v.len() ==> (#[trigger] v[i] == 9 || (32 <= v[i] && v[i] < 127))
}

pub open spec fn command_open() -> Seq<u8> {
    seq![0x4Fu8, 0x70u8, 0x65u8, 0x6Eu8]
}

pub open spec fn command_write() -> Seq<u8> {
    seq![0x57u8, 0x72u8, 0x69u8, 0x74u8, 0x65u8]
}

pub open spec fn command_close() -> Seq<u8> {
    seq![0x43u8, 0x6Cu8, 0x6Fu8, 0x73u8, 0x65u8]
}

/// `data:` as bytes.
pub open spec fn data_url_scheme() -> Seq<u8> {
    seq![0x64u8, 0x61u8, 0x74u8, 0x61u8, 0x3Au8]
}

pub open spec fn opt_bytes(o: Option<Vec<u8>>) -> Option<Seq<u8>> {
    match o {
        Some(b) => Some(b@),
        None => None,
    }
}

/// `i` is the position of the first `b` in `s`.
pub open spec fn is_first_index(s: Seq<u8>, b: u8, i: int) -> bool {
    &&& 0 <= i < s.len()
    &&& s[i] == b
    &&& forall|j: int| 0 <= j < i ==> s[j] != b
}

/// The Base64 text of a `data` member: what follows the first comma of a data
/// URL, or the whole text otherwise; `None` for a data URL without a comma.
pub open spec fn base64_payload(text: Seq<u8>) -> Option<Seq<u8>> {
    if starts_with(text, data_url_scheme()) {
        if exists|i: int| is_first_index(text, 0x2Cu8, i) {
            let i = choose|i: int| is_first_index(text, 0x2Cu8, i);
            Some(text.skip(i + 1))
        } else {
            None
        }
    } else {
        Some(text)
    }
}

/// Law: the Base64 text of a data URL `data:<meta>,<payload>` (with no comma
/// in `<meta>`) is `<payload>`, commas and all; a data URL without a comma has
/// none; text that is no data URL is Base64 text as a whole.
pub proof fn lemma_base64_payload(meta: Seq<u8>, payload: Seq<u8>, text: Seq<u8>)
    ensures
        (forall|j: int| 0 <= j < meta.len() ==> meta[j] != 0x2Cu8) ==> base64_payload(
            data_url_scheme() + meta + seq![0x2Cu8] + payload,
        ) == Some(payload),
        starts_with(text, data_url_scheme()) && (forall|j: int|
            0 <= j < text.len() ==> text[j] != 0x2Cu8) ==> base64_payload(text) is None,
        !starts_with(text, data_url_scheme()) ==> base64_payload(text) == Some(text),
{
    if forall|j: int| 0 <= j < meta.len() ==> meta[j] != 0x2Cu8 {
        let u = data_url_scheme() + meta + seq![0x2Cu8] + payload;
        let k: int = (data_url_scheme().len() + meta.len()) as int;
        assert(u.take(5) =~= data_url_scheme());
        assert forall|j: int| 0 <= j < k implies u[j] != 0x2Cu8 by {
            if j >= 5 {
                assert(u[j] == meta[j - 5]);
            }
        }
        assert(u[k] == 0x2Cu8);
        assert(is_first_index(u, 0x2Cu8, k));
        let i = choose|i: int| is_first_index(u, 0x2Cu8, i);
        assert(i == k) by {
            if i < k {
                assert(u[i] != 0x2Cu8);
            } else if i > k {
                assert(u[k] != 0x2Cu8);
            }
        }
        assert(u.skip(k + 1) =~= payload);
    }
}

/// The bytes a write request carries, or `None` where decoding fails.
pub open spec fn write_data_decoded(body: RequestBody) -> Option<Seq<u8>> {
    match body {
        RequestBody::Raw(b) => Some(b@),
        RequestBody::Json(JsonData::Text(s)) => match base64_payload(encode_utf8(s@)) {
            Some(p) => base64_standard_decode(p),
            None => None,
        },
        RequestBody::Json(_) => None,
    }
}

/// Law: a raw body is written as it came, byte for byte and of any length;
/// it never fails to decode.
pub proof fn lemma_raw_body_written_whole(b: Vec<u8>)
    ensures
        write_data_decoded(RequestBody::Raw(b)) == Some(b@),
        forall|e: Error| !write_data_error(RequestBody::Raw(b), e),
{
}

/// The error a write request's body gives where it cannot be decoded.
pub open spec fn write_data_error(body: RequestBody, e: Error) -> bool {
    match body {
        RequestBody::Raw(_) => false,
        RequestBody::Json(JsonData::Missing) => is_raw_error(e, "missing value: "@ + "data"@),
        RequestBody::Json(JsonData::NotString) => is_raw_error(e, "invalid type for "@ + "data"@),
        RequestBody::Json(JsonData::Text(s)) => match base64_payload(encode_utf8(s@)) {
            Some(_) => e is Base64Decode,
            None => is_raw_error(e, "invalid Data URL"@),
        },
    }
}

/// The arguments text of the `tfps-cmd-args` header: percent-decoded, then
/// read as UTF-8; `None` where the header is missing or not UTF-8.
pub open spec fn cmd_args_decoded(header: Option<Seq<u8>>) -> Option<Seq<char>> {
    match header {
        Some(h) => if valid_utf8(percent_decoded(h)) {
            Some(decode_utf8(percent_decoded(h)))
        } else {
            None
        },
        None => None,
    }
}

/// The error the `tfps-cmd-args` header gives where it cannot be decoded.
pub open spec fn cmd_args_error(header: Option<Seq<u8>>, e: Error) -> bool {
    match header {
        Some(_) => e is Utf8,
        None => is_raw_error(e, "missing value: "@ + "tfps-cmd-args"@),
    }
}

fn header_value_to_str(value: &Vec<u8>) -> (res: Result<String>)
    ensures
        res is Ok <==> header_is_visible_ascii(value@),
        res matches Ok(s) ==> s@ == decode_utf8(value@),
        res matches Err(e) ==> e matches Error::TauriHttpHeaderToStr(m) && m@
            == "failed to convert header to a str"@,
{
    let mut i: usize = 0;
    while i < value.len()
        invariant
            i <= value@.len(),
            forall|j: int| 0 <= j < i ==> (#[trigger] value@[j] == 9 || (32 <= value@[j]
                && value@[j] < 127)),
        decreases value@.len() - i,
    {
        let b = value[i];
        if !(b == 9 || (32 <= b && b < 127)) {
            return Err(Error::TauriHttpHeaderToStr("failed to convert header to a str".to_owned()));
        }
        i += 1;
    }
    proof {
        codec::lemma_ascii_valid_utf8(value@);
    }
    match codec::string_from_utf8(value.clone()) {
        Ok(s) => Ok(s),
        Err(_) => Err(Error::TauriHttpHeaderToStr("failed to convert header to a str".to_owned())),
    }
}

/// Decodes the arguments of a command from the `tfps-cmd-args` header.
pub fn decode_cmd_args(header: &Option<Vec<u8>>) -> (res: Result<String>)
    ensures
        match cmd_args_decoded(opt_bytes(*header)) {
            Some(a) => res matches Ok(s) && s@ == a,
            None => res matches Err(e) && cmd_args_error(opt_bytes(*header), e),
        },
{
    match header {
        None => Err(Error::missing_value("tfps-cmd-args")),
        Some(h) => {
            let decoded = codec::percent_decode(h.as_slice());
            match codec::string_from_utf8(decoded) {
                Ok(s) => Ok(s),
                Err(e) => Err(Error::Utf8(codec::utf8_error_message(&e))),
            }
        },
    }
}

fn find_byte(s: &[u8], b: u8) -> (r: Option<usize>)
    ensures
        match r {
            Some(i) => is_first_index(s@, b, i as int),
            None => forall|j: int| 0 <= j < s@.len() ==> s@[j] != b,
        },
{
    let mut i: usize = 0;
    while i < s.len()
        invariant
            i <= s@.len(),
            forall|j: int| 0 <= j < i ==> s@[j] != b,
        decreases s@.len() - i,
    {
        if s[i] == b {
            return Some(i);
        }
        i += 1;
    }
    None
}

/// Decodes the bytes of a write request: a raw body as it is, or the `data`
/// member of a JSON body, Base64 text or a data URL carrying Base64 text.
pub fn decode_write_data(body: &RequestBody) -> (res: Result<Vec<u8>>)
    ensures
        match write_data_decoded(*body) {
            Some(d) => res matches Ok(v) && v@ == d,
            None => res matches Err(e) && write_data_error(*body, e),
        },
{
    match body {
        RequestBody::Raw(b) => Ok(b.clone()),
        RequestBody::Json(JsonData::Missing) => Err(Error::missing_value("data")),
        RequestBody::Json(JsonData::NotString) => Err(Error::invalid_type("data")),
        RequestBody::Json(JsonData::Text(text)) => {
            let t = text.as_str().as_bytes();
            let is_data_url = t.len() >= 5 && bytes_eq(
                slice_prefix(t, 5).as_slice(),
                &[0x64u8, 0x61u8, 0x74u8, 0x61u8, 0x3Au8],
            );
            assert(is_data_url == starts_with(t@, data_url_scheme()));
            let payload: Vec<u8> = if is_data_url {
                match find_byte(t, 0x2Cu8) {
                    Some(i) => {
                        proof {
                            let k = choose|k: int| is_first_index(t@, 0x2Cu8, k);
                            assert(k == i as int) by {
                                if k < i {
                                    assert(t@[k] != 0x2Cu8);
                                } else if k > i {
                                    assert(t@[i as int] != 0x2Cu8);
                                }
                            }
                        }
                        slice_suffix(t, i + 1)
                    },
                    None => {
                        return Err(Error::with("invalid Data URL"));
                    },
                }
            } else {
                slice_suffix(t, 0)
            };
            assert(base64_payload(t@) == Some(payload@));
            match codec::base64_decode(payload.as_slice()) {
                Ok(v) => Ok(v),
                Err(e) => Err(Error::Base64Decode(codec::base64_error_message(&e))),
            }
        },
    }
}

/// The first `n` bytes of `s`.
fn slice_prefix(s: &[u8], n: usize) -> (r: Vec<u8>)
    requires
        n <= s@.len(),
    ensures
        r@ == s@.take(n as int),
{
    let mut r: Vec<u8> = Vec::new();
    let mut i: usize = 0;
    while i < n
        invariant
            i <= n <= s@.len(),
            r@ == s@.take(i as int),
        decreases n - i,
    {
        r.push(s[i]);
        i += 1;
        assert(r@ =~= s@.take(i as int));
    }
    r
}

/// The bytes of `s` from `start` on.
fn slice_suffix(s: &[u8], start: usize) -> (r: Vec<u8>)
    requires
        start <= s@.len(),
    ensures
        r@ == s@.skip(start as int),
{
    let mut r: Vec<u8> = Vec::new();
    let mut i: usize = start;
    while i < s.len()
        invariant
            start <= i <= s@.len(),
            r@ == s@.subrange(start as int, i as int),
        decreases s@.len() - i,
    {
        r.push(s[i]);
        i += 1;
        assert(r@ =~= s@.subrange(start as int, i as int));
    }
    assert(r@ =~= s@.skip(start as int));
    r
}

/// Whether `r` is the outcome of decoding the arguments header: the command
/// that `make` builds from them, or the error they give.
pub open spec fn with_cmd_args(
    header: Option<Seq<u8>>,
    r: Result<WriteStreamCommand>,
    make: spec_fn(String) -> WriteStreamCommand,
) -> bool {
    match cmd_args_decoded(header) {
        Some(a) => exists|args: String| args@ == a && r == Ok::<WriteStreamCommand, Error>(make(args)),
        None => r matches Err(e) && cmd_args_error(header, e),
    }
}

/// Decodes a write-stream request (`tauri::ipc::Request` into
/// `OpenWriteFileStreamEventInput`) from its `tfps-cmd-type` and
/// `tfps-cmd-args` headers and its body.
///
/// The command type must be present and readable as a string, and be `Open`,
/// `Write` or `Close`. `Open` records whether the body arrived raw; `Write`
/// decodes its data from the body before the arguments are decoded.
pub fn parse_write_file_stream_request(
    cmd_type: &Option<Vec<u8>>,
    cmd_args: &Option<Vec<u8>>,
    body: &RequestBody,
) -> (res: Result<WriteStreamCommand>)
    ensures
        match cmd_type {
            None => res matches Err(e) && is_raw_error(e, "missing value: "@ + "tfps-cmd-type"@),
            Some(t) => if !header_is_visible_ascii(t@) {
                res matches Err(e) && e matches Error::TauriHttpHeaderToStr(m) && m@
                    == "failed to convert header to a str"@
            } else if t@ == command_open() {
                with_cmd_args(
                    opt_bytes(*cmd_args),
                    res,
                    |args: String|
                        WriteStreamCommand::Open {
                            supports_raw_ipc_request_body: body is Raw,
                            args,
                        },
                )
            } else if t@ == command_write() {
                match write_data_decoded(*body) {
                    None => res matches Err(e) && write_data_error(*body, e),
                    Some(d) => match cmd_args_decoded(opt_bytes(*cmd_args)) {
                        Some(a) => res matches Ok(WriteStreamCommand::Write { data, args }) && data@
                            == d && args@ == a,
                        None => res matches Err(e) && cmd_args_error(opt_bytes(*cmd_args), e),
                    },
                }
            } else if t@ == command_close() {
                with_cmd_args(
                    opt_bytes(*cmd_args),
                    res,
                    |args: String| WriteStreamCommand::Close { args },
                )
            } else {
                res matches Err(e) && is_raw_error(
                    e,
                    "invalid value: "@ + decode_utf8(t@) + " for "@ + "eventType"@,
                )
            },
        },
{
    let t = match cmd_type {
        None => {
            return Err(Error::missing_value("tfps-cmd-type"));
        },
        Some(t) => t,
    };
    let cmd = header_value_to_str(t)?;
    if bytes_eq(t.as_slice(), &[0x4Fu8, 0x70u8, 0x65u8, 0x6Eu8]) {
        let supports_raw_ipc_request_body = match body {
            RequestBody::Json(_) => false,
            RequestBody::Raw(_) => true,
        };
        let args = decode_cmd_args(cmd_args)?;
        Ok(WriteStreamCommand::Open { supports_raw_ipc_request_body, args })
    } else if bytes_eq(t.as_slice(), &[0x57u8, 0x72u8, 0x69u8, 0x74u8, 0x65u8]) {
        let data = decode_write_data(body)?;
        let args = decode_cmd_args(cmd_args)?;
        Ok(WriteStreamCommand::Write { data, args })
    } else if bytes_eq(t.as_slice(), &[0x43u8, 0x6Cu8, 0x6Fu8, 0x73u8, 0x65u8]) {
        let args = decode_cmd_args(cmd_args)?;
        Ok(WriteStreamCommand::Close { args })
    } else {
        Err(Error::invalid_value("eventType", cmd.as_str()))
    }
}

} // verus!

use tauri_plugin_fs_stream::cmds::write_file_stream::{
    decode_cmd_args, decode_write_data, parse_write_file_stream_request, JsonData,
    OpenWriteFileStreamEventInputOpenOptions, RequestBody, WriteStreamCommand,
};
use tauri_plugin_fs_stream::error::Error;

fn text(s: &str) -> RequestBody {
    RequestBody::Json(JsonData::Text(s.to_string()))
}

fn some(s: &str) -> Option<Vec<u8>> {
    Some(s.as_bytes().to_vec())
}

#[test]
fn open_command() {
    let r = parse_write_file_stream_request(&some("Open"), &some("%7B%22a%22%3A1%7D"), &RequestBody::Raw(vec![]))
        .unwrap();
    match r {
        WriteStreamCommand::Open { supports_raw_ipc_request_body, args } => {
            assert!(supports_raw_ipc_request_body);
            assert_eq!(args, "{\"a\":1}");
        },
        _ => panic!("expected Open"),
    }
    let r = parse_write_file_stream_request(&some("Open"), &some("{}"), &text("x")).unwrap();
    assert!(matches!(r, WriteStreamCommand::Open { supports_raw_ipc_request_body: false, .. }));
}

#[test]
fn write_command_with_raw_body() {
    let r = parse_write_file_stream_request(&some("Write"), &some("{\"id\":3}"), &RequestBody::Raw(vec![1, 2, 3]))
        .unwrap();
    match r {
        WriteStreamCommand::Write { data, args } => {
            assert_eq!(data, vec![1, 2, 3]);
            assert_eq!(args, "{\"id\":3}");
        },
        _ => panic!("expected Write"),
    }
}

#[test]
fn write_data_from_base64_and_data_url() {
    assert_eq!(decode_write_data(&text("aGVsbG8=")).unwrap(), b"hello".to_vec());
    assert_eq!(
        decode_write_data(&text("data:application/octet-stream;base64,aGVsbG8=")).unwrap(),
        b"hello".to_vec()
    );
    assert_eq!(decode_write_data(&text("data:,")).unwrap(), Vec::<u8>::new());
}

#[test]
fn close_command() {
    let r = parse_write_file_stream_request(&some("Close"), &some("{\"id\":1}"), &RequestBody::Raw(vec![]))
        .unwrap();
    match r {
        WriteStreamCommand::Close { args } => assert_eq!(args, "{\"id\":1}"),
        _ => panic!("expected Close"),
    }
}

fn raw_err<T>(r: Result<T, Error>) -> String {
    match r {
        Err(Error::Raw(m)) => m,
        _ => panic!("expected a plugin error"),
    }
}

#[test]
fn missing_command_type() {
    assert_eq!(
        raw_err(parse_write_file_stream_request(&None, &some("{}"), &RequestBody::Raw(vec![]))),
        "missing value: tfps-cmd-type"
    );
}

#[test]
fn unreadable_command_type() {
    let r = parse_write_file_stream_request(&Some(vec![0x4F, 0x01]), &some("{}"), &RequestBody::Raw(vec![]));
    match r {
        Err(Error::TauriHttpHeaderToStr(m)) => assert_eq!(m, "failed to convert header to a str"),
        _ => panic!("expected a header error"),
    }
}

#[test]
fn unknown_command_type() {
    assert_eq!(
        raw_err(parse_write_file_stream_request(&some("Seek"), &some("{}"), &RequestBody::Raw(vec![]))),
        "invalid value: Seek for eventType"
    );
}

#[test]
fn missing_args() {
    assert_eq!(
        raw_err(parse_write_file_stream_request(&some("Close"), &None, &RequestBody::Raw(vec![]))),
        "missing value: tfps-cmd-args"
    );
}

#[test]
fn args_that_are_not_utf8() {
    match decode_cmd_args(&some("%FF%FE")) {
        Err(Error::Utf8(m)) => assert!(!m.is_empty()),
        _ => panic!("expected a UTF-8 error"),
    }
    assert_eq!(decode_cmd_args(&some("a%2")).unwrap(), "a%2");
    assert_eq!(decode_cmd_args(&some("%e3%81%82")).unwrap(), "\u{3042}");
}

#[test]
fn json_body_errors() {
    assert_eq!(raw_err(decode_write_data(&RequestBody::Json(JsonData::Missing))), "missing value: data");
    assert_eq!(raw_err(decode_write_data(&RequestBody::Json(JsonData::NotString))), "invalid type for data");
    assert_eq!(raw_err(decode_write_data(&text("data:no-comma"))), "invalid Data URL");
    match decode_write_data(&text("not base64!")) {
        Err(Error::Base64Decode(m)) => assert!(!m.is_empty()),
        _ => panic!("expected a base64 error"),
    }
}

#[test]
fn body_is_decoded_before_args() {
    assert_eq!(
        raw_err(parse_write_file_stream_request(&some("Write"), &None, &RequestBody::Json(JsonData::Missing))),
        "missing value: data"
    );
}

#[test]
fn open_flags_append_or_truncate() {
    let o = OpenWriteFileStreamEventInputOpenOptions { append: true, create: false, create_new: true, mode: Some(0o644) };
    let f = o.open_flags();
    assert!(f.append && !f.truncate && !f.create && f.create_new && f.write);
    assert_eq!(f.mode, Some(0o644));
    let o = OpenWriteFileStreamEventInputOpenOptions { append: false, create: true, create_new: false, mode: None };
    let f = o.open_flags();
    assert!(!f.append && f.truncate && f.create && !f.create_new && f.write);
    assert_eq!(f.mode, None);
}

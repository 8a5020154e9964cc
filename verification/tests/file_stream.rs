use tauri_plugin_fs_stream::cmds::read_file_stream::{FileReader, OpenReadFileStreamEventOutput};
use tauri_plugin_fs_stream::cmds::utils::{check_path_access, convert_rid_to_bytes, is_forbidden_path};
use tauri_plugin_fs_stream::error::Error;

#[test]
fn rid_is_sent_big_endian() {
    assert_eq!(convert_rid_to_bytes(0x0102_0304), vec![1, 2, 3, 4]);
    assert_eq!(convert_rid_to_bytes(0), vec![0, 0, 0, 0]);
    let b = convert_rid_to_bytes(4_000_000_000);
    assert_eq!(u32::from_be_bytes([b[0], b[1], b[2], b[3]]), 4_000_000_000);
}

#[test]
fn chunks_follow_requested_lengths() {
    let mut reader = FileReader::new(&b"0123456789"[..], None);
    assert_eq!(reader.read_chunk(4).unwrap(), b"0123".to_vec());
    assert_eq!(reader.read_chunk(4).unwrap(), b"4567".to_vec());
    assert_eq!(reader.read_chunk(4).unwrap(), b"89".to_vec());
    assert_eq!(reader.read_chunk(4).unwrap(), Vec::<u8>::new());
}

#[test]
fn chunks_stop_at_frozen_size() {
    let mut reader = FileReader::new(&b"0123456789"[..], Some(6));
    assert_eq!(reader.read_chunk(4).unwrap(), b"0123".to_vec());
    assert_eq!(reader.read_chunk(4).unwrap(), b"45".to_vec());
    assert_eq!(reader.read_chunk(4).unwrap(), Vec::<u8>::new());
    assert_eq!(reader.read_chunk(100).unwrap(), Vec::<u8>::new());
}

#[test]
fn zero_length_chunk() {
    let mut reader = FileReader::new(&b"abc"[..], None);
    assert_eq!(reader.read_chunk(0).unwrap(), Vec::<u8>::new());
    assert_eq!(reader.read_chunk(10).unwrap(), b"abc".to_vec());
}

#[test]
fn read_output_response_bytes() {
    assert_eq!(OpenReadFileStreamEventOutput::Open(258).into_response_bytes(), vec![0, 0, 1, 2]);
    assert_eq!(OpenReadFileStreamEventOutput::Read(vec![5]).into_response_bytes(), vec![5]);
    assert_eq!(OpenReadFileStreamEventOutput::Close(()).into_response_bytes(), Vec::<u8>::new());
}

fn raw_message(r: Result<(), Error>) -> String {
    match r {
        Err(Error::Raw(m)) => m,
        _ => panic!("expected a plugin error"),
    }
}

#[test]
fn allowed_path_is_accepted() {
    assert!(check_path_access("/a", false, false, true, false, false).is_ok());
    assert!(check_path_access("/a", false, false, false, true, true).is_ok());
}

#[test]
fn forbidden_wins_over_allowed() {
    assert_eq!(
        raw_message(check_path_access("/a/b", true, false, true, true, true)),
        "forbidden path: /a/b"
    );
    assert_eq!(
        raw_message(check_path_access("/a/b", false, true, true, true, false)),
        "forbidden path: /a/b"
    );
}

#[test]
fn unlisted_path_is_refused_with_hint_in_debug() {
    assert_eq!(
        raw_message(check_path_access("/x", false, false, false, false, true)),
        "forbidden path: /x, maybe it is not allowed on the scope configuration in your capability file"
    );
    assert_eq!(
        raw_message(check_path_access("/x", false, false, false, false, false)),
        "forbidden path: /x"
    );
}

fn patterns(ps: &[&str]) -> Vec<String> {
    ps.iter().map(|p| p.to_string()).collect()
}

#[test]
fn deny_pattern_matches_within_its_directory_only() {
    let deny = patterns(&["/dir/*"]);
    assert!(is_forbidden_path(&deny, Some("/dir/file".to_string()), true));
    assert!(!is_forbidden_path(&deny, Some("/dir/sub/file".to_string()), true));
    assert!(!is_forbidden_path(&deny, Some("/other/file".to_string()), true));
}

#[test]
fn recursive_deny_pattern_reaches_subdirectories() {
    let deny = patterns(&["/dir/**"]);
    assert!(is_forbidden_path(&deny, Some("/dir/sub/file".to_string()), true));
}

#[test]
fn deny_patterns_ignore_case() {
    let deny = patterns(&["/DIR/*.TXT"]);
    assert!(is_forbidden_path(&deny, Some("/dir/notes.txt".to_string()), true));
}

#[test]
fn leading_dot_must_be_literal_when_required() {
    let deny = patterns(&["/dir/*"]);
    assert!(!is_forbidden_path(&deny, Some("/dir/.hidden".to_string()), true));
    assert!(is_forbidden_path(&deny, Some("/dir/.hidden".to_string()), false));
}

#[test]
fn unresolved_path_is_not_forbidden() {
    let deny = patterns(&["/**"]);
    assert!(!is_forbidden_path(&deny, None, true));
    assert!(!is_forbidden_path(&Vec::new(), Some("/a".to_string()), true));
}

#[test]
fn invalid_deny_pattern_forbids_nothing() {
    let deny = patterns(&["/a/***", "/b/*"]);
    assert!(!is_forbidden_path(&deny, Some("/a/***".to_string()), true));
    assert!(is_forbidden_path(&deny, Some("/b/x".to_string()), true));
}

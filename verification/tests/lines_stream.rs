use tauri_plugin_fs_stream::cmds::read_text_file_lines_stream::{
    bom_for_encoding_label, line_breaks_for_encoding_label, read_until_bytes, FileReader,
    LineBreaks, OpenReadTextFileLinesStreamEventOutput,
};
use tauri_plugin_fs_stream::error::Error;
use tauri_plugin_fs_stream::io::source;

/// Splits a batch into (flag, line break type, bytes) records.
fn records(batch: &[u8]) -> Vec<(u8, u8, Vec<u8>)> {
    let mut out = Vec::new();
    let mut i = 0;
    while i < batch.len() {
        assert!(batch.len() - i >= 10, "truncated header");
        let flag = batch[i];
        let lb = batch[i + 1];
        let mut len_bytes = [0u8; 8];
        len_bytes.copy_from_slice(&batch[i + 2..i + 10]);
        let len = u64::from_be_bytes(len_bytes) as usize;
        let data = batch[i + 10..i + 10 + len].to_vec();
        out.push((flag, lb, data));
        i += 10 + len;
    }
    out
}

fn ascii_breaks() -> LineBreaks {
    LineBreaks { lf: vec![b'\n'], cr: vec![b'\r'] }
}

#[test]
fn bom_of_each_label() {
    assert_eq!(bom_for_encoding_label("utf-8"), Some(vec![0xEF, 0xBB, 0xBF]));
    assert_eq!(bom_for_encoding_label("utf-16le"), Some(vec![0xFF, 0xFE]));
    assert_eq!(bom_for_encoding_label("utf-16be"), Some(vec![0xFE, 0xFF]));
    assert_eq!(bom_for_encoding_label("shift_jis"), None);
    assert_eq!(bom_for_encoding_label("UTF-8"), None);
}

#[test]
fn line_breaks_of_each_label() {
    let le = line_breaks_for_encoding_label("utf-16le");
    assert_eq!((le.lf, le.cr), (vec![0x0A, 0x00], vec![0x0D, 0x00]));
    let be = line_breaks_for_encoding_label("utf-16be");
    assert_eq!((be.lf, be.cr), (vec![0x00, 0x0A], vec![0x00, 0x0D]));
    let other = line_breaks_for_encoding_label("iso-2022-jp");
    assert_eq!((other.lf, other.cr), (vec![b'\n'], vec![b'\r']));
}

#[test]
fn read_until_single_byte_terminator() {
    let mut input = source(&b"ab\ncd"[..]);
    let mut buf = vec![9u8];
    let n = read_until_bytes(&mut input, &mut buf, b"\n").unwrap();
    assert_eq!(n, 3);
    assert_eq!(buf, b"\x09ab\n".to_vec());
    let n = read_until_bytes(&mut input, &mut buf, b"\n").unwrap();
    assert_eq!(n, 2);
    assert_eq!(buf, b"\x09ab\ncd".to_vec());
    let n = read_until_bytes(&mut input, &mut buf, b"\n").unwrap();
    assert_eq!(n, 0);
}

#[test]
fn read_until_two_byte_terminator_stops_at_first() {
    // "A\n" then "B\n" in UTF-16LE; the 0x00 of "A" must not end the read.
    let data = [0x41u8, 0x00, 0x0A, 0x00, 0x42, 0x00, 0x0A, 0x00];
    let mut input = source(&data[..]);
    let mut buf = Vec::new();
    let n = read_until_bytes(&mut input, &mut buf, &[0x0A, 0x00]).unwrap();
    assert_eq!(n, 4);
    assert_eq!(buf, vec![0x41, 0x00, 0x0A, 0x00]);
}

#[test]
fn read_until_two_byte_terminator_reads_the_rest() {
    let data = [0x41u8, 0x00, 0x0A, 0x00, 0x42, 0x00];
    let mut input = source(&data[..]);
    let mut buf = Vec::new();
    assert_eq!(read_until_bytes(&mut input, &mut buf, &[0x0A, 0x00]).unwrap(), 4);
    assert_eq!(read_until_bytes(&mut input, &mut buf, &[0x0A, 0x00]).unwrap(), 2);
    assert_eq!(buf, data.to_vec());
    assert_eq!(read_until_bytes(&mut input, &mut buf, &[0x0A, 0x00]).unwrap(), 0);
}

#[test]
fn read_until_end_of_input_without_terminator() {
    let mut input = source(&[0x41u8, 0x00, 0x42][..]);
    let mut buf = vec![0xAAu8];
    let n = read_until_bytes(&mut input, &mut buf, &[0x0A, 0x00]).unwrap();
    assert_eq!(n, 3);
    assert_eq!(buf, vec![0xAA, 0x41, 0x00, 0x42]);
}

#[test]
fn read_until_ignores_what_the_buffer_held() {
    // The buffer ends with 0x0A; the 0x00 read next does not complete the
    // terminator, which must lie in the bytes read.
    let mut input = source(&[0x00u8, 0x41, 0x0A, 0x00, 0x43][..]);
    let mut buf = vec![0x0Au8];
    let n = read_until_bytes(&mut input, &mut buf, &[0x0A, 0x00]).unwrap();
    assert_eq!(n, 4);
    assert_eq!(buf, vec![0x0A, 0x00, 0x41, 0x0A, 0x00]);
}

#[test]
fn read_until_empty_terminator_is_refused() {
    let mut input = source(&b"abc"[..]);
    let mut buf = vec![1u8];
    match read_until_bytes(&mut input, &mut buf, &[]) {
        Err(Error::Raw(m)) => assert_eq!(m, "invalid empty bytes"),
        _ => panic!("expected an error"),
    }
    assert_eq!(buf, vec![1u8]);
    // Nothing was taken from the input.
    assert_eq!(read_until_bytes(&mut input, &mut buf, b"\n").unwrap(), 3);
    assert_eq!(buf, b"\x01abc".to_vec());
}

#[test]
fn lines_are_framed_with_their_line_breaks() {
    let mut reader = FileReader::new(&b"ab\ncd\r\nef"[..], None, ascii_breaks(), None, None);
    let batch = reader.read_lines_framed(u64::MAX).unwrap();
    assert_eq!(
        records(&batch),
        vec![
            (0, 1, b"ab".to_vec()),
            (0, 2, b"cd".to_vec()),
            (0, 0, b"ef".to_vec()),
        ]
    );
    // exact bytes of the first record
    assert_eq!(&batch[..12], &[0, 1, 0, 0, 0, 0, 0, 0, 0, 2, b'a', b'b']);
    assert_eq!(reader.read_lines_framed(u64::MAX).unwrap(), Vec::<u8>::new());
}

#[test]
fn empty_lines_make_empty_records() {
    let mut reader = FileReader::new(&b"\n\r\n"[..], None, ascii_breaks(), None, None);
    let batch = reader.read_lines_framed(1000).unwrap();
    assert_eq!(records(&batch), vec![(0, 1, vec![]), (0, 2, vec![])]);
    assert_eq!(batch.len(), 20);
}

#[test]
fn batch_stops_at_threshold() {
    let mut reader = FileReader::new(&b"aaaa\nbbbb\ncccc\n"[..], None, ascii_breaks(), None, None);
    // one record is 14 bytes; a threshold of 20 is reached after the second
    let first = reader.read_lines_framed(20).unwrap();
    assert_eq!(records(&first), vec![(0, 1, b"aaaa".to_vec()), (0, 1, b"bbbb".to_vec())]);
    let second = reader.read_lines_framed(20).unwrap();
    assert_eq!(records(&second), vec![(0, 1, b"cccc".to_vec())]);
}

#[test]
fn zero_threshold_gives_one_record() {
    let mut reader = FileReader::new(&b"x\ny\n"[..], None, ascii_breaks(), None, None);
    let batch = reader.read_lines_framed(0).unwrap();
    assert_eq!(records(&batch), vec![(0, 1, b"x".to_vec())]);
}

#[test]
fn bom_is_stripped_from_the_first_line_only() {
    let data = b"\xEF\xBB\xBFone\n\xEF\xBB\xBFtwo\n";
    let mut reader = FileReader::for_encoding(&data[..], "utf-8", 0, false, None);
    let batch = reader.read_lines_framed(u64::MAX).unwrap();
    assert_eq!(
        records(&batch),
        vec![(0, 1, b"one".to_vec()), (0, 1, b"\xEF\xBB\xBFtwo".to_vec())]
    );
}

#[test]
fn bom_is_kept_when_ignored() {
    let data = b"\xEF\xBB\xBFone\n";
    let mut reader = FileReader::for_encoding(&data[..], "utf-8", 0, true, None);
    let batch = reader.read_lines_framed(u64::MAX).unwrap();
    assert_eq!(records(&batch), vec![(0, 1, b"\xEF\xBB\xBFone".to_vec())]);
}

#[test]
fn utf16le_lines() {
    // BOM, "A", CR LF, "B"
    let data = [0xFFu8, 0xFE, 0x41, 0x00, 0x0D, 0x00, 0x0A, 0x00, 0x42, 0x00];
    let mut reader = FileReader::for_encoding(&data[..], "utf-16le", 0, false, None);
    let batch = reader.read_lines_framed(u64::MAX).unwrap();
    assert_eq!(records(&batch), vec![(0, 2, vec![0x41, 0x00]), (0, 0, vec![0x42, 0x00])]);
}

#[test]
fn utf16be_lines() {
    let data = [0xFEu8, 0xFF, 0x00, 0x41, 0x00, 0x0A, 0x00, 0x42];
    let mut reader = FileReader::for_encoding(&data[..], "utf-16be", 0, false, None);
    let batch = reader.read_lines_framed(u64::MAX).unwrap();
    assert_eq!(records(&batch), vec![(0, 1, vec![0x00, 0x41]), (0, 0, vec![0x00, 0x42])]);
}

#[test]
fn utf16be_line_starting_with_0x0a_is_kept_whole() {
    // U+0A05 then LF: the zero bytes of the record header never complete a
    // line feed.
    let data = [0x0Au8, 0x05, 0x00, 0x0A];
    let mut reader = FileReader::for_encoding(&data[..], "utf-16be", 0, true, None);
    let batch = reader.read_lines_framed(1024).unwrap();
    assert_eq!(batch, vec![0, 1, 0, 0, 0, 0, 0, 0, 0, 2, 0x0A, 0x05]);
}

#[test]
fn utf16be_second_line_starting_with_0x0a() {
    let data = [0x00u8, 0x41, 0x00, 0x0A, 0x0A, 0x05, 0x00, 0x0A];
    let mut reader = FileReader::for_encoding(&data[..], "utf-16be", 0, true, None);
    let batch = reader.read_lines_framed(1024).unwrap();
    assert_eq!(records(&batch), vec![(0, 1, vec![0x00, 0x41]), (0, 1, vec![0x0A, 0x05])]);
}

#[test]
fn batches_rebuild_the_file() {
    let data = b"\xEF\xBB\xBFone\r\ntwo\n\nthree\nfour";
    let mut reader = FileReader::for_encoding(&data[..], "utf-8", 0, false, None);
    let mut rebuilt = b"\xEF\xBB\xBF".to_vec();
    let mut calls = 0;
    loop {
        let batch = reader.read_lines_framed(12).unwrap();
        calls += 1;
        if batch.is_empty() {
            break;
        }
        for (flag, lb, bytes) in records(&batch) {
            assert_eq!(flag, 0);
            rebuilt.extend_from_slice(&bytes);
            match lb {
                0 => {},
                1 => rebuilt.push(b'\n'),
                2 => rebuilt.extend_from_slice(b"\r\n"),
                _ => panic!("unknown line break type"),
            }
        }
    }
    assert!(calls > 2);
    assert_eq!(rebuilt, data.to_vec());
}

#[test]
fn empty_file_gives_an_empty_batch() {
    let mut reader = FileReader::for_encoding(&b""[..], "utf-8", 0, false, None);
    assert_eq!(reader.read_lines_framed(1024).unwrap(), Vec::<u8>::new());
}

#[test]
fn empty_line_feed_is_refused() {
    let breaks = LineBreaks { lf: Vec::new(), cr: vec![b'\r'] };
    let mut reader = FileReader::new(&b"ab\n"[..], None, breaks, None, None);
    match reader.read_lines_framed(1024) {
        Err(Error::Raw(m)) => assert_eq!(m, "invalid empty bytes"),
        _ => panic!("expected an error"),
    }
}

#[test]
fn too_long_line_ends_the_batch_with_an_error() {
    let mut reader = FileReader::for_encoding(&b"abc\nabcdef\nxy\n"[..], "utf-8", 3, false, None);
    let batch = reader.read_lines_framed(u64::MAX).unwrap();
    assert_eq!(
        records(&batch),
        vec![(0, 1, b"abc".to_vec()), (1, 0, b"line length limit exceeded".to_vec())]
    );
}

#[test]
fn line_limit_excludes_line_break_and_bom() {
    let mut reader = FileReader::for_encoding(&b"\xEF\xBB\xBFab\r\nxy\n"[..], "utf-8", 2, false, None);
    let batch = reader.read_lines_framed(u64::MAX).unwrap();
    assert_eq!(records(&batch), vec![(0, 2, b"ab".to_vec()), (0, 1, b"xy".to_vec())]);
}

#[test]
fn frozen_size_stops_reading() {
    // The read limit is reached with the second line, which is not delivered.
    let mut reader = FileReader::new(&b"ab\ncd\nef\n"[..], None, ascii_breaks(), None, Some(6));
    let batch = reader.read_lines_framed(u64::MAX).unwrap();
    assert_eq!(records(&batch), vec![(0, 1, b"ab".to_vec())]);
    assert_eq!(reader.read_lines_framed(u64::MAX).unwrap(), Vec::<u8>::new());
    assert_eq!(reader.read_lines_framed(u64::MAX).unwrap(), Vec::<u8>::new());
}

#[test]
fn zero_read_limit_reads_nothing() {
    let mut reader = FileReader::new(&b"ab\n"[..], None, ascii_breaks(), None, Some(0));
    assert_eq!(reader.read_lines_framed(u64::MAX).unwrap(), Vec::<u8>::new());
}

#[test]
fn lines_output_response_bytes() {
    assert_eq!(
        OpenReadTextFileLinesStreamEventOutput::Open(0x0102_0304).into_response_bytes(),
        vec![1, 2, 3, 4]
    );
    assert_eq!(
        OpenReadTextFileLinesStreamEventOutput::Read(vec![7, 8]).into_response_bytes(),
        vec![7, 8]
    );
    assert_eq!(
        OpenReadTextFileLinesStreamEventOutput::Close(()).into_response_bytes(),
        Vec::<u8>::new()
    );
}

#[test]
fn frame_line_writes_one_record() {
    let mut reader = FileReader::for_encoding(&b""[..], "utf-8", 0, false, None);
    let mut buf = vec![0x55u8];
    buf.extend_from_slice(&[0u8; 10]);
    buf.extend_from_slice(b"\xEF\xBB\xBFab\r\n");
    let failed = reader.frame_line(&mut buf, 1);
    assert!(!failed);
    assert_eq!(buf, vec![0x55, 0, 2, 0, 0, 0, 0, 0, 0, 0, 2, b'a', b'b']);
    // the byte order mark is settled: a second line keeps its leading bytes
    let mut buf = vec![0u8; 10];
    buf.extend_from_slice(b"\xEF\xBB\xBFc");
    assert!(!reader.frame_line(&mut buf, 0));
    assert_eq!(records(&buf), vec![(0, 0, b"\xEF\xBB\xBFc".to_vec())]);
}

#[test]
fn frame_line_reports_too_long_line() {
    let mut reader = FileReader::new(&b""[..], Some(1), ascii_breaks(), None, None);
    let mut buf = vec![0u8; 10];
    buf.extend_from_slice(b"xyz\n");
    assert!(reader.frame_line(&mut buf, 0));
    assert_eq!(records(&buf), vec![(1, 0, b"line length limit exceeded".to_vec())]);
}

#[test]
fn bom_on_a_later_line_is_kept() {
    let data = [0xEFu8, 0xBB, 0xBF, 0x61, 0x0A, 0xEF, 0xBB, 0xBF, 0x62];
    let mut reader = FileReader::for_encoding(&data[..], "utf-8", 0, false, None);
    let batch = reader.read_lines_framed(1024).unwrap();
    assert_eq!(batch, vec![0, 1, 0, 0, 0, 0, 0, 0, 0, 1, 0x61, 0, 0, 0, 0, 0, 0, 0, 0, 0, 4, 0xEF, 0xBB, 0xBF, 0x62]);
}

#[test]
fn bom_and_crlf_within_the_line_limit() {
    let data = [0xEFu8, 0xBB, 0xBF, 0x61, 0x62, 0x0D, 0x0A, 0x63, 0x64];
    let mut reader = FileReader::for_encoding(&data[..], "utf-8", 2, false, None);
    let batch = reader.read_lines_framed(1024).unwrap();
    assert_eq!(
        batch,
        vec![0, 2, 0, 0, 0, 0, 0, 0, 0, 2, 0x61, 0x62, 0, 0, 0, 0, 0, 0, 0, 0, 0, 2, 0x63, 0x64]
    );
}

#[test]
fn too_long_last_line_gives_an_error_record() {
    let mut reader = FileReader::for_encoding(&b"ab\nabcdefgh"[..], "utf-8", 3, false, None);
    let batch = reader.read_lines_framed(u64::MAX).unwrap();
    assert_eq!(
        records(&batch),
        vec![(0, 1, b"ab".to_vec()), (1, 0, b"line length limit exceeded".to_vec())]
    );
}

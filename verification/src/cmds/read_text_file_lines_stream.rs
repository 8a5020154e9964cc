//! `openReadTextFileLinesStream`: reads a text file line by line and hands the
//! lines out in batches of framed records (see `line_records`).

use vstd::prelude::*;
use crate::error::{Error, Result, is_raw_error};
use crate::io;
use crate::io::Source;
use super::bytes::{
    bytes_eq, ends_with, ends_with_bytes, lemma_ends_with_tail, push_all, push_zeros,
    remove_range, starts_with, starts_with_at,
};
use super::line_records::{
    be_u64_bytes, decode_records, encode_record, encode_records, lemma_decode_encode_records,
    lemma_encode_records_push, record_fits, LineRecord, FLAG_ERR, FLAG_OK, HEADER_LEN,
    LINE_BREAK_CRLF, LINE_BREAK_LF, LINE_BREAK_NULL,
};
use super::utils::{be_u32_bytes, convert_rid_to_bytes};

verus! {

/// At most this many bytes are reserved up front for a batch.
pub const MAX_PREALLOCATED_BATCH: usize = 2097152;

/// The byte order mark of the encoding `label` names; of the encodings of the
/// web standard only UTF-8 and UTF-16 LE/BE have one.
pub open spec fn bom_for_label(label: Seq<char>) -> Option<Seq<u8>> {
    if label == "utf-8"@ {
        Some(seq![0xEFu8, 0xBBu8, 0xBFu8])
    } else if label == "utf-16le"@ {
        Some(seq![0xFFu8, 0xFEu8])
    } else if label == "utf-16be"@ {
        Some(seq![0xFEu8, 0xFFu8])
    } else {
        None
    }
}

/// The line feed and carriage return of the encoding `label` names; of the
/// encodings of the web standard only UTF-16 LE/BE write them otherwise than
/// ASCII does.
pub open spec fn line_breaks_for_label(label: Seq<char>) -> (Seq<u8>, Seq<u8>) {
    if label == "utf-16le"@ {
        (seq![0x0Au8, 0x00u8], seq![0x0Du8, 0x00u8])
    } else if label == "utf-16be"@ {
        (seq![0x00u8, 0x0Au8], seq![0x00u8, 0x0Du8])
    } else {
        (seq![0x0Au8], seq![0x0Du8])
    }
}

/// Law: every encoding but UTF-16 LE/BE is ASCII-compatible, so its line
/// feed is the single byte 0x0A and its carriage return the single byte 0x0D;
/// UTF-16 writes them as two bytes, the ASCII byte and a zero byte in the
/// encoding's byte order.
pub proof fn lemma_line_breaks_of_labels(label: Seq<char>)
    ensures
        label != "utf-16le"@ && label != "utf-16be"@ ==> line_breaks_for_label(label) == (
        seq![0x0Au8], seq![0x0Du8]),
        label == "utf-16le"@ ==> line_breaks_for_label(label) == (seq![0x0Au8, 0x00u8], seq![0x0Du8, 0x00u8]),
        label == "utf-16be"@ ==> line_breaks_for_label(label) == (seq![0x00u8, 0x0Au8], seq![0x00u8, 0x0Du8]),
{
    reveal_strlit("utf-16le");
    reveal_strlit("utf-16be");
    assert("utf-16le"@[6] != "utf-16be"@[6]);
}

/// Law: only UTF-8 and UTF-16 LE/BE have a byte order mark, and it is the
/// encoding of U+FEFF: EF BB BF in UTF-8, FF FE in UTF-16 LE, FE FF in UTF-16
/// BE.
pub proof fn lemma_bom_of_labels(label: Seq<char>)
    ensures
        label == "utf-8"@ ==> bom_for_label(label) == Some(seq![0xEFu8, 0xBBu8, 0xBFu8]),
        label == "utf-16le"@ ==> bom_for_label(label) == Some(seq![0xFFu8, 0xFEu8]),
        label == "utf-16be"@ ==> bom_for_label(label) == Some(seq![0xFEu8, 0xFFu8]),
        label != "utf-8"@ && label != "utf-16le"@ && label != "utf-16be"@ ==> bom_for_label(label)
            is None,
{
    reveal_strlit("utf-8");
    reveal_strlit("utf-16le");
    reveal_strlit("utf-16be");
    assert("utf-16le"@[6] != "utf-16be"@[6]);
    assert("utf-8"@.len() != "utf-16le"@.len());
    assert("utf-8"@.len() != "utf-16be"@.len());
}

/// Whether `label` is the text `name`.
fn label_is(label: &str, name: &str) -> (r: bool)
    ensures
        r == (label@ == name@),
{
    let r = bytes_eq(label.as_bytes(), name.as_bytes());
    proof {
        vstd::utf8::encode_utf8_decode_utf8(label@);
        vstd::utf8::encode_utf8_decode_utf8(name@);
    }
    r
}

/// The byte order mark of the encoding whose normalized label is `label`
/// (as `(new TextDecoder(encoding)).encoding` gives it).
pub fn bom_for_encoding_label(label: &str) -> (bom: Option<Vec<u8>>)
    ensures
        bom_for_label(label@) == match bom {
            Some(b) => Some(b@),
            None => None::<Seq<u8>>,
        },
{
    if label_is(label, "utf-8") {
        Some(vec![0xEFu8, 0xBBu8, 0xBFu8])
    } else if label_is(label, "utf-16le") {
        Some(vec![0xFFu8, 0xFEu8])
    } else if label_is(label, "utf-16be") {
        Some(vec![0xFEu8, 0xFFu8])
    } else {
        None
    }
}

/// What the stream answers to a command.
pub enum OpenReadTextFileLinesStreamEventOutput {
    Open(u32),
    Read(Vec<u8>),
    Close(()),
}

/// The bytes of an answer's response body.
pub open spec fn lines_output_bytes(o: OpenReadTextFileLinesStreamEventOutput) -> Seq<u8> {
    match o {
        OpenReadTextFileLinesStreamEventOutput::Open(id) => be_u32_bytes(id),
        OpenReadTextFileLinesStreamEventOutput::Read(bytes) => bytes@,
        OpenReadTextFileLinesStreamEventOutput::Close(_) => Seq::empty(),
    }
}

impl OpenReadTextFileLinesStreamEventOutput {
    /// The response body of an answer (`tauri::ipc::Response::try_from`): the
    /// id of an opened stream in big endian, a batch of framed lines, or
    /// nothing.
    pub fn into_response_bytes(self) -> (bytes: Vec<u8>)
        ensures
            bytes@ == lines_output_bytes(self),
    {
        match self {
            OpenReadTextFileLinesStreamEventOutput::Open(id) => convert_rid_to_bytes(id),
            OpenReadTextFileLinesStreamEventOutput::Read(bytes) => bytes,
            OpenReadTextFileLinesStreamEventOutput::Close(()) => Vec::new(),
        }
    }
}

/// The byte sequences that end a line.
pub struct LineBreaks {
    pub lf: Vec<u8>,
    pub cr: Vec<u8>,
}

/// The line breaks of the encoding whose normalized label is `label`.
pub fn line_breaks_for_encoding_label(label: &str) -> (lb: LineBreaks)
    ensures
        line_breaks_for_label(label@) == (lb.lf@, lb.cr@),
{
    if label_is(label, "utf-16le") {
        LineBreaks { lf: vec![0x0Au8, 0x00u8], cr: vec![0x0Du8, 0x00u8] }
    } else if label_is(label, "utf-16be") {
        LineBreaks { lf: vec![0x00u8, 0x0Au8], cr: vec![0x00u8, 0x0Du8] }
    } else {
        LineBreaks { lf: vec![0x0Au8], cr: vec![0x0Du8] }
    }
}

/// No proper, non-empty prefix of `chunk` ends with `terminator`.
pub open spec fn no_terminator_before_end(chunk: Seq<u8>, terminator: Seq<u8>) -> bool {
    forall|p: int| 0 < p < chunk.len() ==> !ends_with(#[trigger] chunk.take(p), terminator)
}

/// Why a read of `chunk` for `terminator` stopped: the chunk ends with the
/// terminator, or the source let no more through, or the file ended.
pub open spec fn read_stopped(chunk: Seq<u8>, terminator: Seq<u8>, allowance: nat, file_ended: bool) -> bool {
    ||| ends_with(chunk, terminator)
    ||| chunk.len() == allowance
    ||| file_ended
}

/// What a read from `before` to `after` appended to a buffer and took from a
/// source: the same bytes, within the allowance.
pub open spec fn took<R>(
    before: Source<R>,
    after: Source<R>,
    buf_before: Seq<u8>,
    buf_after: Seq<u8>,
) -> bool {
    &&& buf_before.len() <= buf_after.len()
    &&& buf_after.take(buf_before.len() as int) == buf_before
    &&& after.taken() == before.taken() + buf_after.skip(buf_before.len() as int)
    &&& buf_after.len() - buf_before.len() <= before.allowance()
    &&& after.allowance() == before.allowance() - (buf_after.len() - buf_before.len())
    &&& before.reads() <= after.reads()
    &&& before.failures() <= after.failures()
    &&& before.ends().subset_of(after.ends())
}

/// Two reads one after the other took what they appended, together.
proof fn lemma_took_trans<R>(
    s1: Source<R>,
    s2: Source<R>,
    s3: Source<R>,
    b1: Seq<u8>,
    b2: Seq<u8>,
    b3: Seq<u8>,
)
    requires
        took(s1, s2, b1, b2),
        took(s2, s3, b2, b3),
    ensures
        took(s1, s3, b1, b3),
{
    assert(b3.take(b1.len() as int) =~= b3.take(b2.len() as int).take(b1.len() as int));
    assert(b3.skip(b1.len() as int) =~= b2.skip(b1.len() as int) + b3.skip(b2.len() as int));
    assert(s1.taken() + b2.skip(b1.len() as int) + b3.skip(b2.len() as int) =~= s1.taken() + (
    b2.skip(b1.len() as int) + b3.skip(b2.len() as int)));
}

/// Nothing read, nothing taken.
proof fn lemma_took_nothing<R>(s: Source<R>, b: Seq<u8>)
    ensures
        took(s, s, b, b),
{
    assert(b.take(b.len() as int) =~= b);
    assert(b.skip(b.len() as int) =~= Seq::<u8>::empty());
    assert(s.taken() + Seq::<u8>::empty() =~= s.taken());
}

/// Reads from `r` into `buf` until the bytes read end with `bytes`, the
/// source lets no more through, or the file ends.
///
/// Fails with `invalid empty bytes` when `bytes` is empty, without reading.
/// Otherwise it reads at least once; whatever it reads it appends to `buf`;
/// on success the count is the number of bytes read, and the reading stopped
/// at the first point where they ended with `bytes`, at the allowance, or
/// where a read found the file ended.
pub fn read_until_bytes<R: std::io::BufRead>(r: &mut Source<R>, buf: &mut Vec<u8>, bytes: &[u8]) -> (res:
    Result<usize>)
    ensures
        bytes@.len() == 0 ==> {
            &&& res matches Err(e) && is_raw_error(e, "invalid empty bytes"@)
            &&& final(buf)@ == old(buf)@
            &&& *final(r) == *old(r)
        },
        took(*old(r), *final(r), old(buf)@, final(buf)@),
        res matches Ok(n) ==> {
            let chunk = final(buf)@.skip(old(buf)@.len() as int);
            &&& final(buf)@.len() == old(buf)@.len() + n
            &&& no_terminator_before_end(chunk, bytes@)
            &&& read_stopped(
                chunk,
                bytes@,
                old(r).allowance(),
                final(r).ends().contains(final(r).taken().len()),
            )
        },
        bytes@.len() > 0 ==> old(r).reads() < final(r).reads(),
        res is Ok ==> final(r).failures() == old(r).failures(),
        res is Err && bytes@.len() > 0 ==> {
            &&& res matches Err(Error::Io(_))
            &&& final(r).failures() == old(r).failures() + 1
        },
{
    if bytes.len() == 0 {
        proof {
            lemma_took_nothing(*r, buf@);
        }
        return Err(Error::with("invalid empty bytes"));
    }
    let last_byte = bytes[bytes.len() - 1];
    let ghost start = buf@.len();
    if bytes.len() == 1 {
        match r.read_until(last_byte, buf) {
            Ok(n) => {
                let ghost chunk = buf@.skip(start as int);
                assert forall|p: int| 0 < p < chunk.len() implies !ends_with(
                    #[trigger] chunk.take(p),
                    bytes@,
                ) by {
                    let t = chunk.take(p);
                    assert(t.subrange(t.len() - 1, t.len() as int)[0] == buf@[start + p - 1]);
                }
                proof {
                    if n > 0 && buf@[buf@.len() - 1] == last_byte {
                        assert(chunk.subrange(chunk.len() - 1, chunk.len() as int) =~= bytes@);
                    }
                }
                return Ok(n);
            },
            Err(e) => {
                return Err(Error::Io(io::io_error_message(&e)));
            },
        }
    }
    let mut total_n: usize = 0;
    assert(buf@.take(start as int) =~= buf@);
    assert(buf@.skip(start as int) =~= Seq::<u8>::empty());
    proof {
        lemma_took_nothing(*r, buf@);
    }
    loop
        invariant
            bytes@.len() >= 2,
            last_byte == bytes@[bytes@.len() - 1],
            start == old(buf)@.len(),
            buf@.len() == start + total_n,
            took(*old(r), *r, old(buf)@, buf@),
            total_n > 0 ==> old(r).reads() < r.reads(),
            r.failures() == old(r).failures(),
            no_terminator_before_end(buf@.skip(start as int), bytes@),
            total_n > 0 ==> !ends_with(buf@.skip(start as int), bytes@),
        decreases usize::MAX - buf@.len(),
    {
        let ghost before = buf@;
        let ghost src_before = *r;
        let n = match r.read_until(last_byte, buf) {
            Ok(n) => n,
            Err(e) => {
                proof {
                    lemma_took_trans(*old(r), src_before, *r, old(buf)@, before, buf@);
                }
                return Err(Error::Io(io::io_error_message(&e)));
            },
        };
        let new_len = buf.len();
        total_n = total_n + n;
        let ghost chunk = buf@.skip(start as int);
        proof {
            lemma_took_trans(*old(r), src_before, *r, old(buf)@, before, buf@);
            assert(buf@.take(start as int) =~= buf@.take(before.len() as int).take(start as int));
            assert(chunk =~= before.skip(start as int) + buf@.skip(before.len() as int));
            assert forall|p: int| 0 < p < chunk.len() implies !ends_with(
                #[trigger] chunk.take(p),
                bytes@,
            ) by {
                if p < total_n - n {
                    assert(chunk.take(p) =~= before.skip(start as int).take(p));
                } else if p == total_n - n {
                    assert(chunk.take(p) =~= before.skip(start as int));
                } else {
                    let t = chunk.take(p);
                    assert(buf@[start + p - 1] != last_byte);
                    if bytes@.len() <= t.len() {
                        assert(t.subrange(t.len() - bytes@.len(), t.len() as int)[bytes@.len() - 1]
                            == buf@[start + p - 1]);
                    }
                }
            }
        }
        let ends = bytes.len() <= total_n && ends_with_bytes(buf, bytes);
        proof {
            if bytes@.len() <= total_n {
                lemma_ends_with_tail(buf@.take(start as int), chunk, bytes@);
                assert(buf@ =~= buf@.take(start as int) + chunk);
            }
        }
        if n == 0 || ends {
            return Ok(total_n);
        }
    }
}

/// The bytes of `line too long` error message: `line length limit exceeded`.
pub open spec fn line_too_long_message() -> Seq<u8> {
    seq![
        0x6Cu8, 0x69u8, 0x6Eu8, 0x65u8, 0x20u8, 0x6Cu8, 0x65u8, 0x6Eu8, 0x67u8, 0x74u8, 0x68u8,
        0x20u8, 0x6Cu8, 0x69u8, 0x6Du8, 0x69u8, 0x74u8, 0x20u8, 0x65u8, 0x78u8, 0x63u8, 0x65u8,
        0x65u8, 0x64u8, 0x65u8, 0x64u8,
    ]
}

fn line_too_long_message_bytes() -> (m: Vec<u8>)
    ensures
        m@ == line_too_long_message(),
{
    vec![
        0x6Cu8, 0x69u8, 0x6Eu8, 0x65u8, 0x20u8, 0x6Cu8, 0x65u8, 0x6Eu8, 0x67u8, 0x74u8, 0x68u8,
        0x20u8, 0x6Cu8, 0x69u8, 0x6Du8, 0x69u8, 0x74u8, 0x20u8, 0x65u8, 0x78u8, 0x63u8, 0x65u8,
        0x65u8, 0x64u8, 0x65u8, 0x64u8,
    ]
}

/// What a lines reader is: its settings and how far it has come.
pub struct LinesReaderView {
    pub max_line_len: Option<u64>,
    pub lf: Seq<u8>,
    pub cr: Seq<u8>,
    pub bom: Option<Seq<u8>>,
    pub bom_handled: bool,
    pub read_limit: Option<u64>,
    pub read: u64,
    /// The bytes taken from the file so far, in order.
    pub taken: Seq<u8>,
    /// How many reads of the file were made.
    pub reads: nat,
    /// How many reads of the file failed.
    pub failures: nat,
    /// The numbers of bytes taken at which a read stopped because the file
    /// ended.
    pub ends: Set<nat>,
}

/// The latest bytes taken from the file are where a read found it ended.
pub open spec fn at_end(taken: Seq<u8>, ends: Set<nat>) -> bool {
    ends.contains(taken.len())
}

/// The settings of two reader states agree.
pub open spec fn same_settings(a: LinesReaderView, b: LinesReaderView) -> bool {
    &&& a.max_line_len == b.max_line_len
    &&& a.lf == b.lf
    &&& a.cr == b.cr
    &&& a.bom == b.bom
    &&& a.read_limit == b.read_limit
}

/// The reader has consumed as many bytes as its limit allows.
pub open spec fn limit_reached(read_limit: Option<u64>, read: u64) -> bool {
    read_limit matches Some(l) && l <= read
}

/// Law: once a reader has reached its read limit it stays there, since reads
/// never change the limit and never lower the count of bytes read; every read
/// after that point gives nothing.
pub proof fn lemma_limit_reached_stays(read_limit: Option<u64>, read: u64, later_read: u64)
    requires
        limit_reached(read_limit, read),
        read <= later_read,
    ensures
        limit_reached(read_limit, later_read),
{
}

/// A line split into its content and the type of the line break that ended
/// it: LF, CR LF, or none.
pub open spec fn split_line_break(line: Seq<u8>, lf: Seq<u8>, cr: Seq<u8>) -> (Seq<u8>, u8) {
    if ends_with(line, lf) {
        let rest = line.take(line.len() - lf.len());
        if ends_with(rest, cr) {
            (rest.take(rest.len() - cr.len()), LINE_BREAK_CRLF)
        } else {
            (rest, LINE_BREAK_LF)
        }
    } else {
        (line, LINE_BREAK_NULL)
    }
}

/// Law: a line that ends with the encoding's carriage return followed by its
/// line feed is tagged CR LF, and both are removed, whatever bytes the two
/// line breaks are.
pub proof fn lemma_split_crlf(c: Seq<u8>, lf: Seq<u8>, cr: Seq<u8>)
    ensures
        split_line_break(c + cr + lf, lf, cr) == (c, LINE_BREAK_CRLF),
{
    let line = c + cr + lf;
    assert(line.subrange(line.len() - lf.len(), line.len() as int) =~= lf);
    let rest = line.take(line.len() - lf.len());
    assert(rest =~= c + cr);
    assert(rest.subrange(rest.len() - cr.len(), rest.len() as int) =~= cr);
    assert(rest.take(rest.len() - cr.len()) =~= c);
}

/// Law: a line that ends with the line feed, not preceded by the carriage
/// return, is tagged LF and loses only the line feed.
pub proof fn lemma_split_lf(c: Seq<u8>, lf: Seq<u8>, cr: Seq<u8>)
    requires
        !ends_with(c, cr),
    ensures
        split_line_break(c + lf, lf, cr) == (c, LINE_BREAK_LF),
{
    let line = c + lf;
    assert(line.subrange(line.len() - lf.len(), line.len() as int) =~= lf);
    assert(line.take(line.len() - lf.len()) =~= c);
}

/// Law: a line that does not end with the line feed (the last line of a file,
/// or one cut at a bound) keeps all its bytes and has no line break.
pub proof fn lemma_split_none(line: Seq<u8>, lf: Seq<u8>, cr: Seq<u8>)
    requires
        !ends_with(line, lf),
    ensures
        split_line_break(line, lf, cr) == (line, LINE_BREAK_NULL),
{
}

/// Law: a reader whose byte order mark is settled frames a line of content
/// `c` ended by CR LF as the record of `c` with break type CR LF, where `c`
/// keeps to the line length limit, and as the error record otherwise.
pub proof fn lemma_frame_crlf_line(v: LinesReaderView, c: Seq<u8>)
    requires
        v.bom_handled || v.bom is None,
    ensures
        frame_line(v, c + v.cr + v.lf) == if v.max_line_len matches Some(m) && m < c.len() {
            LineRecord { failed: true, line_break: LINE_BREAK_NULL, data: line_too_long_message() }
        } else {
            LineRecord { failed: false, line_break: LINE_BREAK_CRLF, data: c }
        },
{
    lemma_split_crlf(c, v.lf, v.cr);
}

/// Law: a reader whose byte order mark is settled frames a line of content
/// `c` ended by a line feed alone as the record of `c` with break type LF,
/// where `c` keeps to the line length limit, and as the error record
/// otherwise.
pub proof fn lemma_frame_lf_line(v: LinesReaderView, c: Seq<u8>)
    requires
        v.bom_handled || v.bom is None,
        !ends_with(c, v.cr),
    ensures
        frame_line(v, c + v.lf) == if v.max_line_len matches Some(m) && m < c.len() {
            LineRecord { failed: true, line_break: LINE_BREAK_NULL, data: line_too_long_message() }
        } else {
            LineRecord { failed: false, line_break: LINE_BREAK_LF, data: c }
        },
{
    lemma_split_lf(c, v.lf, v.cr);
}

/// Law: a line that does not end with the line feed (the last line of a file)
/// is framed whole with no line break once the byte order mark is settled,
/// or as the error record where it is longer than the line length limit.
pub proof fn lemma_frame_unterminated_line(v: LinesReaderView, line: Seq<u8>)
    requires
        v.bom_handled || v.bom is None,
        !ends_with(line, v.lf),
    ensures
        frame_line(v, line) == if v.max_line_len matches Some(m) && m < line.len() {
            LineRecord { failed: true, line_break: LINE_BREAK_NULL, data: line_too_long_message() }
        } else {
            LineRecord { failed: false, line_break: LINE_BREAK_NULL, data: line }
        },
{
}

/// Law: while the byte order mark is still expected, a line that starts with
/// it loses exactly the mark, and the limit applies to what follows it; once
/// settled, the same bytes stay in the line.
pub proof fn lemma_frame_bom_line(v: LinesReaderView, b: Seq<u8>, c: Seq<u8>)
    requires
        v.bom == Some(b),
        !ends_with(b + c, v.lf),
    ensures
        !v.bom_handled ==> frame_line(v, b + c) == frame_line(
            LinesReaderView { bom_handled: true, ..v },
            c,
        ),
        v.bom_handled ==> frame_line(v, b + c).data == (if v.max_line_len matches Some(m) && m < b.len()
            + c.len() {
            line_too_long_message()
        } else {
            b + c
        }),
{
    let line = b + c;
    assert(line.take(b.len() as int) =~= b);
    assert(line.skip(b.len() as int) =~= c);
    if !ends_with(c, v.lf) {
    } else {
        assert(line.subrange(line.len() - v.lf.len(), line.len() as int) =~= c.subrange(
            c.len() - v.lf.len(),
            c.len() as int,
        ));
    }
}

/// The content without the byte order mark, where one is still expected and
/// present.
pub open spec fn strip_bom(content: Seq<u8>, bom: Option<Seq<u8>>, bom_handled: bool) -> Seq<u8> {
    match bom {
        Some(b) => if !bom_handled && starts_with(content, b) {
            content.skip(b.len() as int)
        } else {
            content
        },
        None => content,
    }
}

/// The record that a reader in state `v` makes of the bytes `line` it read.
pub open spec fn frame_line(v: LinesReaderView, line: Seq<u8>) -> LineRecord {
    let (content, line_break) = split_line_break(line, v.lf, v.cr);
    line_record(strip_bom(content, v.bom, v.bom_handled), line_break, v.max_line_len)
}

/// The record of a line whose content is `data`: the line itself, or an error
/// when it is longer than the limit.
pub open spec fn line_record(data: Seq<u8>, line_break: u8, max_line_len: Option<u64>) -> LineRecord {
    if max_line_len matches Some(m) && m < data.len() {
        LineRecord { failed: true, line_break: LINE_BREAK_NULL, data: line_too_long_message() }
    } else {
        LineRecord { failed: false, line_break, data }
    }
}

/// A batch of records as the reader produces them: each fits its header,
/// has a known line break type, and keeps to the line length limit; an error
/// record ends the batch and carries the error message.
#[verifier::opaque]
pub open spec fn valid_batch(rs: Seq<LineRecord>, max_line_len: Option<u64>) -> bool {
    forall|i: int|
        0 <= i < rs.len() ==> {
            &&& record_fits(#[trigger] rs[i])
            &&& rs[i].line_break <= LINE_BREAK_CRLF
            &&& rs[i].failed ==> {
                &&& i == rs.len() - 1
                &&& rs[i].line_break == LINE_BREAK_NULL
                &&& rs[i].data == line_too_long_message()
            }
            &&& !rs[i].failed ==> (max_line_len matches Some(m) ==> rs[i].data.len() <= m)
        }
}

/// The state in which a reader frames the `i`-th line of a batch it starts
/// in state `v`: the byte order mark is settled after the first line.
pub open spec fn state_for_line(v: LinesReaderView, i: int) -> LinesReaderView {
    LinesReaderView { bom_handled: v.bom_handled || i > 0, ..v }
}

/// Each record is the framing of a non-empty line that the reader read, in
/// the state it was in for that line.
pub open spec fn framed_from_lines(v: LinesReaderView, rs: Seq<LineRecord>, lines: Seq<Seq<u8>>) -> bool {
    &&& lines.len() == rs.len()
    &&& forall|i: int|
        0 <= i < rs.len() ==> {
            &&& (#[trigger] lines[i]).len() > 0
            &&& rs[i] == frame_line(state_for_line(v, i), lines[i])
        }
}

/// The bytes that the line break of a record stands for.
pub open spec fn line_break_bytes(line_break: u8, lf: Seq<u8>, cr: Seq<u8>) -> Seq<u8> {
    if line_break == LINE_BREAK_CRLF {
        cr + lf
    } else if line_break == LINE_BREAK_LF {
        lf
    } else {
        Seq::empty()
    }
}

/// Law: nothing of a line is lost but its byte order mark. When a line is
/// framed without error, the line is the byte order mark that was stripped
/// (if any), then the record's data, then the bytes of its line break.
pub proof fn lemma_frame_line_reconstructs(v: LinesReaderView, line: Seq<u8>)
    requires
        !frame_line(v, line).failed,
    ensures
        ({
            let r = frame_line(v, line);
            let stripped = match v.bom {
                Some(b) => if !v.bom_handled && starts_with(split_line_break(line, v.lf, v.cr).0, b) {
                    b
                } else {
                    Seq::<u8>::empty()
                },
                None => Seq::<u8>::empty(),
            };
            line == stripped + r.data + line_break_bytes(r.line_break, v.lf, v.cr)
        }),
{
    let (content, lb) = split_line_break(line, v.lf, v.cr);
    let data = strip_bom(content, v.bom, v.bom_handled);
    if ends_with(line, v.lf) {
        let rest = line.take(line.len() - v.lf.len());
        assert(line =~= rest + v.lf);
        if ends_with(rest, v.cr) {
            assert(rest =~= rest.take(rest.len() - v.cr.len()) + v.cr);
            assert(line =~= content + (v.cr + v.lf));
        } else {
            assert(line =~= content + v.lf);
        }
    } else {
        assert(line =~= content + Seq::<u8>::empty());
    }
    match v.bom {
        Some(b) => {
            if !v.bom_handled && starts_with(content, b) {
                assert(content =~= b + data);
            } else {
                assert(content =~= Seq::<u8>::empty() + data);
            }
        },
        None => {
            assert(content =~= Seq::<u8>::empty() + data);
        },
    }
}

/// The text a batch's records stand for: each record's data followed by the
/// bytes of its line break.
pub open spec fn records_text(rs: Seq<LineRecord>, lf: Seq<u8>, cr: Seq<u8>) -> Seq<u8>
    decreases rs.len(),
{
    if rs.len() == 0 {
        Seq::empty()
    } else {
        records_text(rs.drop_last(), lf, cr) + rs.last().data + line_break_bytes(
            rs.last().line_break,
            lf,
            cr,
        )
    }
}

/// The byte order mark that a reader in state `v` strips from the first of
/// `lines`: there is one where the mark is still expected and the first
/// line's content starts with it.
pub open spec fn stripped_bom(v: LinesReaderView, lines: Seq<Seq<u8>>) -> Seq<u8> {
    match v.bom {
        Some(b) => if lines.len() > 0 && !v.bom_handled && starts_with(
            split_line_break(lines[0], v.lf, v.cr).0,
            b,
        ) {
            b
        } else {
            Seq::empty()
        },
        None => Seq::empty(),
    }
}

/// Lines framed without error are the stripped byte order mark followed by
/// the text of their records.
proof fn lemma_lines_rebuild(v: LinesReaderView, rs: Seq<LineRecord>, lines: Seq<Seq<u8>>)
    requires
        framed_from_lines(v, rs, lines),
        forall|i: int| 0 <= i < rs.len() ==> !(#[trigger] rs[i]).failed,
    ensures
        concat_lines(lines) == stripped_bom(v, lines) + records_text(rs, v.lf, v.cr),
    decreases rs.len(),
{
    if rs.len() > 0 {
        let n = rs.len() - 1;
        let rs0 = rs.drop_last();
        let l0 = lines.drop_last();
        assert forall|i: int| 0 <= i < rs0.len() implies {
            &&& (#[trigger] l0[i]).len() > 0
            &&& rs0[i] == frame_line(state_for_line(v, i), l0[i])
        } by {
            assert(l0[i] == lines[i]);
            assert(rs0[i] == rs[i]);
        }
        assert forall|i: int| 0 <= i < rs0.len() implies !(#[trigger] rs0[i]).failed by {
            assert(rs0[i] == rs[i]);
        }
        lemma_lines_rebuild(v, rs0, l0);
        let w = state_for_line(v, n);
        assert(rs[n] == frame_line(w, lines[n]));
        lemma_frame_line_reconstructs(w, lines[n]);
        let tail = rs.last().data + line_break_bytes(rs.last().line_break, v.lf, v.cr);
        if n == 0 {
            assert(concat_lines(l0) =~= Seq::<u8>::empty());
            assert(records_text(rs0, v.lf, v.cr) =~= Seq::<u8>::empty());
            assert(concat_lines(lines) =~= stripped_bom(v, lines) + records_text(rs, v.lf, v.cr));
        } else {
            assert(l0[0] == lines[0]);
            assert(stripped_bom(v, l0) == stripped_bom(v, lines));
            assert(lines[n] =~= tail);
            assert(concat_lines(lines) =~= stripped_bom(v, lines) + records_text(rs, v.lf, v.cr));
        }
    }
}

/// The bytes an optional buffer holds.
pub open spec fn opt_bytes(o: Option<Vec<u8>>) -> Option<Seq<u8>> {
    match o {
        Some(b) => Some(b@),
        None => None,
    }
}

/// Overwrites the header of the record that starts at `offset`.
fn write_header(buf: &mut Vec<u8>, offset: usize, flag: u8, line_break: u8, len: u64)
    requires
        offset + HEADER_LEN <= old(buf)@.len(),
    ensures
        final(buf)@ == old(buf)@.take(offset as int) + seq![flag, line_break] + be_u64_bytes(len)
            + old(buf)@.skip(offset + HEADER_LEN),
{
    let end = buf.len();
    assert(offset + 9 < end);
    buf.set(offset, flag);
    buf.set(offset + 1, line_break);
    buf.set(offset + 2, (len >> 56u64) as u8);
    buf.set(offset + 3, (len >> 48u64) as u8);
    buf.set(offset + 4, (len >> 40u64) as u8);
    buf.set(offset + 5, (len >> 32u64) as u8);
    buf.set(offset + 6, (len >> 24u64) as u8);
    buf.set(offset + 7, (len >> 16u64) as u8);
    buf.set(offset + 8, (len >> 8u64) as u8);
    buf.set(offset + 9, len as u8);
    assert(buf@ =~= old(buf)@.take(offset as int) + seq![flag, line_break] + be_u64_bytes(len)
        + old(buf)@.skip(offset + HEADER_LEN));
}

/// Removes the line break from the line that starts at `line_offset`, giving
/// its type.
fn strip_line_break(buf: &mut Vec<u8>, line_offset: usize, lf: &[u8], cr: &[u8]) -> (line_break:
    u8)
    requires
        line_offset <= old(buf)@.len(),
    ensures
        final(buf)@ == old(buf)@.take(line_offset as int) + split_line_break(
            old(buf)@.skip(line_offset as int),
            lf@,
            cr@,
        ).0,
        line_break == split_line_break(old(buf)@.skip(line_offset as int), lf@, cr@).1,
{
    let ghost head = buf@.take(line_offset as int);
    let ghost line = buf@.skip(line_offset as int);
    assert(buf@ =~= head + line);
    let lf_len = lf.len();
    if lf_len <= buf.len() - line_offset && ends_with_bytes(buf, lf) {
        proof {
            lemma_ends_with_tail(head, line, lf@);
        }
        let new_len = buf.len() - lf_len;
        buf.truncate(new_len);
        let ghost rest = line.take(line.len() - lf@.len());
        assert(buf@ =~= head + rest);
        let cr_len = cr.len();
        if cr_len <= buf.len() - line_offset && ends_with_bytes(buf, cr) {
            proof {
                lemma_ends_with_tail(head, rest, cr@);
            }
            let new_len = buf.len() - cr_len;
            buf.truncate(new_len);
            assert(buf@ =~= head + rest.take(rest.len() - cr@.len()));
            LINE_BREAK_CRLF
        } else {
            proof {
                if cr@.len() <= rest.len() {
                    lemma_ends_with_tail(head, rest, cr@);
                }
            }
            LINE_BREAK_LF
        }
    } else {
        proof {
            if lf@.len() <= line.len() {
                lemma_ends_with_tail(head, line, lf@);
            }
        }
        LINE_BREAK_NULL
    }
}

/// Removes the byte order mark from the start of the line at `line_offset`,
/// where one is still expected and present.
fn strip_bom_in_place(buf: &mut Vec<u8>, line_offset: usize, bom: &Option<Vec<u8>>, bom_handled: bool)
    requires
        line_offset <= old(buf)@.len(),
    ensures
        final(buf)@ == old(buf)@.take(line_offset as int) + strip_bom(
            old(buf)@.skip(line_offset as int),
            opt_bytes(*bom),
            bom_handled,
        ),
{
    let ghost head = buf@.take(line_offset as int);
    let ghost content = buf@.skip(line_offset as int);
    assert(buf@ =~= head + content);
    if !bom_handled {
        match bom {
            Some(b) => {
                if starts_with_at(buf, line_offset, b.as_slice()) {
                    remove_range(buf, line_offset, b.len());
                    assert(buf@ =~= head + content.skip(b@.len() as int));
                }
            },
            None => {},
        }
    }
}

/// Writes the header of the record at `offset`, whose line content follows
/// it, or replaces the record by an error record when the line is too long.
fn finish_record(buf: &mut Vec<u8>, offset: usize, max_line_len: Option<u64>, line_break: u8) -> (failed: bool)
    requires
        offset + HEADER_LEN <= old(buf)@.len(),
    ensures
        final(buf)@ == old(buf)@.take(offset as int) + encode_record(
            line_record(old(buf)@.skip(offset + HEADER_LEN), line_break, max_line_len),
        ),
        failed == line_record(old(buf)@.skip(offset + HEADER_LEN), line_break, max_line_len).failed,
{
    let total = buf.len();
    let line_offset = offset + HEADER_LEN;
    let ghost data = buf@.skip(line_offset as int);
    let ghost rec = line_record(data, line_break, max_line_len);
    let line_len = total - line_offset;
    let too_long = match max_line_len {
        Some(m) => m < line_len as u64,
        None => false,
    };
    if too_long {
        let msg = line_too_long_message_bytes();
        write_header(buf, offset, FLAG_ERR, LINE_BREAK_NULL, msg.len() as u64);
        buf.truncate(line_offset);
        push_all(buf, msg.as_slice());
        assert(buf@ =~= old(buf)@.take(offset as int) + encode_record(rec));
        true
    } else {
        write_header(buf, offset, FLAG_OK, line_break, line_len as u64);
        assert(buf@ =~= old(buf)@.take(offset as int) + encode_record(rec));
        false
    }
}

/// Reads a text file line by line (`openReadTextFileLinesStream`).
#[verifier::reject_recursive_types(R)]
pub struct FileReader<R> {
    file: Source<R>,
    max_line_len: Option<u64>,
    line_breaks: LineBreaks,
    bom: Option<Vec<u8>>,
    bom_handled: bool,
    read_limit: Option<u64>,
    read: u64,
}

impl<R> View for FileReader<R> {
    type V = LinesReaderView;

    closed spec fn view(&self) -> LinesReaderView {
        LinesReaderView {
            max_line_len: self.max_line_len,
            lf: self.line_breaks.lf@,
            cr: self.line_breaks.cr@,
            bom: opt_bytes(self.bom),
            bom_handled: self.bom_handled,
            read_limit: self.read_limit,
            read: self.read,
            taken: self.file.taken(),
            reads: self.file.reads(),
            failures: self.file.failures(),
            ends: self.file.ends(),
        }
    }
}

impl<R: std::io::BufRead> FileReader<R> {
    /// A reader of `file` that has read nothing yet.
    pub fn new(
        file: R,
        max_line_len: Option<u64>,
        line_breaks: LineBreaks,
        bom: Option<Vec<u8>>,
        read_limit: Option<u64>,
    ) -> (reader: Self)
        ensures
            reader@ == (LinesReaderView {
                max_line_len,
                lf: line_breaks.lf@,
                cr: line_breaks.cr@,
                bom: opt_bytes(bom),
                bom_handled: false,
                read_limit,
                read: 0,
                taken: Seq::empty(),
                reads: 0,
                failures: 0,
                ends: Set::empty(),
            }),
    {
        FileReader {
            file: io::source(file),
            max_line_len,
            line_breaks,
            bom,
            read_limit,
            bom_handled: false,
            read: 0,
        }
    }

    /// A reader for the options of an open request: the encoding `label`
    /// selects the line breaks and, unless `ignore_bom`, the byte order mark;
    /// a `max_line_len` of 0 sets no line length limit.
    pub fn for_encoding(
        file: R,
        label: &str,
        max_line_len: u64,
        ignore_bom: bool,
        read_limit: Option<u64>,
    ) -> (reader: Self)
        ensures
            reader@ == (LinesReaderView {
                max_line_len: if max_line_len == 0 {
                    None
                } else {
                    Some(max_line_len)
                },
                lf: line_breaks_for_label(label@).0,
                cr: line_breaks_for_label(label@).1,
                bom: if ignore_bom {
                    None
                } else {
                    bom_for_label(label@)
                },
                bom_handled: false,
                read_limit,
                read: 0,
                taken: Seq::empty(),
                reads: 0,
                failures: 0,
                ends: Set::empty(),
            }),
    {
        let bom = if ignore_bom {
            None
        } else {
            bom_for_encoding_label(label)
        };
        let line_breaks = line_breaks_for_encoding_label(label);
        let max_line_len = if max_line_len == 0 {
            None
        } else {
            Some(max_line_len)
        };
        FileReader::new(file, max_line_len, line_breaks, bom, read_limit)
    }

    /// Reads the next lines and frames them into records, until the batch
    /// reaches `threshold` bytes, a line fails, or the file (or the read
    /// limit) ends.
    ///
    /// The batch consists of whole records, which `decode_records` splits
    /// back, each the framing (`frame_line`) of a non-empty line that was
    /// read; the lines are exactly the bytes the call took from the file, in
    /// order, but for a last read that reached the read limit, which is
    /// dropped. Each read took no more than `next_read_limit` let the line
    /// take, and stopped at its first line feed, at that bound, or at the end
    /// of the file (`line_read`). An error record (line length limit exceeded) can only be the
    /// batch's last. The batch ends early only where a line failed, the file
    /// ended, or the read limit was reached. All but the last record of a batch
    /// make up less than `threshold` bytes. Once the read limit has been
    /// reached, the batch is empty and nothing at all changes; a reader within
    /// its read limit stays within it. Without a line feed to look for, the
    /// read fails with `invalid empty bytes`; otherwise it reads the file at
    /// least once, and fails only where a read failed. The settings of the reader never
    /// change and its count of bytes read never decreases.
    #[verifier::rlimit(100)]
    pub fn read_lines_framed(&mut self, threshold: u64) -> (res: Result<Vec<u8>>)
        ensures
            same_settings(old(self)@, final(self)@),
            old(self)@.read <= final(self)@.read,
            old(self)@.bom_handled ==> final(self)@.bom_handled,
            match old(self)@.read_limit {
                Some(l) => old(self)@.read <= l ==> final(self)@.read <= l,
                None => true,
            },
            limit_reached(old(self)@.read_limit, old(self)@.read) ==> {
                &&& res matches Ok(b) && b@.len() == 0
                &&& *final(self) == *old(self)
            },
            !limit_reached(old(self)@.read_limit, old(self)@.read) && old(self)@.lf.len() == 0
                ==> (res matches Err(e) && is_raw_error(e, "invalid empty bytes"@)),
            !limit_reached(old(self)@.read_limit, old(self)@.read) && old(self)@.lf.len() > 0 ==> {
                &&& old(self)@.reads < final(self)@.reads
                &&& res is Err ==> (res matches Err(Error::Io(_)))
                &&& res is Err ==> final(self)@.failures == old(self)@.failures + 1
            },
            res is Ok ==> final(self)@.failures == old(self)@.failures,
            res matches Ok(b) ==> framed_batch(old(self)@, final(self)@, threshold, b@),
            old(self)@.taken.len() <= final(self)@.taken.len(),
            final(self)@.taken.take(old(self)@.taken.len() as int) == old(self)@.taken,
    {
        if self.limit_reached() {
            let empty: Vec<u8> = Vec::new();
            proof {
                let none = Seq::<LineRecord>::empty();
                let no_lines = Seq::<Seq<u8>>::empty();
                assert(framed_from_lines(old(self)@, none, no_lines));
                assert(concat_lines(no_lines) =~= Seq::<u8>::empty());
                assert(self@.taken =~= old(self)@.taken + concat_lines(no_lines) + Seq::<u8>::empty());
                assert(lines_taken(old(self)@, self@, none, no_lines, Seq::<u8>::empty()));
                assert(valid_batch(none, old(self)@.max_line_len)) by {
                    reveal(valid_batch);
                }
                assert(encode_records(none) =~= empty@);
                lemma_framed_batch(old(self)@, self@, threshold, none, no_lines, Seq::<u8>::empty());
                assert(self@.taken.take(old(self)@.taken.len() as int) =~= old(self)@.taken);
            }
            return Ok(empty);
        }
        let wanted = #[verifier::truncate] (threshold as usize);
        let capacity = if wanted < MAX_PREALLOCATED_BATCH {
            wanted
        } else {
            MAX_PREALLOCATED_BATCH
        };
        let mut buf: Vec<u8> = Vec::with_capacity(capacity);
        let ghost mut rs: Seq<LineRecord> = Seq::empty();
        let ghost mut lines: Seq<Seq<u8>> = Seq::empty();
        let ghost max_line_len = old(self)@.max_line_len;
        assert(buf@ =~= encode_records(rs));
        assert(valid_batch(rs, old(self)@.max_line_len)) by {
            reveal(valid_batch);
        }
        assert(concat_lines(lines) =~= Seq::<u8>::empty());
        assert(self@.taken =~= old(self)@.taken + concat_lines(lines));
        loop
            invariant
                same_settings(old(self)@, self@),
                old(self)@.read <= self@.read,
                old(self)@.bom_handled ==> self@.bom_handled,
                match old(self)@.read_limit {
                    Some(l) => self@.read <= l,
                    None => true,
                },
                buf@ == encode_records(rs),
                valid_batch(rs, old(self)@.max_line_len),
                forall|i: int| 0 <= i < rs.len() ==> !(#[trigger] rs[i]).failed,
                rs.len() > 0 ==> buf@.len() < threshold,
                rs.len() == 0 ==> buf@.len() == 0,
                !limit_reached(old(self)@.read_limit, old(self)@.read),
                !limit_reached(self@.read_limit, self@.read),
                max_line_len == old(self)@.max_line_len,
                framed_from_lines(old(self)@, rs, lines),
                self@.bom_handled == (old(self)@.bom_handled || rs.len() > 0),
                self@.taken == old(self)@.taken + concat_lines(lines),
                old(self)@.reads <= self@.reads,
                self@.failures == old(self)@.failures,
                lines.len() > 0 ==> old(self)@.reads < self@.reads,
                self@.read as int == sat_add_u64(old(self)@.read as int, concat_lines(lines).len() as int),
                forall|i: int|
                    0 <= i < lines.len() ==> line_read(old(self)@, lines, i, #[trigger] lines[i], self@.ends),
            decreases threshold - buf@.len(),
        {
            let offset = buf.len();
            let ghost batch = buf@;
            push_zeros(&mut buf, HEADER_LEN);
            let nlimit = self.next_read_limit();
            let ghost taken_before = self@.taken;
            let ghost read_before = self@.read;
            let ghost ends_before = self@.ends;
            let ghost state_before = self@;
            self.file.set_limit(nlimit);
            let nread = match read_until_bytes(&mut self.file, &mut buf, self.line_breaks.lf.as_slice()) {
                Ok(n) => n,
                Err(e) => {
                    proof {
                        assert(self@.taken.take(old(self)@.taken.len() as int) =~= old(self)@.taken);
                    }
                    return Err(e);
                },
            };
            let ghost chunk = buf@.skip(offset + HEADER_LEN);
            proof {
                lemma_next_read_limit(self@);
                assert(self@.taken == taken_before + chunk);
                lemma_line_read(old(self)@, lines, state_before, chunk, self@.ends);
                lemma_lines_read_later(old(self)@, lines, ends_before, self@.ends);
                lemma_sat_add_u64_twice(old(self)@.read as int, concat_lines(lines).len() as int, nread as int);
            }
            self.read = self.read.saturating_add(nread as u64);
            if nread == 0 || self.limit_reached() {
                buf.truncate(offset);
                proof {
                    assert(buf@ =~= batch);
                    if nread == 0 {
                        assert(chunk =~= Seq::<u8>::empty());
                        assert(!ends_with(chunk, self@.lf));
                    }
                    assert(self@.taken =~= old(self)@.taken + concat_lines(lines) + chunk);
                    assert(lines_taken(old(self)@, self@, rs, lines, chunk));
                    lemma_framed_batch(old(self)@, self@, threshold, rs, lines, chunk);
                    assert(self@.taken.take(old(self)@.taken.len() as int) =~= old(self)@.taken);
                }
                return Ok(buf);
            }
            let ghost before = self@;
            let ghost pre = buf@;
            assert(pre.take(offset as int) =~= batch);
            let ghost line = buf@.skip(offset + HEADER_LEN);
            assert(line.len() == nread);
            let failed = self.frame_line(&mut buf, offset);
            let ghost r = frame_line(before, line);
            let after = buf.len();
            proof {
                assert(buf@ == batch + encode_record(r));
                lemma_encode_records_push(rs, r);
                assert(encode_record(r).len() == HEADER_LEN + r.data.len());
                assert(r.data.len() <= after);
                lemma_push_record(rs, r, old(self)@.max_line_len);
                let prev = rs;
                let prev_lines = lines;
                lemma_lines_read_push(old(self)@, lines, line, self@.ends);
                rs = rs.push(r);
                lines = lines.push(line);
                assert(rs.drop_last() =~= prev);
                assert(lines.drop_last() =~= prev_lines);
                assert(encode_records(prev) == batch);
                assert(concat_lines(lines) == concat_lines(prev_lines) + line);
                assert(self@.taken =~= old(self)@.taken + concat_lines(lines));
                assert(frame_line(before, line) == frame_line(
                    state_for_line(old(self)@, prev.len() as int),
                    line,
                ));
                assert forall|i: int| 0 <= i < rs.len() implies {
                    &&& (#[trigger] lines[i]).len() > 0
                    &&& rs[i] == frame_line(state_for_line(old(self)@, i), lines[i])
                } by {
                    if i < prev.len() {
                        assert(lines[i] == prev_lines[i]);
                        assert(rs[i] == prev[i]);
                    }
                }
                assert(self@.taken =~= old(self)@.taken + concat_lines(lines) + Seq::<u8>::empty());
                assert(lines_taken(old(self)@, self@, rs, lines, Seq::<u8>::empty()));
                assert(self@.taken.take(old(self)@.taken.len() as int) =~= old(self)@.taken);
            }
            if failed {
                proof {
                    lemma_framed_batch(old(self)@, self@, threshold, rs, lines, Seq::<u8>::empty());
                }
                return Ok(buf);
            }
            if threshold <= buf.len() as u64 {
                proof {
                    lemma_framed_batch(old(self)@, self@, threshold, rs, lines, Seq::<u8>::empty());
                }
                return Ok(buf);
            }
        }
    }

    /// How many bytes the next line may take from the input: what the read
    /// limit leaves, and at most the line length limit plus the line breaks and
    /// the byte order mark still expected.
    fn next_read_limit(&self) -> (nlimit: u64)
        ensures
            nlimit == next_read_limit(self@),
    {
        let mut nlimit: u64 = u64::MAX;
        match self.read_limit {
            Some(read_limit) => {
                let rest = read_limit.saturating_sub(self.read);
                if rest < nlimit {
                    nlimit = rest;
                }
            },
            None => {},
        }
        match self.max_line_len {
            Some(max_line_len) => {
                let mut alpha: usize = self.line_breaks.lf.len().saturating_add(
                    self.line_breaks.cr.len(),
                );
                if !self.bom_handled {
                    let bom_len = match &self.bom {
                        Some(b) => b.len(),
                        None => 0,
                    };
                    alpha = alpha.saturating_add(bom_len);
                }
                let with_alpha = max_line_len.saturating_add(alpha as u64);
                if with_alpha < nlimit {
                    nlimit = with_alpha;
                }
            },
            None => {},
        }
        nlimit
    }

    fn limit_reached(&self) -> (r: bool)
        ensures
            r == limit_reached(self@.read_limit, self@.read),
    {
        match self.read_limit {
            Some(l) => l <= self.read,
            None => false,
        }
    }

    /// Turns the line read into `buf` after a header placeholder at `offset`
    /// into a record (`frame_line`), settling the byte order mark; gives
    /// whether the record is an error record.
    pub fn frame_line(&mut self, buf: &mut Vec<u8>, offset: usize) -> (failed: bool)
        requires
            offset + HEADER_LEN <= old(buf)@.len(),
        ensures
            final(buf)@ == old(buf)@.take(offset as int) + encode_record(
                frame_line(old(self)@, old(buf)@.skip(offset + HEADER_LEN)),
            ),
            failed == frame_line(old(self)@, old(buf)@.skip(offset + HEADER_LEN)).failed,
            final(self)@ == (LinesReaderView { bom_handled: true, ..old(self)@ }),
    {
        let total = buf.len();
        let line_offset = offset + HEADER_LEN;
        let ghost v = self@;
        let ghost head = buf@.take(line_offset as int);
        let ghost line = buf@.skip(line_offset as int);
        let ghost split = split_line_break(line, v.lf, v.cr);
        let line_break_type = strip_line_break(
            buf,
            line_offset,
            self.line_breaks.lf.as_slice(),
            self.line_breaks.cr.as_slice(),
        );
        assert(buf@.skip(line_offset as int) =~= split.0);
        strip_bom_in_place(buf, line_offset, &self.bom, self.bom_handled);
        self.bom_handled = true;
        finish_record(buf, offset, self.max_line_len, line_break_type)
    }
}

/// `min(a + b, usize::MAX)`
pub open spec fn sat_add_usize(a: int, b: int) -> int {
    if a + b > usize::MAX { usize::MAX as int } else { a + b }
}

/// `min(a + b, u64::MAX)`
pub open spec fn sat_add_u64(a: int, b: int) -> int {
    if a + b > u64::MAX { u64::MAX as int } else { a + b }
}

/// The most bytes the reader lets the next line take from the input: what the
/// read limit leaves, and at most the line length limit plus the line breaks
/// and the byte order mark still expected (which the limit does not count).
pub open spec fn next_read_limit(v: LinesReaderView) -> u64 {
    let by_read_limit: int = match v.read_limit {
        Some(l) => if l >= v.read { l - v.read } else { 0 },
        None => u64::MAX as int,
    };
    let by_line_len: int = match v.max_line_len {
        Some(m) => {
            let breaks = sat_add_usize(v.lf.len() as int, v.cr.len() as int);
            let alpha = if v.bom_handled {
                breaks
            } else {
                sat_add_usize(
                    breaks,
                    match v.bom {
                        Some(b) => b.len() as int,
                        None => 0,
                    },
                )
            };
            sat_add_u64(m as int, alpha)
        },
        None => u64::MAX as int,
    };
    (if by_read_limit < by_line_len { by_read_limit } else { by_line_len }) as u64
}

/// Law: without a read limit, the bound on a line's read leaves room for a
/// whole line of the longest allowed content followed by CR LF, and for the
/// byte order mark while it is still expected; no bound at all without a line
/// length limit. With a read limit the bound never passes what the limit
/// leaves.
pub proof fn lemma_next_read_limit_room(v: LinesReaderView)
    ensures
        v.read_limit is None && v.max_line_len is None ==> next_read_limit(v) == u64::MAX,
        v.read_limit is None ==> (v.max_line_len matches Some(m) ==> next_read_limit(v) as int
            >= sat_add_u64(
            m as int,
            sat_add_usize(
                v.lf.len() as int,
                v.cr.len() as int,
            ),
        )),
        v.read_limit is None && !v.bom_handled ==> (v.max_line_len matches Some(m) ==> (
        v.bom matches Some(b) ==> next_read_limit(v) as int >= sat_add_u64(
            m as int,
            sat_add_usize(sat_add_usize(v.lf.len() as int, v.cr.len() as int), b.len() as int),
        ))),
        v.max_line_len matches Some(m) ==> next_read_limit(v) as int <= m + v.lf.len() + v.cr.len()
            + match v.bom {
            Some(b) => if v.bom_handled {
                0
            } else {
                b.len() as int
            },
            None => 0,
        },
        v.read_limit matches Some(l) ==> next_read_limit(v) as int <= if l >= v.read {
            l - v.read
        } else {
            0
        },
{
}

/// Law: a line whose content keeps to the line length limit, followed by CR
/// LF, fits within the bound on its read when no read limit applies (and
/// the lengths fit the machine).
pub proof fn lemma_allowed_line_fits(v: LinesReaderView, c: Seq<u8>)
    requires
        v.read_limit is None,
        v.max_line_len matches Some(m) && c.len() <= m,
        c.len() + v.cr.len() + v.lf.len() <= u64::MAX,
        v.cr.len() + v.lf.len() <= usize::MAX,
    ensures
        (c + v.cr + v.lf).len() <= next_read_limit(v),
{
    lemma_next_read_limit_room(v);
}

/// What the read limit of a reader that has not reached it lets the next
/// line take: something, and no more than the limit leaves.
proof fn lemma_next_read_limit(v: LinesReaderView)
    requires
        !limit_reached(v.read_limit, v.read),
        v.lf.len() > 0,
    ensures
        next_read_limit(v) > 0,
        v.read_limit matches Some(l) ==> v.read + next_read_limit(v) <= l,
{
}

/// A batch that grows by one more record stays valid when no earlier record
/// failed and the new one fits.
proof fn lemma_push_record(rs: Seq<LineRecord>, r: LineRecord, max_line_len: Option<u64>)
    requires
        valid_batch(rs, max_line_len),
        forall|i: int| 0 <= i < rs.len() ==> !(#[trigger] rs[i]).failed,
        record_fits(r),
        r.line_break <= LINE_BREAK_CRLF,
        r.failed ==> r.line_break == LINE_BREAK_NULL && r.data == line_too_long_message(),
        !r.failed ==> (max_line_len matches Some(m) ==> r.data.len() <= m),
    ensures
        valid_batch(rs.push(r), max_line_len),
{
    reveal(valid_batch);
    let rs2 = rs.push(r);
    assert forall|i: int| 0 <= i < rs2.len() implies {
        &&& record_fits(#[trigger] rs2[i])
        &&& rs2[i].line_break <= LINE_BREAK_CRLF
        &&& rs2[i].failed ==> {
            &&& i == rs2.len() - 1
            &&& rs2[i].line_break == LINE_BREAK_NULL
            &&& rs2[i].data == line_too_long_message()
        }
        &&& !rs2[i].failed ==> (max_line_len matches Some(m) ==> rs2[i].data.len() <= m)
    } by {
        if i == rs.len() {
            assert(rs2[i] == r);
        } else {
            assert(rs2[i] == rs[i]);
        }
    }
}

/// What a batch of `read_lines_framed` is, for a reader that went from state
/// `before` to `after`: whole records that decode back, valid, within the
/// threshold but for the last, each the framing of a line the reader read;
/// and when there is a record, the byte order mark is settled.
pub open spec fn framed_batch(
    before: LinesReaderView,
    after: LinesReaderView,
    threshold: u64,
    b: Seq<u8>,
) -> bool {
    &&& decode_records(b) matches Some(rs)
    &&& b == encode_records(rs)
    &&& valid_batch(rs, before.max_line_len)
    &&& rs.len() > 1 ==> encode_records(rs.drop_last()).len() < threshold
    &&& exists|lines: Seq<Seq<u8>>, tail: Seq<u8>| lines_taken(before, after, rs, lines, tail)
    &&& rs.len() > 0 ==> after.bom_handled
    &&& batch_stopped(after, threshold, rs, b)
}

/// The lines behind the records of a batch are exactly the bytes the batch
/// took from the file, in order; only a read that reached the read limit may
/// leave a tail behind them, which the batch drops.
pub open spec fn lines_taken(
    before: LinesReaderView,
    after: LinesReaderView,
    rs: Seq<LineRecord>,
    lines: Seq<Seq<u8>>,
    tail: Seq<u8>,
) -> bool {
    &&& framed_from_lines(before, rs, lines)
    &&& after.taken == before.taken + concat_lines(lines) + tail
    &&& tail.len() > 0 ==> limit_reached(after.read_limit, after.read)
    &&& forall|i: int|
        0 <= i < lines.len() ==> line_read(before, lines, i, #[trigger] lines[i], after.ends)
    &&& tail.len() > 0 ==> line_read(before, lines, lines.len() as int, tail, after.ends)
}

/// The state in which a reader reads the `i`-th line of a batch it starts in
/// state `v`, after reading the lines before it.
pub open spec fn state_for_read(v: LinesReaderView, lines: Seq<Seq<u8>>, i: int) -> LinesReaderView {
    LinesReaderView {
        bom_handled: v.bom_handled || i > 0,
        read: sat_add_u64(v.read as int, concat_lines(lines.take(i)).len() as int) as u64,
        ..v
    }
}

/// The `i`-th read of a batch, which gave `line`: it took no more than the
/// reader let the line take (`next_read_limit`), and stopped at the first
/// line feed, at that bound, or where a read found the file ended right
/// after the line (a point of `ends`).
#[verifier::opaque]
pub open spec fn line_read(
    v: LinesReaderView,
    lines: Seq<Seq<u8>>,
    i: int,
    line: Seq<u8>,
    ends: Set<nat>,
) -> bool {
    let lim = next_read_limit(state_for_read(v, lines, i));
    let line_end = v.taken.len() + concat_lines(lines.take(i)).len() + line.len();
    &&& line.len() <= lim
    &&& no_terminator_before_end(line, v.lf)
    &&& read_stopped(line, v.lf, lim as nat, ends.contains(line_end as nat))
}

/// A reader in the midst of a batch reads its next line in the state that
/// `state_for_read` gives.
proof fn lemma_state_for_read(v: LinesReaderView, lines: Seq<Seq<u8>>, cur: LinesReaderView)
    requires
        same_settings(v, cur),
        cur.read as int == sat_add_u64(v.read as int, concat_lines(lines).len() as int),
        cur.bom_handled == (v.bom_handled || lines.len() > 0),
    ensures
        next_read_limit(cur) == next_read_limit(state_for_read(v, lines, lines.len() as int)),
{
    assert(lines.take(lines.len() as int) =~= lines);
}

/// A read for the next line of a batch, bounded by what the reader lets it
/// take, that stopped at the first line feed, the bound or the end of the file.
proof fn lemma_line_read(
    v: LinesReaderView,
    lines: Seq<Seq<u8>>,
    cur: LinesReaderView,
    line: Seq<u8>,
    ends: Set<nat>,
)
    requires
        same_settings(v, cur),
        cur.read as int == sat_add_u64(v.read as int, concat_lines(lines).len() as int),
        cur.bom_handled == (v.bom_handled || lines.len() > 0),
        line.len() <= next_read_limit(cur),
        no_terminator_before_end(line, v.lf),
        read_stopped(
            line,
            v.lf,
            next_read_limit(cur) as nat,
            ends.contains((v.taken.len() + concat_lines(lines).len() + line.len()) as nat),
        ),
    ensures
        line_read(v, lines, lines.len() as int, line, ends),
{
    reveal(line_read);
    lemma_state_for_read(v, lines, cur);
    assert(lines.take(lines.len() as int) =~= lines);
}

/// What the reads of a batch stopped at stays true as the file is found to
/// end.
proof fn lemma_lines_read_later(v: LinesReaderView, lines: Seq<Seq<u8>>, e1: Set<nat>, e2: Set<nat>)
    requires
        forall|i: int| 0 <= i < lines.len() ==> line_read(v, lines, i, #[trigger] lines[i], e1),
        e1.subset_of(e2),
    ensures
        forall|i: int| 0 <= i < lines.len() ==> line_read(v, lines, i, #[trigger] lines[i], e2),
{
    reveal(line_read);
}

/// One more line read.
proof fn lemma_lines_read_push(v: LinesReaderView, lines: Seq<Seq<u8>>, line: Seq<u8>, e: Set<nat>)
    requires
        forall|i: int| 0 <= i < lines.len() ==> line_read(v, lines, i, #[trigger] lines[i], e),
        line_read(v, lines, lines.len() as int, line, e),
    ensures
        forall|i: int|
            0 <= i < lines.len() + 1 ==> line_read(v, lines.push(line), i, #[trigger] lines.push(line)[i], e),
{
    reveal(line_read);
    let l2 = lines.push(line);
    assert forall|i: int| 0 <= i < lines.len() + 1 implies line_read(v, l2, i, #[trigger] l2[i], e) by {
        assert(l2.take(i) =~= lines.take(i));
        assert(state_for_read(v, l2, i) == state_for_read(v, lines, i));
        if i < lines.len() {
            assert(l2[i] == lines[i]);
        }
    }
}

/// Counting in two saturating steps is counting the sum.
proof fn lemma_sat_add_u64_twice(a: int, x: int, y: int)
    requires
        0 <= a <= u64::MAX,
        0 <= x,
        0 <= y,
    ensures
        sat_add_u64(sat_add_u64(a, x), y) == sat_add_u64(a, x + y),
{
}

/// Why a batch ended: its last record failed, it reached the threshold, the
/// file ended, or the read limit was reached.
pub open spec fn batch_stopped(after: LinesReaderView, threshold: u64, rs: Seq<LineRecord>, b: Seq<u8>) -> bool {
    ||| rs.len() > 0 && rs.last().failed
    ||| rs.len() > 0 && threshold <= b.len()
    ||| at_end(after.taken, after.ends)
    ||| limit_reached(after.read_limit, after.read)
}

/// Law: the records of a batch rebuild what the batch took from the file.
/// Where no record failed, the bytes taken are the byte order mark stripped
/// from the first line (if any), then each record's data followed by the
/// bytes of its line break, then a dropped tail only where the read limit was
/// reached.
pub proof fn lemma_batch_rebuilds_taken(
    before: LinesReaderView,
    after: LinesReaderView,
    threshold: u64,
    b: Seq<u8>,
)
    requires
        framed_batch(before, after, threshold, b),
        forall|i: int|
            0 <= i < decode_records(b)->0.len() ==> !(#[trigger] decode_records(b)->0[i]).failed,
    ensures
        exists|stripped: Seq<u8>, tail: Seq<u8>|
            {
                &&& after.taken == before.taken + stripped + records_text(
                    decode_records(b)->0,
                    before.lf,
                    before.cr,
                ) + tail
                &&& stripped.len() > 0 ==> !before.bom_handled && before.bom == Some(stripped)
                &&& tail.len() > 0 ==> limit_reached(after.read_limit, after.read)
            },
{
    let rs = decode_records(b)->0;
    let (lines, tail) = choose|lines: Seq<Seq<u8>>, tail: Seq<u8>|
        lines_taken(before, after, rs, lines, tail);
    lemma_lines_taken_rebuild(before, after, rs, lines, tail);
}

/// The text of consecutive batches: the text of each one's records, in order.
pub open spec fn batches_text(bs: Seq<Seq<u8>>, lf: Seq<u8>, cr: Seq<u8>) -> Seq<u8>
    decreases bs.len(),
{
    if bs.len() == 0 {
        Seq::empty()
    } else {
        batches_text(bs.drop_last(), lf, cr) + records_text(decode_records(bs.last())->0, lf, cr)
    }
}

/// No record of the batch `b` is an error record.
pub open spec fn no_failed_record(b: Seq<u8>) -> bool {
    forall|i: int|
        0 <= i < decode_records(b)->0.len() ==> !(#[trigger] decode_records(b)->0[i]).failed
}

/// One call of `read_lines_framed` that returned the batch `b`, with no
/// error record, from a reader in state `before` to `after`.
#[verifier::opaque]
pub open spec fn batch_call(before: LinesReaderView, after: LinesReaderView, threshold: u64, b: Seq<u8>) -> bool {
    &&& same_settings(before, after)
    &&& before.bom_handled ==> after.bom_handled
    &&& framed_batch(before, after, threshold, b)
    &&& no_failed_record(b)
}

/// Law: over consecutive calls without a read limit, the records rebuild all
/// that was taken from the file. Where no record failed, the bytes taken from
/// the first call's start to the last call's end are the byte order mark
/// stripped from the very first line (if any), then each record's data
/// followed by the bytes of its line break, batch after batch; and where the
/// last batch is empty, a read found the file ended at that point.
pub proof fn lemma_batches_rebuild_taken(vs: Seq<LinesReaderView>, ts: Seq<u64>, bs: Seq<Seq<u8>>)
    requires
        vs.len() == bs.len() + 1,
        ts.len() == bs.len(),
        vs[0].read_limit is None,
        forall|i: int| 0 <= i < bs.len() ==> #[trigger] batch_call(vs[i], vs[i + 1], ts[i], bs[i]),
    ensures
        exists|stripped: Seq<u8>|
            {
                &&& vs.last().taken == vs[0].taken + stripped + batches_text(bs, vs[0].lf, vs[0].cr)
                &&& stripped.len() > 0 ==> !vs[0].bom_handled && vs[0].bom == Some(stripped)
            },
        bs.len() > 0 && bs.last().len() == 0 ==> at_end(vs.last().taken, vs.last().ends),
    decreases bs.len(),
{
    let stripped = lemma_batches_rebuild(vs, ts, bs);
    if bs.len() > 0 && bs.last().len() == 0 {
        let k = bs.len() - 1;
        assert(batch_call(vs[k], vs[k + 1], ts[k], bs[k]));
        reveal(batch_call);
        lemma_settings_kept(vs, ts, bs, k);
        let rs = decode_records(bs[k])->0;
        if rs.len() > 0 {
            lemma_encode_records_push(rs.drop_last(), rs.last());
            assert(rs.drop_last().push(rs.last()) =~= rs);
        }
        assert(same_settings(vs[k], vs[k + 1]));
    }
}

/// Settings never change from call to call.
proof fn lemma_settings_kept(vs: Seq<LinesReaderView>, ts: Seq<u64>, bs: Seq<Seq<u8>>, k: int)
    requires
        vs.len() == bs.len() + 1,
        ts.len() == bs.len(),
        0 <= k <= bs.len(),
        forall|i: int| 0 <= i < bs.len() ==> #[trigger] batch_call(vs[i], vs[i + 1], ts[i], bs[i]),
    ensures
        same_settings(vs[0], vs[k]),
    decreases k,
{
    if k > 0 {
        lemma_settings_kept(vs, ts, bs, k - 1);
        assert(same_settings(vs[k - 1], vs[k])) by {
            let j = k - 1;
            assert(batch_call(vs[j], vs[j + 1], ts[j], bs[j]));
            reveal(batch_call);
        }
    }
}

/// The stripped byte order mark of `lemma_batches_rebuild_taken`; none where
/// the mark is still expected after the last call.
proof fn lemma_batches_rebuild(vs: Seq<LinesReaderView>, ts: Seq<u64>, bs: Seq<Seq<u8>>) -> (stripped: Seq<u8>)
    requires
        vs.len() == bs.len() + 1,
        ts.len() == bs.len(),
        vs[0].read_limit is None,
        forall|i: int| 0 <= i < bs.len() ==> #[trigger] batch_call(vs[i], vs[i + 1], ts[i], bs[i]),
    ensures
        vs.last().taken == vs[0].taken + stripped + batches_text(bs, vs[0].lf, vs[0].cr),
        stripped.len() > 0 ==> !vs[0].bom_handled && vs[0].bom == Some(stripped),
        !vs.last().bom_handled ==> stripped.len() == 0 && batches_text(bs, vs[0].lf, vs[0].cr).len() == 0,
        vs[0].bom_handled ==> vs.last().bom_handled,
    decreases bs.len(),
{
    if bs.len() == 0 {
        assert(vs[0].taken + Seq::<u8>::empty() + Seq::<u8>::empty() =~= vs[0].taken);
        Seq::empty()
    } else {
        let k = bs.len() - 1;
        let vs0 = vs.drop_last();
        let ts0 = ts.drop_last();
        let bs0 = bs.drop_last();
        assert forall|i: int| 0 <= i < bs0.len() implies #[trigger] batch_call(vs0[i], vs0[i + 1], ts0[i], bs0[i]) by {
            assert(batch_call(vs[i], vs[i + 1], ts[i], bs[i]));
        }
        let s0 = lemma_batches_rebuild(vs0, ts0, bs0);
        lemma_settings_kept(vs, ts, bs, k);
        let before = vs[k];
        let after = vs[k + 1];
        assert(vs0.last() == before);
        assert(batch_call(before, after, ts[k], bs[k]));
        reveal(batch_call);
        let rs = decode_records(bs[k])->0;
        let (lines, tail) = choose|lines: Seq<Seq<u8>>, tail: Seq<u8>|
            lines_taken(before, after, rs, lines, tail);
        lemma_lines_taken_rebuild(before, after, rs, lines, tail);
        let sk = stripped_bom(before, lines);
        let tk = records_text(rs, before.lf, before.cr);
        let prev = batches_text(bs0, vs[0].lf, vs[0].cr);
        assert(tail.len() == 0);
        assert(batches_text(bs, vs[0].lf, vs[0].cr) == prev + tk);
        if rs.len() == 0 {
            assert(tk =~= Seq::<u8>::empty());
        }
        if lines.len() == 0 {
            assert(sk =~= Seq::<u8>::empty());
        }
        if sk.len() > 0 {
            assert(!before.bom_handled);
            assert(s0.len() == 0 && prev.len() == 0);
            assert(prev =~= Seq::<u8>::empty());
            assert(s0 =~= Seq::<u8>::empty());
            assert(after.taken =~= vs[0].taken + sk + (prev + tk));
            sk
        } else {
            assert(sk =~= Seq::<u8>::empty());
            assert(after.taken =~= vs[0].taken + s0 + (prev + tk));
            s0
        }
    }
}

/// The lines behind a batch, framed without error, are the stripped byte
/// order mark followed by the text of their records.
proof fn lemma_lines_taken_rebuild(
    before: LinesReaderView,
    after: LinesReaderView,
    rs: Seq<LineRecord>,
    lines: Seq<Seq<u8>>,
    tail: Seq<u8>,
)
    requires
        lines_taken(before, after, rs, lines, tail),
        forall|i: int| 0 <= i < rs.len() ==> !(#[trigger] rs[i]).failed,
    ensures
        after.taken == before.taken + stripped_bom(before, lines) + records_text(rs, before.lf, before.cr)
            + tail,
        stripped_bom(before, lines).len() > 0 ==> !before.bom_handled && before.bom == Some(
            stripped_bom(before, lines),
        ),
        tail.len() > 0 ==> limit_reached(after.read_limit, after.read),
{
    lemma_lines_rebuild(before, rs, lines);
    let stripped = stripped_bom(before, lines);
    let text = records_text(rs, before.lf, before.cr);
    assert(after.taken =~= before.taken + stripped + text + tail);
}

/// The bytes of consecutive lines.
pub open spec fn concat_lines(lines: Seq<Seq<u8>>) -> Seq<u8>
    decreases lines.len(),
{
    if lines.len() == 0 {
        Seq::empty()
    } else {
        concat_lines(lines.drop_last()) + lines.last()
    }
}

proof fn lemma_framed_batch(
    before: LinesReaderView,
    after: LinesReaderView,
    threshold: u64,
    rs: Seq<LineRecord>,
    lines: Seq<Seq<u8>>,
    tail: Seq<u8>,
)
    requires
        valid_batch(rs, before.max_line_len),
        rs.len() > 1 ==> encode_records(rs).len() < threshold || encode_records(rs.drop_last()).len()
            < threshold,
        lines_taken(before, after, rs, lines, tail),
        rs.len() > 0 ==> after.bom_handled,
        batch_stopped(after, threshold, rs, encode_records(rs)),
    ensures
        framed_batch(before, after, threshold, encode_records(rs)),
{
    lemma_batch_decodes(rs, before.max_line_len, threshold);
}

/// A valid batch decodes into its own records, and its records but the last
/// take no more bytes than the whole.
proof fn lemma_batch_decodes(rs: Seq<LineRecord>, max_line_len: Option<u64>, threshold: u64)
    requires
        valid_batch(rs, max_line_len),
        rs.len() > 1 ==> encode_records(rs).len() < threshold || encode_records(rs.drop_last()).len() < threshold,
    ensures
        decode_records(encode_records(rs)) == Some(rs),
        rs.len() > 1 ==> encode_records(rs.drop_last()).len() < threshold,
{
    if rs.len() > 0 {
        lemma_encode_records_push(rs.drop_last(), rs.last());
        assert(rs.drop_last().push(rs.last()) =~= rs);
    }
    reveal(valid_batch);
    assert forall|i: int| 0 <= i < rs.len() implies record_fits(#[trigger] rs[i]) by {}
    lemma_decode_encode_records(rs);
}

} // verus!

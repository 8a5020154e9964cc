//! The framing of text lines into records: the byte format that
//! `read_lines_framed` produces, its decoder, and the laws that tie them.
//!
//! A record is
//! - an error flag (`u8`: 0 = ok, 1 = error),
//! - a line break type (`u8`: 0 = none, 1 = LF, 2 = CR LF),
//! - the length of the line bytes (`u64`, big endian),
//! - the line bytes.

use vstd::prelude::*;

verus! {

pub const ERR_FLAG_LEN: usize = 1;
pub const LINE_BREAK_TYPE_LEN: usize = 1;
pub const LINE_LEN_LEN: usize = 8;
pub const HEADER_LEN: usize = 10;

pub const FLAG_OK: u8 = 0;
pub const FLAG_ERR: u8 = 1;
pub const LINE_BREAK_NULL: u8 = 0;
pub const LINE_BREAK_LF: u8 = 1;
pub const LINE_BREAK_CRLF: u8 = 2;

/// The big-endian encoding of `n` (`u64::to_be_bytes`).
pub open spec fn be_u64_bytes(n: u64) -> Seq<u8> {
    seq![
        (n >> 56u64) as u8,
        (n >> 48u64) as u8,
        (n >> 40u64) as u8,
        (n >> 32u64) as u8,
        (n >> 24u64) as u8,
        (n >> 16u64) as u8,
        (n >> 8u64) as u8,
        n as u8,
    ]
}

/// The number whose big-endian encoding is the first eight bytes of `b`
/// (`u64::from_be_bytes`).
pub open spec fn u64_from_be_bytes(b: Seq<u8>) -> u64 {
    ((b[0] as u64) << 56u64) | ((b[1] as u64) << 48u64) | ((b[2] as u64) << 40u64) | ((
    b[3] as u64) << 32u64) | ((b[4] as u64) << 24u64) | ((b[5] as u64) << 16u64) | ((
    b[6] as u64) << 8u64) | (b[7] as u64)
}

/// Law: decoding the big-endian encoding of a number gives the number back.
pub proof fn lemma_be_u64_roundtrip(n: u64)
    ensures
        u64_from_be_bytes(be_u64_bytes(n)) == n,
{
    let b = be_u64_bytes(n);
    let (b0, b1, b2, b3, b4, b5, b6, b7) = (b[0], b[1], b[2], b[3], b[4], b[5], b[6], b[7]);
    assert(((b0 as u64) << 56u64) | ((b1 as u64) << 48u64) | ((b2 as u64) << 40u64) | ((
    b3 as u64) << 32u64) | ((b4 as u64) << 24u64) | ((b5 as u64) << 16u64) | ((b6 as u64)
        << 8u64) | (b7 as u64) == n) by (bit_vector)
        requires
            b0 == (n >> 56u64) as u8,
            b1 == (n >> 48u64) as u8,
            b2 == (n >> 40u64) as u8,
            b3 == (n >> 32u64) as u8,
            b4 == (n >> 24u64) as u8,
            b5 == (n >> 16u64) as u8,
            b6 == (n >> 8u64) as u8,
            b7 == n as u8,
    ;
}

/// The number that the bytes `s` spell in base 256, most significant first.
pub open spec fn base256_value(s: Seq<u8>) -> nat
    decreases s.len(),
{
    if s.len() == 0 {
        0
    } else {
        base256_value(s.drop_last()) * 256 + s.last() as nat
    }
}

/// Law: the big-endian encoding of a number is eight bytes that spell the
/// number in base 256, most significant byte first.
pub proof fn lemma_be_u64_value(n: u64)
    ensures
        be_u64_bytes(n).len() == 8,
        base256_value(be_u64_bytes(n)) == n,
{
    let b = be_u64_bytes(n);
    let (b0, b1, b2, b3, b4, b5, b6, b7) = (b[0], b[1], b[2], b[3], b[4], b[5], b[6], b[7]);
    assert(b.take(0) =~= Seq::<u8>::empty());
    assert(base256_value(b.take(1)) == b0 as nat) by {
        assert(b.take(1).drop_last() =~= b.take(0));
        assert(base256_value(b.take(0)) == 0);
        assert(b.take(1).last() == b0);
    }
    assert(base256_value(b.take(2)) == base256_value(b.take(1)) * 256 + b1 as nat) by {
        assert(b.take(2).drop_last() =~= b.take(1));
    }
    assert(base256_value(b.take(3)) == base256_value(b.take(2)) * 256 + b2 as nat) by {
        assert(b.take(3).drop_last() =~= b.take(2));
    }
    assert(base256_value(b.take(4)) == base256_value(b.take(3)) * 256 + b3 as nat) by {
        assert(b.take(4).drop_last() =~= b.take(3));
    }
    assert(base256_value(b.take(5)) == base256_value(b.take(4)) * 256 + b4 as nat) by {
        assert(b.take(5).drop_last() =~= b.take(4));
    }
    assert(base256_value(b.take(6)) == base256_value(b.take(5)) * 256 + b5 as nat) by {
        assert(b.take(6).drop_last() =~= b.take(5));
    }
    assert(base256_value(b.take(7)) == base256_value(b.take(6)) * 256 + b6 as nat) by {
        assert(b.take(7).drop_last() =~= b.take(6));
    }
    assert(base256_value(b) == base256_value(b.take(7)) * 256 + b7 as nat) by {
        assert(b.drop_last() =~= b.take(7));
    }
    assert(base256_value(b) == ((((((b0 as nat * 256 + b1 as nat) * 256 + b2 as nat) * 256 + b3 as nat)
        * 256 + b4 as nat) * 256 + b5 as nat) * 256 + b6 as nat) * 256 + b7 as nat);
    assert(n == (((((((b0 as u64) * 256 + (b1 as u64)) * 256 + (b2 as u64)) * 256 + (b3 as u64))
        * 256 + (b4 as u64)) * 256 + (b5 as u64)) * 256 + (b6 as u64)) * 256 + (b7 as u64))
        by (bit_vector)
        requires
            b0 == (n >> 56u64) as u8,
            b1 == (n >> 48u64) as u8,
            b2 == (n >> 40u64) as u8,
            b3 == (n >> 32u64) as u8,
            b4 == (n >> 24u64) as u8,
            b5 == (n >> 16u64) as u8,
            b6 == (n >> 8u64) as u8,
            b7 == n as u8,
    ;
}

/// One record: whether it reports an error, its line break type, and its
/// line bytes (for an error record, the UTF-8 error message).
pub struct LineRecord {
    pub failed: bool,
    pub line_break: u8,
    pub data: Seq<u8>,
}

/// The bytes of one record.
pub open spec fn encode_record(r: LineRecord) -> Seq<u8> {
    seq![if r.failed { FLAG_ERR } else { FLAG_OK }, r.line_break] + be_u64_bytes(
        r.data.len() as u64,
    ) + r.data
}

/// Law: a record is its flag byte (1 for an error record, 0 otherwise), its
/// line break type, eight bytes that spell the number of line bytes in base
/// 256 (most significant first), then the line bytes.
pub proof fn lemma_record_layout(r: LineRecord)
    requires
        record_fits(r),
    ensures
        encode_record(r).len() == 10 + r.data.len(),
        encode_record(r)[0] == (if r.failed { 1u8 } else { 0u8 }),
        encode_record(r)[1] == r.line_break,
        base256_value(encode_record(r).subrange(2, 10)) == r.data.len(),
        encode_record(r).skip(10) == r.data,
{
    let e = encode_record(r);
    lemma_be_u64_value(r.data.len() as u64);
    assert(e.subrange(2, 10) =~= be_u64_bytes(r.data.len() as u64));
    assert(e.skip(10) =~= r.data);
}

/// The bytes of consecutive records.
pub open spec fn encode_records(rs: Seq<LineRecord>) -> Seq<u8>
    decreases rs.len(),
{
    if rs.len() == 0 {
        seq![]
    } else {
        encode_record(rs[0]) + encode_records(rs.drop_first())
    }
}

/// Splits bytes into records; `None` when they are not a whole number of
/// well-formed records.
pub open spec fn decode_records(s: Seq<u8>) -> Option<Seq<LineRecord>>
    decreases s.len(),
{
    if s.len() == 0 {
        Some(seq![])
    } else if s.len() < HEADER_LEN || s[0] > FLAG_ERR {
        None
    } else {
        let len = u64_from_be_bytes(s.subrange(2, 10)) as int;
        if s.len() - HEADER_LEN < len {
            None
        } else {
            match decode_records(s.skip(HEADER_LEN + len)) {
                Some(rest) => Some(
                    seq![
                        LineRecord {
                            failed: s[0] == FLAG_ERR,
                            line_break: s[1],
                            data: s.subrange(HEADER_LEN as int, HEADER_LEN + len),
                        },
                    ] + rest,
                ),
                None => None,
            }
        }
    }
}

/// A record whose length fits its length field.
pub open spec fn record_fits(r: LineRecord) -> bool {
    r.data.len() <= u64::MAX
}

pub proof fn lemma_encode_records_push(rs: Seq<LineRecord>, r: LineRecord)
    ensures
        encode_records(rs.push(r)) == encode_records(rs) + encode_record(r),
    decreases rs.len(),
{
    if rs.len() == 0 {
        let single = rs.push(r);
        assert(single.drop_first() =~= Seq::<LineRecord>::empty());
        assert(single[0] == r);
        assert(encode_records(single.drop_first()) =~= Seq::<u8>::empty());
        assert(encode_records(single) =~= encode_record(r));
        assert(encode_records(rs) =~= Seq::<u8>::empty());
    } else {
        lemma_encode_records_push(rs.drop_first(), r);
        assert(rs.push(r).drop_first() =~= rs.drop_first().push(r));
        assert(encode_records(rs.push(r)) =~= encode_records(rs) + encode_record(r));
    }
}

/// Decoding a record followed by more bytes yields the record, then whatever
/// the rest decodes to.
#[verifier::rlimit(30)]
pub proof fn lemma_decode_record_then(r: LineRecord, t: Seq<u8>)
    requires
        record_fits(r),
    ensures
        decode_records(encode_record(r) + t) == match decode_records(t) {
            Some(rest) => Some(seq![r] + rest),
            None => None::<Seq<LineRecord>>,
        },
{
    let head = encode_record(r);
    let s = head + t;
    let len = r.data.len();
    lemma_be_u64_roundtrip(len as u64);
    assert(head.len() == HEADER_LEN + len);
    assert(s[0] == head[0]);
    assert(s[1] == head[1]);
    assert(s.subrange(2, 10) =~= be_u64_bytes(len as u64));
    assert(s.skip(HEADER_LEN + len) =~= t);
    assert(s.subrange(HEADER_LEN as int, HEADER_LEN + len) =~= r.data);
}

/// Law: the framing never splits or merges records. Records encoded one after
/// another decode into exactly those records.
#[verifier::rlimit(40)]
pub proof fn lemma_decode_encode_records(rs: Seq<LineRecord>)
    requires
        forall|i: int| 0 <= i < rs.len() ==> record_fits(#[trigger] rs[i]),
    ensures
        decode_records(encode_records(rs)) == Some(rs),
    decreases rs.len(),
{
    if rs.len() > 0 {
        let tail = rs.drop_first();
        assert forall|i: int| 0 <= i < tail.len() implies record_fits(#[trigger] tail[i]) by {
            assert(tail[i] == rs[i + 1]);
        }
        lemma_decode_encode_records(tail);
        assert(record_fits(rs[0]));
        lemma_decode_record_then(rs[0], encode_records(tail));
        assert(seq![rs[0]] + tail =~= rs);
    } else {
        assert(encode_records(rs) =~= Seq::<u8>::empty());
    }
}

} // verus!

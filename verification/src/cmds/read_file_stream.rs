//! `openReadFileStream`: reads a file in chunks, never past the size it was
//! frozen at when opened.

use vstd::prelude::*;
use crate::error::{Error, Result};
use crate::io;
use crate::io::Source;
use super::read_text_file_lines_stream::{limit_reached, MAX_PREALLOCATED_BATCH};
use super::utils::{be_u32_bytes, convert_rid_to_bytes};

verus! {

/// What the stream answers to a command.
pub enum OpenReadFileStreamEventOutput {
    Open(u32),
    Read(Vec<u8>),
    Close(()),
}

/// The bytes of an answer's response body.
pub open spec fn read_output_bytes(o: OpenReadFileStreamEventOutput) -> Seq<u8> {
    match o {
        OpenReadFileStreamEventOutput::Open(id) => be_u32_bytes(id),
        OpenReadFileStreamEventOutput::Read(bytes) => bytes@,
        OpenReadFileStreamEventOutput::Close(_) => Seq::empty(),
    }
}

impl OpenReadFileStreamEventOutput {
    /// The response body of an answer (`tauri::ipc::Response::try_from`): the
    /// id of an opened stream in big endian, the bytes read, or nothing.
    pub fn into_response_bytes(self) -> (bytes: Vec<u8>)
        ensures
            bytes@ == read_output_bytes(self),
    {
        match self {
            OpenReadFileStreamEventOutput::Open(id) => convert_rid_to_bytes(id),
            OpenReadFileStreamEventOutput::Read(bytes) => bytes,
            OpenReadFileStreamEventOutput::Close(()) => Vec::new(),
        }
    }
}

/// How far a chunk reader has come, and where it must stop.
pub struct ChunkReaderView {
    pub read_limit: Option<u64>,
    pub read: u64,
    /// The bytes taken from the file so far, in order.
    pub taken: Seq<u8>,
    /// How many reads of the file were made.
    pub reads: nat,
    /// How many reads of the file failed.
    pub failures: nat,
    /// The numbers of bytes taken at which a read stopped because the file
    /// ended.
    pub ends: Set<nat>,
}

/// Reads a file in chunks (`openReadFileStream`).
#[verifier::reject_recursive_types(R)]
pub struct FileReader<R> {
    file: Source<R>,
    read_limit: Option<u64>,
    read: u64,
}

impl<R> View for FileReader<R> {
    type V = ChunkReaderView;

    closed spec fn view(&self) -> ChunkReaderView {
        ChunkReaderView {
            read_limit: self.read_limit,
            read: self.read,
            taken: self.file.taken(),
            reads: self.file.reads(),
            failures: self.file.failures(),
            ends: self.file.ends(),
        }
    }
}

/// The most bytes the next chunk may take: the requested length, and no more
/// than the read limit leaves.
pub open spec fn chunk_limit(v: ChunkReaderView, len: u64) -> u64 {
    match v.read_limit {
        Some(l) => {
            let rest: u64 = if l >= v.read {
                (l - v.read) as u64
            } else {
                0
            };
            if rest < len {
                rest
            } else {
                len
            }
        },
        None => len,
    }
}

/// Law: a chunk may take all the bytes asked for, unless the read limit
/// leaves fewer, and then exactly what it leaves: never more than asked, and
/// never past the limit.
pub proof fn lemma_chunk_limit(v: ChunkReaderView, len: u64)
    ensures
        chunk_limit(v, len) <= len,
        v.read_limit is None ==> chunk_limit(v, len) == len,
        v.read_limit matches Some(l) ==> {
            &&& v.read + len <= l ==> chunk_limit(v, len) == len
            &&& v.read <= l < v.read + len ==> v.read + chunk_limit(v, len) == l
            &&& l < v.read ==> chunk_limit(v, len) == 0
        },
{
}

/// A successful read of a chunk `b` of at most `len` bytes, from a reader in
/// state `before` to `after`: the chunk is the next bytes taken from the file,
/// as many as `chunk_limit` allows and fewer only where a read found the file
/// ended right after it; one read of the file is made unless the read limit
/// was reached; and the count of bytes read grows by the chunk's length
/// (saturating).
pub open spec fn chunk_read(before: ChunkReaderView, len: u64, b: Seq<u8>, after: ChunkReaderView) -> bool {
    &&& after.read_limit == before.read_limit
    &&& after.taken == before.taken + b
    &&& b.len() <= chunk_limit(before, len)
    &&& after.reads == before.reads + if limit_reached(before.read_limit, before.read) {
        0int
    } else {
        1int
    }
    &&& after.failures == before.failures
    &&& after.ends == if b.len() < chunk_limit(before, len) {
        before.ends.insert(after.taken.len())
    } else {
        before.ends
    }
    &&& after.read as int == if before.read + b.len() > u64::MAX {
        u64::MAX as int
    } else {
        before.read + b.len()
    }
}

/// Law: chunks read one after the other are, joined, what the reader took
/// from the file, in order; with a read limit that the reader was within,
/// together they are no longer than the limit leaves.
pub proof fn lemma_chunks_join(
    v0: ChunkReaderView,
    len1: u64,
    b1: Seq<u8>,
    v1: ChunkReaderView,
    len2: u64,
    b2: Seq<u8>,
    v2: ChunkReaderView,
)
    requires
        chunk_read(v0, len1, b1, v1),
        chunk_read(v1, len2, b2, v2),
    ensures
        v2.taken == v0.taken + (b1 + b2),
        match v0.read_limit {
            Some(l) => v0.read <= l ==> v0.read + b1.len() + b2.len() <= l,
            None => true,
        },
{
    assert(v0.taken + b1 + b2 =~= v0.taken + (b1 + b2));
}

impl<R: std::io::Read> FileReader<R> {
    /// A reader of `file` that has read nothing yet; with a `read_limit` it
    /// never reads past that many bytes.
    pub fn new(file: R, read_limit: Option<u64>) -> (reader: Self)
        ensures
            reader@ == (ChunkReaderView {
                read_limit,
                read: 0,
                taken: Seq::empty(),
                reads: 0,
                failures: 0,
                ends: Set::empty(),
            }),
    {
        FileReader { read_limit, read: 0, file: io::source(file) }
    }

    /// The number of bytes the next chunk of a requested `len` may take.
    fn next_chunk_limit(&self, len: u64) -> (nlimit: u64)
        ensures
            nlimit == chunk_limit(self@, len),
    {
        let mut nlimit = len;
        match self.read_limit {
            Some(read_limit) => {
                let rest = read_limit.saturating_sub(self.read);
                if rest < nlimit {
                    nlimit = rest;
                }
            },
            None => {},
        }
        nlimit
    }

    /// Reads the next chunk of at most `len` bytes (and at most what the read
    /// limit leaves): the chunk is the next bytes of the file, as many as that
    /// allows, and fewer only where the file ends.
    ///
    /// Once the read limit has been reached, and wherever nothing may be read,
    /// the chunk is empty and nothing is taken from the file; once the limit
    /// is reached the reader does not change at all. A reader within its read
    /// limit stays within it. The count of bytes read grows by the length of
    /// the chunk; on an error it stays as it was.
    pub fn read_chunk(&mut self, len: u64) -> (res: Result<Vec<u8>>)
        ensures
            final(self)@.read_limit == old(self)@.read_limit,
            limit_reached(old(self)@.read_limit, old(self)@.read) ==> {
                &&& res matches Ok(b) && b@.len() == 0
                &&& *final(self) == *old(self)
            },
            chunk_limit(old(self)@, len) == 0 ==> {
                &&& res matches Ok(b) && b@.len() == 0
                &&& final(self)@.taken == old(self)@.taken
                &&& final(self)@.read == old(self)@.read
                &&& final(self)@.ends == old(self)@.ends
            },
            res matches Ok(b) ==> chunk_read(old(self)@, len, b@, final(self)@),
            match old(self)@.read_limit {
                Some(l) => old(self)@.read <= l ==> final(self)@.read <= l,
                None => true,
            },
            res is Err ==> {
                &&& final(self)@.read == old(self)@.read
                &&& old(self)@.taken.len() <= final(self)@.taken.len()
                &&& final(self)@.taken.take(old(self)@.taken.len() as int) == old(self)@.taken
                &&& res matches Err(Error::Io(_))
                &&& final(self)@.failures == old(self)@.failures + 1
            },
    {
        if match self.read_limit {
            Some(l) => l <= self.read,
            None => false,
        } {
            return Ok(Vec::new());
        }
        let nlimit = self.next_chunk_limit(len);
        let wanted = #[verifier::truncate] (nlimit as usize);
        let capacity = if wanted < MAX_PREALLOCATED_BATCH {
            wanted
        } else {
            MAX_PREALLOCATED_BATCH
        };
        let mut buf: Vec<u8> = Vec::with_capacity(capacity);
        let ghost taken_before = self.file.taken();
        self.file.set_limit(nlimit);
        let nread = match self.file.read_to_end(&mut buf) {
            Ok(n) => n,
            Err(e) => {
                proof {
                    assert(buf@.skip(0) =~= buf@);
                    assert(self.file.taken().take(taken_before.len() as int) =~= taken_before);
                }
                return Err(Error::Io(io::io_error_message(&e)));
            },
        };
        assert(buf@.skip(0) =~= buf@);
        self.read = self.read.saturating_add(nread as u64);
        Ok(buf)
    }
}

} // verus!

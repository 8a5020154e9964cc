//! The calls into `std::io` that the readers make. Verus takes the contracts
//! below on trust; each states what the standard library documents of every
//! outcome, whatever the underlying file holds, and keeps the record of what
//! the reads gave.

use vstd::prelude::*;

verus! {

#[verifier::external_type_specification]
#[verifier::external_body]
pub struct ExIoError(std::io::Error);

#[verifier::external_type_specification]
#[verifier::external_body]
#[verifier::reject_recursive_types(T)]
pub struct ExTake<T>(std::io::Take<T>);

/// A file read through a `std::io::Take` adapter, with the library's record
/// of what the reads through it gave: the bytes taken so far (`taken`), how
/// many more the adapter lets through before its limit (`allowance`), how
/// many reads were made (`reads`) and how many of them failed (`failures`),
/// and the points at which a read stopped
/// because the file ended (`ends`: each is the number of bytes taken when
/// that read returned). Only the functions below make or change one.
#[verifier::reject_recursive_types(R)]
pub struct Source<R> {
    inner: std::io::Take<R>,
    taken: Ghost<Seq<u8>>,
    allowance: Ghost<nat>,
    reads: Ghost<nat>,
    failures: Ghost<nat>,
    ends: Ghost<Set<nat>>,
}

impl<R> Source<R> {
    /// The bytes the reads have taken from the file, in order.
    pub closed spec fn taken(&self) -> Seq<u8> {
        self.taken@
    }

    /// How many more bytes the adapter lets through.
    pub closed spec fn allowance(&self) -> nat {
        self.allowance@
    }

    /// How many reads were made.
    pub closed spec fn reads(&self) -> nat {
        self.reads@
    }

    /// How many reads failed.
    pub closed spec fn failures(&self) -> nat {
        self.failures@
    }

    /// The numbers of bytes taken at which a read stopped because the file
    /// ended.
    pub closed spec fn ends(&self) -> Set<nat> {
        self.ends@
    }
}

/// A read that appended `appended` bytes to a buffer, from a source in state
/// `before` to `after`: what it appended is what it took, no more than the
/// allowance, which shrinks by as much; it counts as one read, and as one
/// failure where it `failed`; and where it stopped because the file ended
/// (`at_end`), that point is recorded.
pub open spec fn one_read<R>(
    before: Source<R>,
    after: Source<R>,
    buf_before: Seq<u8>,
    buf_after: Seq<u8>,
    failed: bool,
    at_end: bool,
) -> bool {
    &&& buf_before.len() <= buf_after.len()
    &&& buf_after.take(buf_before.len() as int) == buf_before
    &&& after.taken() == before.taken() + buf_after.skip(buf_before.len() as int)
    &&& buf_after.len() - buf_before.len() <= before.allowance()
    &&& after.allowance() == before.allowance() - (buf_after.len() - buf_before.len())
    &&& after.reads() == before.reads() + 1
    &&& after.failures() == before.failures() + if failed {
        1int
    } else {
        0int
    }
    &&& after.ends() == if at_end {
        before.ends().insert(after.taken().len())
    } else {
        before.ends()
    }
}

/// `std::io::Read::take` with the largest limit: the adapter lets every byte of
/// `file` through (up to `u64::MAX`), and nothing has been read yet.
#[verifier::external_body]
pub fn source<R: std::io::Read>(file: R) -> (s: Source<R>)
    ensures
        s.taken() == Seq::<u8>::empty(),
        s.allowance() == u64::MAX as nat,
        s.reads() == 0,
        s.failures() == 0,
        s.ends() == Set::<nat>::empty(),
{
    Source {
        inner: std::io::Read::take(file, u64::MAX),
        taken: Ghost(Seq::empty()),
        allowance: Ghost(u64::MAX as nat),
        reads: Ghost(0),
        failures: Ghost(0),
        ends: Ghost(Set::empty()),
    }
}

impl<R: std::io::Read> Source<R> {
    /// `std::io::Take::set_limit`: from now on the adapter lets at most `limit`
    /// more bytes through.
    #[verifier::external_body]
    pub fn set_limit(&mut self, limit: u64)
        ensures
            final(self).allowance() == limit as nat,
            final(self).taken() == old(self).taken(),
            final(self).reads() == old(self).reads(),
            final(self).failures() == old(self).failures(),
            final(self).ends() == old(self).ends(),
    {
        self.inner.set_limit(limit)
    }

    /// `std::io::Read::read_to_end` on the adapter: reads until the adapter's
    /// limit or the end of the file. Claimed: the bytes appended to `buf` are
    /// the bytes taken from the file, at most the allowance (on an error too);
    /// on success the count is theirs, and the read stopped because the file
    /// ended exactly where it gave less than the allowance; with no allowance
    /// left, the call gives 0.
    #[verifier::external_body]
    pub fn read_to_end(&mut self, buf: &mut Vec<u8>) -> (res: Result<usize, std::io::Error>)
        ensures
            one_read(
                *old(self),
                *final(self),
                old(buf)@,
                final(buf)@,
                res is Err,
                res is Ok && final(buf)@.len() - old(buf)@.len() < old(self).allowance(),
            ),
            old(self).allowance() == 0 ==> res matches Ok(0usize),
            res matches Ok(n) ==> final(buf)@.len() == old(buf)@.len() + n,
    {
        std::io::Read::read_to_end(&mut self.inner, buf)
    }
}

impl<R: std::io::BufRead> Source<R> {
    /// `std::io::BufRead::read_until` on the adapter: reads until `delim`
    /// (which is kept), the adapter's limit, or the end of the file. Claimed:
    /// the bytes appended to `buf` are the bytes taken from the file, at most
    /// the allowance, and `delim` occurs among them at most as the last byte;
    /// on success the count is theirs, and the read stopped because the file
    /// ended exactly where it gave less than the allowance and did not end
    /// with `delim`; with no allowance left, the call gives 0.
    #[verifier::external_body]
    pub fn read_until(&mut self, delim: u8, buf: &mut Vec<u8>) -> (res: Result<usize, std::io::Error>)
        ensures
            one_read(
                *old(self),
                *final(self),
                old(buf)@,
                final(buf)@,
                res is Err,
                res is Ok && final(buf)@.len() - old(buf)@.len() < old(self).allowance()
                    && (final(buf)@.len() == old(buf)@.len() || final(buf)@.last() != delim),
            ),
            forall|i: int|
                old(buf)@.len() <= i < final(buf)@.len() - 1 ==> #[trigger] final(buf)@[i] != delim,
            old(self).allowance() == 0 ==> res matches Ok(0usize),
            res matches Ok(n) ==> final(buf)@.len() == old(buf)@.len() + n,
    {
        std::io::BufRead::read_until(&mut self.inner, delim, buf)
    }
}

/// `Display` of `std::io::Error`: the text of the error. Its wording comes from
/// the operating system and is not stated.
#[verifier::external_body]
pub fn io_error_message(e: &std::io::Error) -> String {
    format!("{}", e)
}

} // verus!

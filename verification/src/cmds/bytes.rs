//! Byte-sequence predicates and the in-place edits of a buffer that the
//! readers make.

use vstd::prelude::*;

verus! {

/// `s` ends with `suffix` (`<[u8]>::ends_with`).
pub open spec fn ends_with(s: Seq<u8>, suffix: Seq<u8>) -> bool {
    &&& suffix.len() <= s.len()
    &&& s.subrange(s.len() - suffix.len(), s.len() as int) == suffix
}

/// `s` starts with `prefix` (`<[u8]>::starts_with`).
pub open spec fn starts_with(s: Seq<u8>, prefix: Seq<u8>) -> bool {
    &&& prefix.len() <= s.len()
    &&& s.take(prefix.len() as int) == prefix
}

/// A suffix no longer than the tail of a sequence is judged on that tail alone.
pub proof fn lemma_ends_with_tail(head: Seq<u8>, tail: Seq<u8>, suffix: Seq<u8>)
    requires
        suffix.len() <= tail.len(),
    ensures
        ends_with(head + tail, suffix) == ends_with(tail, suffix),
{
    let s = head + tail;
    assert(s.subrange(s.len() - suffix.len(), s.len() as int) =~= tail.subrange(
        tail.len() - suffix.len(),
        tail.len() as int,
    ));
}

pub fn bytes_eq(a: &[u8], b: &[u8]) -> (r: bool)
    ensures
        r == (a@ == b@),
{
    if a.len() != b.len() {
        return false;
    }
    let mut i: usize = 0;
    while i < a.len()
        invariant
            a@.len() == b@.len(),
            i <= a@.len(),
            forall|j: int| 0 <= j < i ==> a@[j] == b@[j],
        decreases a@.len() - i,
    {
        if a[i] != b[i] {
            return false;
        }
        i += 1;
    }
    assert(a@ =~= b@);
    true
}

pub fn ends_with_bytes(buf: &Vec<u8>, suffix: &[u8]) -> (r: bool)
    ensures
        r == ends_with(buf@, suffix@),
{
    if suffix.len() > buf.len() {
        return false;
    }
    let start = buf.len() - suffix.len();
    let ghost tail = buf@.subrange(start as int, buf@.len() as int);
    let mut i: usize = 0;
    while i < suffix.len()
        invariant
            start + suffix@.len() == buf@.len(),
            buf@.len() <= usize::MAX,
            tail == buf@.subrange(start as int, buf@.len() as int),
            i <= suffix@.len(),
            forall|j: int| 0 <= j < i ==> tail[j] == suffix@[j],
        decreases suffix@.len() - i,
    {
        if buf[start + i] != suffix[i] {
            assert(tail[i as int] != suffix@[i as int]);
            return false;
        }
        i += 1;
    }
    assert(tail =~= suffix@);
    true
}

pub fn starts_with_at(buf: &Vec<u8>, start: usize, prefix: &[u8]) -> (r: bool)
    requires
        start <= buf@.len(),
    ensures
        r == starts_with(buf@.skip(start as int), prefix@),
{
    let ghost rest = buf@.skip(start as int);
    if prefix.len() > buf.len() - start {
        return false;
    }
    let mut i: usize = 0;
    while i < prefix.len()
        invariant
            start + prefix@.len() <= buf@.len(),
            buf@.len() <= usize::MAX,
            rest == buf@.skip(start as int),
            i <= prefix@.len(),
            forall|j: int| 0 <= j < i ==> rest[j] == prefix@[j],
        decreases prefix@.len() - i,
    {
        if buf[start + i] != prefix[i] {
            assert(rest.take(prefix@.len() as int)[i as int] != prefix@[i as int]);
            return false;
        }
        i += 1;
    }
    assert(rest.take(prefix@.len() as int) =~= prefix@);
    true
}

/// Removes `n` bytes at `start`, moving the rest forward (`Vec::drain`).
pub fn remove_range(buf: &mut Vec<u8>, start: usize, n: usize)
    requires
        start + n <= old(buf)@.len(),
    ensures
        final(buf)@ == old(buf)@.take(start as int) + old(buf)@.skip(start + n),
{
    let len = buf.len();
    let ghost orig = buf@;
    let mut i = start;
    while i + n < len
        invariant
            orig == old(buf)@,
            len == orig.len(),
            buf@.len() == len,
            start <= i <= len - n,
            forall|j: int| 0 <= j < start ==> buf@[j] == orig[j],
            forall|j: int| start <= j < i ==> buf@[j] == orig[j + n],
            forall|j: int| i <= j < len ==> buf@[j] == orig[j],
        decreases len - i,
    {
        let b = buf[i + n];
        buf.set(i, b);
        i += 1;
    }
    buf.truncate(len - n);
    assert(buf@ =~= orig.take(start as int) + orig.skip(start + n));
}

/// Appends `n` zero bytes.
pub fn push_zeros(buf: &mut Vec<u8>, n: usize)
    ensures
        final(buf)@ == old(buf)@ + Seq::new(n as nat, |i: int| 0u8),
{
    let mut i: usize = 0;
    while i < n
        invariant
            i <= n,
            buf@ == old(buf)@ + Seq::new(i as nat, |k: int| 0u8),
        decreases n - i,
    {
        buf.push(0u8);
        i += 1;
        assert(buf@ =~= old(buf)@ + Seq::new(i as nat, |k: int| 0u8));
    }
}

/// Appends the bytes of `data` (`Vec::extend_from_slice`).
pub fn push_all(buf: &mut Vec<u8>, data: &[u8])
    ensures
        final(buf)@ == old(buf)@ + data@,
{
    let mut i: usize = 0;
    while i < data.len()
        invariant
            i <= data@.len(),
            buf@ == old(buf)@ + data@.take(i as int),
        decreases data@.len() - i,
    {
        buf.push(data[i]);
        i += 1;
        assert(buf@ =~= old(buf)@ + data@.take(i as int));
    }
    assert(data@.take(data@.len() as int) =~= data@);
}

} // verus!

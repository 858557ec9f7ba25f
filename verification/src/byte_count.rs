//! Counting the bytes of an input, of which at most a fixed limit is read.
use vstd::prelude::*;

verus! {

/// The most bytes of an input that are read (10 MiB).
pub const MAX_READ_LIMIT_BYTES: u64 = 10 * 1024 * 1024;

/// The number of bytes of an input of length `len` that are read.
pub open spec fn read_len(len: int) -> int {
    if len <= MAX_READ_LIMIT_BYTES {
        len
    } else {
        MAX_READ_LIMIT_BYTES as int
    }
}

/// The bytes read of an input are all of it up to 10 MiB, and the first
/// 10 MiB of a longer one: the smaller of its length and the limit.
pub proof fn lemma_read_len_is_min(len: int)
    requires
        len >= 0,
    ensures
        len <= 10 * 1024 * 1024 ==> read_len(len) == len,
        len > 10 * 1024 * 1024 ==> read_len(len) == 10 * 1024 * 1024,
        read_len(len) <= len,
        read_len(len) <= 10 * 1024 * 1024,
{
}

/// The number of input bytes that fall within the read limit.
pub fn read_limit(len: usize) -> (n: usize)
    ensures
        n == read_len(len as int),
        len <= MAX_READ_LIMIT_BYTES ==> n == len,
        len > MAX_READ_LIMIT_BYTES ==> n == MAX_READ_LIMIT_BYTES,
{
    if (len as u64) > MAX_READ_LIMIT_BYTES {
        MAX_READ_LIMIT_BYTES as usize
    } else {
        len
    }
}

/// Counts the bytes of `input`, of which at most `MAX_READ_LIMIT_BYTES` are read.
pub fn process_input(input: &[u8]) -> (count: usize)
    ensures
        count == read_len(input@.len() as int),
        input@.len() <= MAX_READ_LIMIT_BYTES ==> count == input@.len(),
        input@.len() > MAX_READ_LIMIT_BYTES ==> count == MAX_READ_LIMIT_BYTES,
{
    read_limit(input.len())
}

} // verus!

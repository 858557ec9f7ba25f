//! Fixed-size records used to build test input for the buffered copy.
use vstd::prelude::*;

verus! {

/// The size of a block moved at once by the buffered reader and writer.
pub const BUFFER_SIZE: usize = 64 * 1024;

/// The number of bytes in one record.
pub const RECORD_SIZE: usize = 10;

/// Byte `i` of record number `index`.
pub open spec fn record_byte(index: int, i: int) -> u8 {
    ((index + i) % 251) as u8
}

/// Builds record number `index`: byte `i` is `(index + i) % 251`.
pub fn make_record(index: usize) -> (record: [u8; RECORD_SIZE])
    requires
        index + RECORD_SIZE - 1 <= usize::MAX,
    ensures
        forall|i: int| 0 <= i < RECORD_SIZE ==> #[trigger] record[i] == record_byte(index as int, i),
{
    let mut record: [u8; RECORD_SIZE] = [0u8; RECORD_SIZE];
    let mut i: usize = 0;
    while i < RECORD_SIZE
        invariant
            i <= RECORD_SIZE,
            index + RECORD_SIZE - 1 <= usize::MAX,
            forall|j: int| 0 <= j < i ==> #[trigger] record[j] == record_byte(index as int, j),
        decreases RECORD_SIZE - i,
    {
        record[i] = ((index + i) % 251) as u8;
        i = i + 1;
    }
    record
}

} // verus!

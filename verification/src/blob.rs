//! The frame of a decompressed dataset blob.
//!
//! | bytes          | field                                   |
//! |----------------|-----------------------------------------|
//! | 0..8           | `index_len`, little-endian              |
//! | 8..16          | `list_region_len`, little-endian        |
//! | next `index_len` bytes       | the serialized index      |
//! | next `list_region_len` bytes | the encoded lists         |

use vstd::prelude::*;
use vstd::slice::slice_subrange;
use vstd::slice::slice_to_vec;

verus! {

/// The length of the two length fields that open a blob.
pub const HEADER_LEN: usize = 16;

/// The value of the eight bytes of `bytes` at `at`, read as a little-endian
/// 64-bit number.
pub open spec fn le64(bytes: Seq<u8>, at: int) -> int {
    bytes[at] as int + 0x100 * (bytes[at + 1] as int) + 0x1_0000 * (bytes[at + 2] as int)
        + 0x100_0000 * (bytes[at + 3] as int) + 0x1_0000_0000 * (bytes[at + 4] as int)
        + 0x100_0000_0000 * (bytes[at + 5] as int) + 0x1_0000_0000_0000 * (bytes[at + 6] as int)
        + 0x100_0000_0000_0000 * (bytes[at + 7] as int)
}

/// The length that a blob declares for its index segment.
pub open spec fn declared_index_len(blob: Seq<u8>) -> int {
    le64(blob, 0)
}

/// The length that a blob declares for its list region.
pub open spec fn declared_region_len(blob: Seq<u8>) -> int {
    le64(blob, 8)
}

/// Whether a blob holds its header and both segments that the header declares.
pub open spec fn well_framed(blob: Seq<u8>) -> bool {
    &&& blob.len() >= HEADER_LEN
    &&& HEADER_LEN + declared_index_len(blob) + declared_region_len(blob) <= blob.len()
}

/// The index segment of a well-framed blob.
pub open spec fn index_segment(blob: Seq<u8>) -> Seq<u8> {
    blob.subrange(HEADER_LEN as int, HEADER_LEN + declared_index_len(blob))
}

/// The list region of a well-framed blob.
pub open spec fn list_region(blob: Seq<u8>) -> Seq<u8> {
    blob.subrange(
        HEADER_LEN + declared_index_len(blob),
        HEADER_LEN + declared_index_len(blob) + declared_region_len(blob),
    )
}

/// Reads the eight bytes of `bytes` at `at` as a little-endian number.
pub fn read_le64(bytes: &[u8], at: usize) -> (value: u64)
    requires
        at + 8 <= bytes@.len(),
    ensures
        value == le64(bytes@, at as int),
{
    let low: u64 = bytes[at] as u64 + 0x100 * (bytes[at + 1] as u64) + 0x1_0000 * (bytes[at
        + 2] as u64) + 0x100_0000 * (bytes[at + 3] as u64);
    let high: u64 = bytes[at + 4] as u64 + 0x100 * (bytes[at + 5] as u64) + 0x1_0000 * (bytes[at
        + 6] as u64) + 0x100_0000 * (bytes[at + 7] as u64);
    low + 0x1_0000_0000 * high
}

/// Splits a decompressed blob into its index segment and its list region.
///
/// Gives `None` exactly where the blob is shorter than its header or than
/// the two segments that the header declares. Bytes after the list region
/// are left aside.
pub fn split_blob(blob: &[u8]) -> (parts: Option<(Vec<u8>, Vec<u8>)>)
    ensures
        parts is Some <==> well_framed(blob@),
        parts matches Some((index, region)) ==> index@ == index_segment(blob@) && region@
            == list_region(blob@),
{
    let size = blob.len();
    if size < HEADER_LEN {
        return None;
    }
    let index_len = read_le64(blob, 0);
    let region_len = read_le64(blob, 8);
    let room = (size - HEADER_LEN) as u64;
    if index_len > room {
        return None;
    }
    if region_len > room - index_len {
        return None;
    }
    let index_end = HEADER_LEN + index_len as usize;
    let region_end = index_end + region_len as usize;
    let index = slice_to_vec(slice_subrange(blob, HEADER_LEN, index_end));
    let region = slice_to_vec(slice_subrange(blob, index_end, region_end));
    Some((index, region))
}

} // verus!

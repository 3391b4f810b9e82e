//! The ordered index from composite keys to offsets.
//!
//! The index is an `fst::Map` over its serialized bytes. Verus cannot see
//! inside it, so this module names what it holds and states, without proof,
//! what the few operations used on it do. Everything else in the crate is
//! proved from these statements.
//!
//! An index is read from bytes, and `fst` 0.4 has no test that tells from
//! bytes whether they are a sound index: it reads a version, two trailer
//! fields and, at most, a checksum. Walking bytes that its builder did not
//! write may panic or yield keys out of order. The walks are therefore stated
//! only for bytes that the builder wrote, and that is a condition which the
//! producer of a dataset has to keep: nothing here can establish it from the
//! bytes, only by building them.

use crate::blob::le64;
use crate::blob::read_le64;
use vstd::prelude::*;

verus! {

#[verifier::external_type_specification]
#[verifier::external_body]
#[verifier::reject_recursive_types(D)]
pub struct ExIndex<D>(fst::Map<D>);

/// The serialized bytes that an index was made from and holds.
pub uninterp spec fn index_bytes(index: fst::Map<Vec<u8>>) -> Seq<u8>;

/// The entries of the index that `bytes` serialize, each a key with its
/// offset, in the order of a full stream over it.
pub uninterp spec fn entries_in(bytes: Seq<u8>) -> Seq<(Seq<u8>, u64)>;

/// Whether `bytes` are an index as a builder of the `fst` crate writes it:
/// the builder of the version in use, which writes format version 3 with a
/// checksum, or that of an earlier version of the crate, which wrote format
/// version 1 or 2 without one. The crate still reads and walks all three.
pub uninterp spec fn builder_wrote(bytes: Seq<u8>) -> bool;

/// Whether `bytes` carry a checksum that differs from the one computed over
/// them.
pub uninterp spec fn checksum_mismatch(bytes: Seq<u8>) -> bool;

/// The bytes that the builder writes for `entries`, where their keys ascend.
pub uninterp spec fn built_index(entries: Seq<(Seq<u8>, u64)>) -> Seq<u8>;

/// The least number of bytes of a serialized index.
pub const INDEX_MIN_LEN: usize = 36;

/// The latest version of the index format.
pub const INDEX_VERSION: u64 = 3;

/// The version field that opens a serialized index.
pub open spec fn index_version(bytes: Seq<u8>) -> int {
    le64(bytes, 0)
}

/// Where the trailer fields of a serialized index end: before the four bytes
/// of the checksum, which versions up to 2 do not have.
pub open spec fn trailer_end(bytes: Seq<u8>) -> int {
    if index_version(bytes) <= 2 {
        bytes.len() as int
    } else {
        bytes.len() - 4
    }
}

/// The trailer field that holds the address of the root node.
pub open spec fn root_address(bytes: Seq<u8>) -> int {
    le64(bytes, trailer_end(bytes) - 8)
}

/// The trailer field that holds the number of keys.
pub open spec fn key_count(bytes: Seq<u8>) -> int {
    le64(bytes, trailer_end(bytes) - 16)
}

/// Whether the length and the version of `bytes` let the trailer be read.
pub open spec fn header_accepted(bytes: Seq<u8>) -> bool {
    bytes.len() >= INDEX_MIN_LEN && 1 <= index_version(bytes) <= INDEX_VERSION
}

/// Whether both trailer fields fit the machine's addresses. Where they are
/// read and do not fit, `fst::Map::new` panics on a 32-bit machine.
pub open spec fn trailer_fits(bytes: Seq<u8>) -> bool {
    header_accepted(bytes) ==> root_address(bytes) <= usize::MAX && key_count(bytes)
        <= usize::MAX
}

/// Whether `fst::Map::new` accepts `bytes`: at least 36 of them, a version
/// from 1 to 3, and not a root address of zero in bytes longer than an empty
/// index.
pub open spec fn index_accepted(bytes: Seq<u8>) -> bool {
    let empty_total: int = if index_version(bytes) <= 2 {
        32
    } else {
        36
    };
    let address_offset: int = if index_version(bytes) <= 2 {
        17
    } else {
        21
    };
    &&& header_accepted(bytes)
    &&& !(root_address(bytes) == 0 && bytes.len() != empty_total && root_address(bytes)
        + address_offset != bytes.len())
}

/// Tests whether the trailer fields of `bytes` fit the machine's addresses.
pub fn check_trailer_fits(bytes: &[u8]) -> (fits: bool)
    ensures
        fits == trailer_fits(bytes@),
{
    let size = bytes.len();
    if size < INDEX_MIN_LEN {
        return true;
    }
    let version = read_le64(bytes, 0);
    if version == 0 || version > INDEX_VERSION {
        return true;
    }
    let end = if version <= 2 {
        size
    } else {
        size - 4
    };
    let root = read_le64(bytes, end - 8);
    let count = read_le64(bytes, end - 16);
    root <= usize::MAX as u64 && count <= usize::MAX as u64
}

/// Whether `a` comes before `b` in the byte-wise lexicographic order.
pub open spec fn key_before(a: Seq<u8>, b: Seq<u8>) -> bool
    decreases a.len(),
{
    if b.len() == 0 {
        false
    } else if a.len() == 0 {
        true
    } else {
        a[0] < b[0] || (a[0] == b[0] && key_before(a.skip(1), b.skip(1)))
    }
}

/// Whether each key of `entries` comes before all keys after it.
pub open spec fn keys_ascending(entries: Seq<(Seq<u8>, u64)>) -> bool {
    forall|i: int, j: int|
        0 <= i < j < entries.len() ==> key_before(
            (#[trigger] entries[i]).0,
            (#[trigger] entries[j]).0,
        )
}

/// The entries of `entries` whose key starts with `prefix`, in their order.
pub open spec fn prefix_matches(entries: Seq<(Seq<u8>, u64)>, prefix: Seq<u8>) -> Seq<
    (Seq<u8>, u64),
> {
    entries.filter(|entry: (Seq<u8>, u64)| prefix.is_prefix_of(entry.0))
}

/// The offsets of `entries`, in their order.
pub open spec fn offsets_of(entries: Seq<(Seq<u8>, u64)>) -> Seq<u64> {
    entries.map_values(|entry: (Seq<u8>, u64)| entry.1)
}

/// What a vector of owned entries holds, as plain values.
pub open spec fn entries_of(found: Seq<(Vec<u8>, u64)>) -> Seq<(Seq<u8>, u64)> {
    found.map_values(|entry: (Vec<u8>, u64)| (entry.0@, entry.1))
}

/// Makes an index from its serialized bytes, with `fst::Map::new`.
///
/// `fst::Map::new` reads the length, the version and the two trailer fields
/// of the bytes, and nothing else. The contract states the test that it
/// makes, and that the index keeps the bytes it was given. Trailer fields
/// beyond the machine's addresses are left out: there the call panics.
#[verifier::external_body]
pub(crate) fn parse_index(bytes: Vec<u8>) -> (parsed: Option<fst::Map<Vec<u8>>>)
    requires
        trailer_fits(bytes@),
    ensures
        parsed is Some <==> index_accepted(bytes@),
        parsed matches Some(index) ==> index_bytes(index) == bytes@,
{
    match fst::Map::new(bytes) {
        Ok(index) => Some(index),
        Err(_) => None,
    }
}

/// Recomputes the checksum of an index, with `fst::raw::Fst::verify`, and
/// says whether it differs from the one that the index carries.
///
/// `verify` fails in two ways: the index carries no checksum, as one of a
/// version up to 2, or it carries another than the one computed. The
/// contract gives the second outcome its name; it depends on the bytes
/// alone.
#[verifier::external_body]
pub(crate) fn checksum_differs(index: &fst::Map<Vec<u8>>) -> (differs: bool)
    ensures
        differs == checksum_mismatch(index_bytes(*index)),
{
    match index.as_fst().verify() {
        Err(fst::Error::Fst(fst::raw::Error::ChecksumMismatch { .. })) => true,
        _ => false,
    }
}

/// The number of bytes of an index, with `fst::raw::Fst::as_bytes`.
///
/// `as_bytes` hands back the bytes that the index was made from.
#[verifier::external_body]
pub(crate) fn index_byte_len(index: &fst::Map<Vec<u8>>) -> (len: usize)
    ensures
        len == index_bytes(*index).len(),
{
    index.as_fst().as_bytes().len()
}

/// All offsets of an index in key order, with `fst::Map::stream` and
/// `fst::map::Stream::into_values`.
///
/// The contract claims that the stream over bytes that the builder wrote
/// ends and yields the offset of every entry, in order. Other bytes are left
/// out: on them the walk may panic.
#[verifier::external_body]
pub(crate) fn all_offsets(index: &fst::Map<Vec<u8>>) -> (offsets: Vec<u64>)
    requires
        builder_wrote(index_bytes(*index)),
    ensures
        offsets@ == offsets_of(entries_in(index_bytes(*index))),
{
    index.stream().into_values()
}

/// The entries whose key starts with `prefix`, with `fst::Map::search` on the
/// automaton `Str::new(prefix).starts_with()` and
/// `fst::map::Stream::into_byte_vec`.
///
/// The contract claims that the search over bytes that the builder wrote
/// ends and yields exactly the entries whose key starts with the UTF-8 bytes
/// of `prefix`, each once, in ascending byte order of their keys: the
/// builder refuses a key that does not come after the one before it, and a
/// stream follows the transitions in the order in which they were written.
/// Other bytes are left out, as above.
#[verifier::external_body]
pub(crate) fn entries_with_prefix(index: &fst::Map<Vec<u8>>, prefix: &str) -> (found: Vec<
    (Vec<u8>, u64),
>)
    requires
        builder_wrote(index_bytes(*index)),
    ensures
        entries_of(found@) == prefix_matches(
            entries_in(index_bytes(*index)),
            vstd::utf8::encode_utf8(prefix@),
        ),
        keys_ascending(entries_of(found@)),
{
    let automaton = fst::automaton::Automaton::starts_with(fst::automaton::Str::new(prefix));
    fst::IntoStreamer::into_stream(index.search(automaton)).into_byte_vec()
}

/// Serializes `entries` as an index, with `fst::MapBuilder` in memory:
/// `extend_iter`, then `into_inner`.
///
/// The builder takes the entries one by one and refuses a key that does not
/// come after the one before it, so it succeeds exactly on ascending keys.
/// What it then hands back depends on the entries alone and has its name.
/// It is an index of the latest version with its checksum, which
/// `fst::Map::new` accepts and which holds the entries given.
#[verifier::external_body]
pub(crate) fn build_index(entries: &Vec<(Vec<u8>, u64)>) -> (built: Option<Vec<u8>>)
    ensures
        built is Some <==> keys_ascending(entries_of(entries@)),
        built matches Some(bytes) ==> {
            &&& bytes@ == built_index(entries_of(entries@))
            &&& builder_wrote(bytes@)
            &&& entries_in(bytes@) == entries_of(entries@)
            &&& index_accepted(bytes@)
            &&& trailer_fits(bytes@)
            &&& !checksum_mismatch(bytes@)
        },
{
    let mut builder = fst::MapBuilder::memory();
    match builder.extend_iter(entries.iter().map(|entry| (&entry.0, entry.1))) {
        Ok(()) => match builder.into_inner() {
            Ok(bytes) => Some(bytes),
            Err(_) => None,
        },
        Err(_) => None,
    }
}

/// No key comes before itself.
pub proof fn lemma_key_before_irreflexive(key: Seq<u8>)
    ensures
        !key_before(key, key),
    decreases key.len(),
{
    if key.len() > 0 {
        lemma_key_before_irreflexive(key.skip(1));
    }
}

/// A prefix search keeps exactly the entries whose key starts with the
/// prefix; where its keys ascend, no key is found twice.
pub proof fn lemma_prefix_search(
    entries: Seq<(Seq<u8>, u64)>,
    prefix: Seq<u8>,
    found: Seq<(Seq<u8>, u64)>,
)
    requires
        found == prefix_matches(entries, prefix),
        keys_ascending(found),
    ensures
        forall|i: int|
            0 <= i < entries.len() && prefix.is_prefix_of((#[trigger] entries[i]).0)
                ==> found.contains(entries[i]),
        forall|j: int|
            0 <= j < found.len() ==> prefix.is_prefix_of((#[trigger] found[j]).0)
                && entries.contains(found[j]),
        forall|j: int, k: int|
            0 <= j < k < found.len() ==> (#[trigger] found[j]).0 != (#[trigger] found[k]).0,
{
    let keep = |entry: (Seq<u8>, u64)| prefix.is_prefix_of(entry.0);
    assert forall|i: int|
        0 <= i < entries.len() && prefix.is_prefix_of(
            (#[trigger] entries[i]).0,
        ) implies found.contains(entries[i]) by {
        assert(keep(entries[i]));
        entries.lemma_filter_contains(keep, i);
    }
    assert forall|j: int| 0 <= j < found.len() implies prefix.is_prefix_of(
        (#[trigger] found[j]).0,
    ) && entries.contains(found[j]) by {
        entries.lemma_filter_pred(keep, j);
        assert(keep(found[j]));
        assert(found.contains(found[j]));
        entries.lemma_filter_contains_rev(keep, found[j]);
    }
    assert forall|j: int, k: int| 0 <= j < k < found.len() implies (#[trigger] found[j]).0 != (
    #[trigger] found[k]).0 by {
        lemma_key_before_irreflexive(found[j].0);
    }
}

} // verus!

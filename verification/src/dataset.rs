//! The loaded dataset: the index together with the region of encoded lists
//! that its offsets point into.

use crate::blob::index_segment;
use crate::blob::list_region;
use crate::blob::split_blob;
use crate::blob::well_framed;
use crate::index::all_offsets;
use crate::index::builder_wrote;
use crate::index::check_trailer_fits;
use crate::index::checksum_differs;
use crate::index::checksum_mismatch;
use crate::index::entries_of;
use crate::index::entries_with_prefix;
use crate::index::entries_in;
use crate::index::index_accepted;
use crate::index::index_byte_len;
use crate::index::index_bytes;
use crate::index::keys_ascending;
use crate::index::lemma_prefix_search;
use crate::index::parse_index;
use crate::index::prefix_matches;
use crate::index::trailer_fits;
use vstd::prelude::*;
use vstd::utf8::encode_utf8;

verus! {

/// Why a dataset could not be loaded.
#[derive(Debug, Clone, Copy, PartialEq, Eq, Structural)]
pub enum LoadError {
    /// The compressed bytes are not a complete brotli stream.
    Decompress,
    /// The blob is shorter than its header or than the segments it declares.
    Truncated,
    /// The index segment is not an index, or carries a checksum that does
    /// not match.
    CorruptIndex,
    /// An entry of the index points at no byte of the list region.
    OffsetOutOfRange,
}

/// Whether every offset of `entries` is the position of a byte in a region
/// of `region_len` bytes.
pub open spec fn offsets_within(entries: Seq<(Seq<u8>, u64)>, region_len: nat) -> bool {
    forall|i: int| 0 <= i < entries.len() ==> (#[trigger] entries[i]).1 < region_len
}

/// What a brotli stream decompresses to, or `None` where the bytes are not a
/// complete brotli stream.
pub uninterp spec fn brotli_unpacked(compressed: Seq<u8>) -> Option<Seq<u8>>;

/// Decompresses a brotli stream held in memory, with `brotli::Decompressor`
/// read to its end.
///
/// The contract names the outcome: the decompressed bytes where the reader
/// reaches the end of the stream, nothing where it reports an error. That
/// outcome depends on the compressed bytes alone.
#[verifier::external_body]
fn brotli_unpack(compressed: &[u8]) -> (unpacked: Option<Vec<u8>>)
    ensures
        match unpacked {
            Some(bytes) => brotli_unpacked(compressed@) == Some(bytes@),
            None => brotli_unpacked(compressed@) is None,
        },
{
    let mut unpacked = Vec::new();
    let mut reader = brotli::Decompressor::new(compressed, 4096);
    match std::io::Read::read_to_end(&mut reader, &mut unpacked) {
        Ok(_) => Some(unpacked),
        Err(_) => None,
    }
}

/// A loaded dataset. It never changes once made.
///
/// Every value of this type holds an index that the builder wrote and whose
/// offsets all lie in the list region.
#[derive(Debug)]
pub struct PostcodeData {
    fst_map: fst::Map<Vec<u8>>,
    house_data: Vec<u8>,
}

impl PostcodeData {
    #[verifier::type_invariant]
    spec fn sound(&self) -> bool {
        &&& builder_wrote(index_bytes(self.fst_map))
        &&& offsets_within(entries_in(index_bytes(self.fst_map)), self.house_data@.len())
    }

    /// The entries of the index, in ascending order of their keys.
    pub closed spec fn entries(&self) -> Seq<(Seq<u8>, u64)> {
        entries_in(index_bytes(self.fst_map))
    }

    /// The region of encoded lists.
    pub closed spec fn region(&self) -> Seq<u8> {
        self.house_data@
    }

    /// The serialized index.
    pub closed spec fn index_bytes(&self) -> Seq<u8> {
        index_bytes(self.fst_map)
    }

    /// Joins an index and a list region into a dataset, unless the index
    /// carries a checksum that does not match or one of its offsets points at
    /// no byte of the region.
    ///
    /// The index has to be one that the builder wrote, unless its checksum
    /// gives it away: its entries are walked here.
    pub fn new(index: fst::Map<Vec<u8>>, house_data: Vec<u8>) -> (made: Result<
        PostcodeData,
        LoadError,
    >)
        requires
            !checksum_mismatch(index_bytes(index)) ==> builder_wrote(index_bytes(index)),
        ensures
            made_as(index_bytes(index), house_data@, made),
    {
        if checksum_differs(&index) {
            return Err(LoadError::CorruptIndex);
        }
        let offsets = all_offsets(&index);
        let limit = house_data.len() as u64;
        let ghost entries = entries_in(index_bytes(index));
        let mut i: usize = 0;
        while i < offsets.len()
            invariant
                i <= offsets@.len(),
                limit == house_data@.len(),
                entries == entries_in(index_bytes(index)),
                !checksum_mismatch(index_bytes(index)),
                offsets@.len() == entries.len(),
                forall|j: int| 0 <= j < offsets@.len() ==> offsets@[j] == entries[j].1,
                forall|j: int| 0 <= j < i ==> (#[trigger] entries[j]).1 < limit,
            decreases offsets@.len() - i,
        {
            if offsets[i] >= limit {
                assert(entries[i as int].1 >= limit);
                return Err(LoadError::OffsetOutOfRange);
            }
            i = i + 1;
        }
        Ok(PostcodeData { fst_map: index, house_data })
    }

    /// The list region.
    pub fn house_data(&self) -> (region: &[u8])
        ensures
            region@ == self.region(),
    {
        self.house_data.as_slice()
    }

    /// All entries whose key starts with the UTF-8 bytes of `prefix`, in
    /// ascending order of their keys.
    ///
    /// Every entry of the index whose key has the prefix is found, no other
    /// entry is, and no key is found twice. Each offset found lies in the
    /// list region.
    pub fn search_prefix(&self, prefix: &str) -> (found: Vec<(Vec<u8>, u64)>)
        ensures
            entries_of(found@) == prefix_matches(self.entries(), encode_utf8(prefix@)),
            keys_ascending(entries_of(found@)),
            offsets_within(entries_of(found@), self.region().len()),
            forall|i: int|
                0 <= i < self.entries().len() && encode_utf8(prefix@).is_prefix_of(
                    (#[trigger] self.entries()[i]).0,
                ) ==> entries_of(found@).contains(self.entries()[i]),
            forall|j: int|
                0 <= j < found@.len() ==> encode_utf8(prefix@).is_prefix_of(
                    (#[trigger] entries_of(found@)[j]).0,
                ) && self.entries().contains(entries_of(found@)[j]),
            forall|j: int, k: int|
                0 <= j < k < found@.len() ==> (#[trigger] entries_of(found@)[j]).0 != (
                #[trigger] entries_of(found@)[k]).0,
    {
        proof {
            use_type_invariant(self);
        }
        let found = entries_with_prefix(&self.fst_map, prefix);
        proof {
            let all = self.entries();
            let kept = entries_of(found@);
            lemma_prefix_search(all, encode_utf8(prefix@), kept);
            assert forall|j: int| 0 <= j < kept.len() implies (#[trigger] kept[j]).1
                <= self.region().len() by {
                assert(all.contains(kept[j]));
                let i = choose|i: int| 0 <= i < all.len() && all[i] == kept[j];
                assert(all[i].1 <= self.region().len());
            }
        }
        found
    }

    /// The number of bytes that the dataset holds in memory for its index.
    pub fn index_len(&self) -> (len: usize)
        ensures
            len == self.index_bytes().len(),
    {
        index_byte_len(&self.fst_map)
    }

    /// The number of bytes of the list region.
    pub fn region_len(&self) -> (len: usize)
        ensures
            len == self.region().len(),
    {
        self.house_data.len()
    }
}

/// What joining a serialized index and a list region gives: a dataset that
/// holds the entries of the index and the region, or the reason why not.
pub open spec fn made_as(index: Seq<u8>, region: Seq<u8>, made: Result<PostcodeData, LoadError>) -> bool {
    if checksum_mismatch(index) {
        made == Err::<PostcodeData, LoadError>(LoadError::CorruptIndex)
    } else if !offsets_within(entries_in(index), region.len()) {
        made == Err::<PostcodeData, LoadError>(LoadError::OffsetOutOfRange)
    } else {
        &&& made matches Ok(data)
        &&& data.entries() == entries_in(index)
        &&& data.region() == region
        &&& data.index_bytes() == index
    }
}

/// What loading `compressed` gives.
///
/// A stream that does not decompress gives `Decompress`; a blob that is not
/// well framed gives `Truncated`; an index segment that is not accepted as
/// an index, whose trailer does not fit the machine, or whose checksum does
/// not match, gives `CorruptIndex`; an
/// offset that points at no byte of the list region gives
/// `OffsetOutOfRange`. Every other blob gives the dataset that holds the
/// entries of its index segment and its list region.
pub open spec fn load_outcome(compressed: Seq<u8>, loaded: Result<PostcodeData, LoadError>) -> bool {
    match brotli_unpacked(compressed) {
        None => loaded == Err::<PostcodeData, LoadError>(LoadError::Decompress),
        Some(blob) => if !well_framed(blob) {
            loaded == Err::<PostcodeData, LoadError>(LoadError::Truncated)
        } else if !(index_accepted(index_segment(blob)) && trailer_fits(index_segment(blob))) {
            loaded == Err::<PostcodeData, LoadError>(LoadError::CorruptIndex)
        } else {
            made_as(index_segment(blob), list_region(blob), loaded)
        },
    }
}

/// Loads a dataset from its compressed blob: decompresses it, splits it by
/// its two length fields, parses the index segment and walks its offsets.
///
/// The index segment has to be one that the builder wrote, unless the tests
/// made on its bytes give it away.
pub fn load_data(compressed: &[u8]) -> (loaded: Result<PostcodeData, LoadError>)
    requires
        brotli_unpacked(compressed@) matches Some(blob) ==> (well_framed(blob) ==> (index_accepted(
            index_segment(blob),
        ) && trailer_fits(index_segment(blob)) && !checksum_mismatch(index_segment(blob))
            ==> builder_wrote(index_segment(blob)))),
    ensures
        load_outcome(compressed@, loaded),
{
    let blob = match brotli_unpack(compressed) {
        Some(blob) => blob,
        None => {
            return Err(LoadError::Decompress);
        },
    };
    let (index_bytes, house_data) = match split_blob(blob.as_slice()) {
        Some(parts) => parts,
        None => {
            return Err(LoadError::Truncated);
        },
    };
    if !check_trailer_fits(index_bytes.as_slice()) {
        return Err(LoadError::CorruptIndex);
    }
    let index = match parse_index(index_bytes) {
        Some(index) => index,
        None => {
            return Err(LoadError::CorruptIndex);
        },
    };
    PostcodeData::new(index, house_data)
}

/// Prepares the dataset for lookups: loads it from its compressed blob.
///
/// The dataset that comes back is handed to every lookup; it is loaded once
/// and never changes.
pub fn init(compressed: &[u8]) -> (loaded: Result<PostcodeData, LoadError>)
    requires
        brotli_unpacked(compressed@) matches Some(blob) ==> (well_framed(blob) ==> (index_accepted(
            index_segment(blob),
        ) && trailer_fits(index_segment(blob)) && !checksum_mismatch(index_segment(blob))
            ==> builder_wrote(index_segment(blob)))),
    ensures
        load_outcome(compressed@, loaded),
{
    load_data(compressed)
}

/// The sizes that describe a loaded dataset, in bytes.
#[derive(Debug, Clone, Copy, PartialEq, Eq, Structural)]
pub struct DataInfo {
    /// The size of the serialized index, which is held in memory as it is.
    pub index_bytes: usize,
    /// The size of the region of encoded lists.
    pub list_bytes: usize,
    /// The size of the compressed blob that the dataset was loaded from.
    pub compressed_bytes: usize,
}

impl DataInfo {
    /// The bytes that the dataset holds in memory: its index and its lists.
    pub open spec fn memory(&self) -> int {
        self.index_bytes + self.list_bytes
    }

    /// The bytes that the dataset holds in memory: its index and its lists.
    pub fn memory_bytes(&self) -> (total: u128)
        ensures
            total == self.memory(),
    {
        self.index_bytes as u128 + self.list_bytes as u128
    }
}

/// Reports the sizes of a loaded dataset and of the compressed blob that it
/// came from, whose length is `compressed_len`.
pub fn get_info(data: &PostcodeData, compressed_len: usize) -> (info: DataInfo)
    ensures
        info.index_bytes == data.index_bytes().len(),
        info.list_bytes == data.region().len(),
        info.compressed_bytes == compressed_len,
{
    DataInfo {
        index_bytes: data.index_len(),
        list_bytes: data.region_len(),
        compressed_bytes: compressed_len,
    }
}

} // verus!

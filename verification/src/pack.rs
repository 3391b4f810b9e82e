//! The producer's side: from keys and their house numbers to the compressed
//! blob that a dataset is loaded from.

use crate::blob::index_segment;
use crate::blob::le64;
use crate::blob::list_region;
use crate::blob::well_framed;
use crate::blob::HEADER_LEN;
use crate::codec::compress_house_numbers;
use crate::codec::encodable;
use crate::codec::encode_list;
use crate::codec::lemma_round_trip;
use crate::dataset::brotli_unpacked;
use crate::dataset::init;
use crate::dataset::offsets_within;
use crate::dataset::PostcodeData;
use crate::index::build_index;
use crate::index::builder_wrote;
use crate::index::checksum_mismatch;
use crate::index::entries_in;
use crate::index::entries_of;
use crate::index::index_accepted;
use crate::index::keys_ascending;
use crate::index::trailer_fits;
use crate::lookup::list_at;
use vstd::prelude::*;
use vstd::slice::slice_to_vec;

verus! {

/// The effort that the compressor spends, from 0 to 11.
pub const PACK_QUALITY: u32 = 9;

/// The size of the compressor's window as a power of two, from 10 to 24.
pub const PACK_WINDOW: u32 = 22;

/// The brotli stream that the compressor writes for `blob` at a quality and
/// a window size, or `None` where it reports an error.
pub uninterp spec fn brotli_packed(blob: Seq<u8>, quality: u32, window: u32) -> Option<Seq<u8>>;

/// Compresses `blob` as one brotli stream, with `brotli::CompressorWriter`
/// written to and then taken apart by `into_inner`.
///
/// The contract names the outcome and claims what compression is for: the
/// stream that comes back decompresses to the bytes that went in. The
/// outcome depends on the arguments alone because the `brotli` crate is
/// built with its feature `portable-float`: its cost estimates then go
/// through tables, not through the platform's math library, and the same
/// input gives the same bytes on every target.
#[verifier::external_body]
fn brotli_pack(blob: &[u8], quality: u32, window: u32) -> (packed: Option<Vec<u8>>)
    requires
        quality <= 11,
        10 <= window <= 24,
    ensures
        match packed {
            Some(bytes) => brotli_packed(blob@, quality, window) == Some(bytes@)
                && brotli_unpacked(bytes@) == Some(blob@),
            None => brotli_packed(blob@, quality, window) is None,
        },
{
    let mut writer = brotli::CompressorWriter::new(Vec::new(), 4096, quality, window);
    match std::io::Write::write_all(&mut writer, blob) {
        Ok(()) => Some(writer.into_inner()),
        Err(_) => None,
    }
}

/// The eight bytes that hold `value` as a little-endian 64-bit number.
pub open spec fn le64_bytes(value: int) -> Seq<u8> {
    let v1 = value / 0x100;
    let v2 = v1 / 0x100;
    let v3 = v2 / 0x100;
    let v4 = v3 / 0x100;
    let v5 = v4 / 0x100;
    let v6 = v5 / 0x100;
    let v7 = v6 / 0x100;
    seq![
        (value % 0x100) as u8,
        (v1 % 0x100) as u8,
        (v2 % 0x100) as u8,
        (v3 % 0x100) as u8,
        (v4 % 0x100) as u8,
        (v5 % 0x100) as u8,
        (v6 % 0x100) as u8,
        (v7 % 0x100) as u8,
    ]
}

/// The blob that frames an index segment and a list region.
pub open spec fn framed(index: Seq<u8>, region: Seq<u8>) -> Seq<u8> {
    le64_bytes(index.len() as int) + le64_bytes(region.len() as int) + index + region
}

/// Appends `value` to `out` as eight little-endian bytes.
fn push_le64(out: &mut Vec<u8>, value: u64)
    ensures
        final(out)@ == old(out)@ + le64_bytes(value as int),
{
    let v1 = value / 0x100;
    let v2 = v1 / 0x100;
    let v3 = v2 / 0x100;
    let v4 = v3 / 0x100;
    let v5 = v4 / 0x100;
    let v6 = v5 / 0x100;
    let v7 = v6 / 0x100;
    out.push((value % 0x100) as u8);
    out.push((v1 % 0x100) as u8);
    out.push((v2 % 0x100) as u8);
    out.push((v3 % 0x100) as u8);
    out.push((v4 % 0x100) as u8);
    out.push((v5 % 0x100) as u8);
    out.push((v6 % 0x100) as u8);
    out.push((v7 % 0x100) as u8);
    assert(out@ =~= old(out)@ + le64_bytes(value as int));
}

/// The eight bytes written for a number read back as that number.
proof fn lemma_le64_round_trip(value: int, bytes: Seq<u8>, at: int)
    requires
        0 <= value <= u64::MAX,
        0 <= at,
        at + 8 <= bytes.len(),
        bytes.subrange(at, at + 8) == le64_bytes(value),
    ensures
        le64(bytes, at) == value,
{
    let field = bytes.subrange(at, at + 8);
    let v1 = value / 0x100;
    let v2 = v1 / 0x100;
    let v3 = v2 / 0x100;
    let v4 = v3 / 0x100;
    let v5 = v4 / 0x100;
    let v6 = v5 / 0x100;
    let v7 = v6 / 0x100;
    let v8 = v7 / 0x100;
    assert(value == value % 0x100 + 0x100 * v1);
    assert(v1 == v1 % 0x100 + 0x100 * v2 && v1 < 0x100_0000_0000_0000);
    assert(v2 == v2 % 0x100 + 0x100 * v3 && v2 < 0x1_0000_0000_0000);
    assert(v3 == v3 % 0x100 + 0x100 * v4 && v3 < 0x100_0000_0000);
    assert(v4 == v4 % 0x100 + 0x100 * v5 && v4 < 0x1_0000_0000);
    assert(v5 == v5 % 0x100 + 0x100 * v6 && v5 < 0x100_0000);
    assert(v6 == v6 % 0x100 + 0x100 * v7 && v6 < 0x1_0000);
    assert(v7 == v7 % 0x100 + 0x100 * v8 && v7 < 0x100);
    assert(v8 == 0);
    assert(bytes[at] == field[0] && field[0] == value % 0x100);
    assert(bytes[at + 1] == field[1] && field[1] == v1 % 0x100);
    assert(bytes[at + 2] == field[2] && field[2] == v2 % 0x100);
    assert(bytes[at + 3] == field[3] && field[3] == v3 % 0x100);
    assert(bytes[at + 4] == field[4] && field[4] == v4 % 0x100);
    assert(bytes[at + 5] == field[5] && field[5] == v5 % 0x100);
    assert(bytes[at + 6] == field[6] && field[6] == v6 % 0x100);
    assert(bytes[at + 7] == field[7] && field[7] == v7 % 0x100);
}

/// A framed blob is well framed and gives back both segments.
pub proof fn lemma_framed(index: Seq<u8>, region: Seq<u8>)
    requires
        index.len() <= u64::MAX,
        region.len() <= u64::MAX,
    ensures
        well_framed(framed(index, region)),
        index_segment(framed(index, region)) == index,
        list_region(framed(index, region)) == region,
{
    let blob = framed(index, region);
    assert(blob.subrange(0, 8) =~= le64_bytes(index.len() as int));
    assert(blob.subrange(8, 16) =~= le64_bytes(region.len() as int));
    lemma_le64_round_trip(index.len() as int, blob, 0);
    lemma_le64_round_trip(region.len() as int, blob, 8);
    assert(blob.len() == HEADER_LEN + index.len() + region.len());
    assert(index_segment(blob) =~= index);
    assert(list_region(blob) =~= region);
}

/// Frames an index segment and a list region as one blob.
pub fn frame_blob(index: &[u8], region: &[u8]) -> (blob: Vec<u8>)
    ensures
        blob@ == framed(index@, region@),
        well_framed(blob@),
        index_segment(blob@) == index@,
        list_region(blob@) == region@,
{
    let mut blob: Vec<u8> = Vec::new();
    push_le64(&mut blob, index.len() as u64);
    push_le64(&mut blob, region.len() as u64);
    blob.extend_from_slice(index);
    blob.extend_from_slice(region);
    proof {
        assert(blob@ =~= framed(index@, region@));
        lemma_framed(index@, region@);
    }
    blob
}

/// What a vector of keys with their house numbers holds, as plain values.
pub open spec fn keyed_lists(entries: Seq<(Vec<u8>, Vec<u32>)>) -> Seq<(Seq<u8>, Seq<u32>)> {
    entries.map_values(|entry: (Vec<u8>, Vec<u32>)| (entry.0@, entry.1@))
}

/// Whether a dataset can be made of `lists`: the keys ascend, and the layout
/// of a list can hold each of them.
pub open spec fn packable(lists: Seq<(Seq<u8>, Seq<u32>)>) -> bool {
    &&& forall|i: int, j: int|
        0 <= i < j < lists.len() ==> crate::index::key_before(
            (#[trigger] lists[i]).0,
            (#[trigger] lists[j]).0,
        )
    &&& forall|i: int| 0 <= i < lists.len() ==> encodable((#[trigger] lists[i]).1)
}

/// Whether an index and a list region hold `lists`: the entries carry the
/// keys in their order, and each offset is the place in the region where the
/// list of its key is read.
pub open spec fn holds(
    entries: Seq<(Seq<u8>, u64)>,
    region: Seq<u8>,
    lists: Seq<(Seq<u8>, Seq<u32>)>,
) -> bool {
    &&& entries.len() == lists.len()
    &&& forall|i: int|
        0 <= i < lists.len() ==> {
            &&& (#[trigger] entries[i]).0 == lists[i].0
            &&& entries[i].1 < region.len()
            &&& list_at(region, entries[i].1) == lists[i].1
        }
}

/// Whether `bytes` are a compressed blob that holds `lists` and whose index
/// segment the builder wrote.
pub open spec fn packed_as(bytes: Seq<u8>, lists: Seq<(Seq<u8>, Seq<u32>)>) -> bool {
    &&& brotli_unpacked(bytes) matches Some(blob)
    &&& well_framed(blob)
    &&& builder_wrote(index_segment(blob))
    &&& index_accepted(index_segment(blob))
    &&& trailer_fits(index_segment(blob))
    &&& !checksum_mismatch(index_segment(blob))
    &&& entries_in(index_segment(blob)) == placed(lists)
    &&& list_region(blob) == region_of(lists)
    &&& holds(entries_in(index_segment(blob)), list_region(blob), lists)
}

/// The region that holds the encoded lists of `lists` one after the other.
pub open spec fn region_of(lists: Seq<(Seq<u8>, Seq<u32>)>) -> Seq<u8>
    decreases lists.len(),
{
    if lists.len() == 0 {
        Seq::empty()
    } else {
        region_of(lists.drop_last()) + encode_list(lists.last().1)
    }
}

/// The entries of the index for `lists`: each key with the place in
/// `region_of(lists)` where its list starts.
pub open spec fn placed(lists: Seq<(Seq<u8>, Seq<u32>)>) -> Seq<(Seq<u8>, u64)>
    decreases lists.len(),
{
    if lists.len() == 0 {
        Seq::empty()
    } else {
        placed(lists.drop_last()).push(
            (lists.last().0, region_of(lists.drop_last()).len() as u64),
        )
    }
}

/// The compressed blob of the dataset of `lists`, or `None` where no dataset
/// can be made of them or the compressor reports an error.
pub open spec fn packed_blob(lists: Seq<(Seq<u8>, Seq<u32>)>) -> Option<Seq<u8>> {
    if packable(lists) {
        brotli_packed(
            framed(crate::index::built_index(placed(lists)), region_of(lists)),
            PACK_QUALITY,
            PACK_WINDOW,
        )
    } else {
        None
    }
}

/// `Some` of what a vector holds, as plain values.
pub open spec fn bytes_view(bytes: Option<Vec<u8>>) -> Option<Seq<u8>> {
    match bytes {
        Some(bytes) => Some(bytes@),
        None => None,
    }
}

/// Whether the encoded form of each list lies in `region` at the offset
/// that the entry of its key carries.
pub open spec fn laid_out(
    entries: Seq<(Seq<u8>, u64)>,
    region: Seq<u8>,
    lists: Seq<(Seq<u8>, Seq<u32>)>,
) -> bool {
    &&& entries.len() == lists.len()
    &&& forall|j: int|
        0 <= j < lists.len() ==> {
            &&& (#[trigger] entries[j]).0 == lists[j].0
            &&& encodable(lists[j].1)
            &&& entries[j].1 + encode_list(lists[j].1).len() <= region.len()
            &&& region.subrange(
                entries[j].1 as int,
                entries[j].1 + encode_list(lists[j].1).len(),
            ) == encode_list(lists[j].1)
        }
}

/// A region in which the lists are laid out holds them: each is read back
/// at its offset, whatever follows it.
pub proof fn lemma_laid_out_holds(
    entries: Seq<(Seq<u8>, u64)>,
    region: Seq<u8>,
    lists: Seq<(Seq<u8>, Seq<u32>)>,
)
    requires
        laid_out(entries, region, lists),
    ensures
        holds(entries, region, lists),
{
    assert forall|j: int| 0 <= j < lists.len() implies {
        &&& (#[trigger] entries[j]).0 == lists[j].0
        &&& entries[j].1 < region.len()
        &&& list_at(region, entries[j].1) == lists[j].1
    } by {
        let offset = entries[j].1 as int;
        let stretch = encode_list(lists[j].1);
        assert(stretch.len() >= 2);
        let tail = region.skip(offset + stretch.len());
        assert(region.skip(offset) =~= region.subrange(offset, offset + stretch.len()) + tail);
        lemma_round_trip(lists[j].1, tail);
    }
}

/// The keys of entries that carry the keys of `lists` ascend exactly where
/// those of `lists` do.
proof fn lemma_same_keys(entries: Seq<(Seq<u8>, u64)>, lists: Seq<(Seq<u8>, Seq<u32>)>)
    requires
        entries.len() == lists.len(),
        forall|j: int| 0 <= j < lists.len() ==> (#[trigger] entries[j]).0 == lists[j].0,
    ensures
        keys_ascending(entries) <==> (forall|i: int, j: int|
            0 <= i < j < lists.len() ==> crate::index::key_before(
                (#[trigger] lists[i]).0,
                (#[trigger] lists[j]).0,
            )),
{
    if keys_ascending(entries) {
        assert forall|a: int, b: int| 0 <= a < b < lists.len() implies crate::index::key_before(
            (#[trigger] lists[a]).0,
            (#[trigger] lists[b]).0,
        ) by {
            assert(entries[a].0 == lists[a].0);
            assert(entries[b].0 == lists[b].0);
        }
    }
    if forall|i: int, j: int|
        0 <= i < j < lists.len() ==> crate::index::key_before(
            (#[trigger] lists[i]).0,
            (#[trigger] lists[j]).0,
        ) {
        assert forall|a: int, b: int| 0 <= a < b < entries.len() implies crate::index::key_before(
            (#[trigger] entries[a]).0,
            (#[trigger] entries[b]).0,
        ) by {
            assert(entries[a].0 == lists[a].0);
            assert(entries[b].0 == lists[b].0);
        }
    }
}

/// Encodes the lists one after the other into a region, and pairs each key
/// with the offset of its list. A list that cannot be encoded gives `None`.
pub fn lay_out_lists(entries: &Vec<(Vec<u8>, Vec<u32>)>) -> (laid: Option<
    (Vec<(Vec<u8>, u64)>, Vec<u8>),
>)
    ensures
        laid is Some <==> (forall|i: int|
            0 <= i < entries@.len() ==> encodable((#[trigger] keyed_lists(entries@)[i]).1)),
        laid matches Some((keyed, region)) ==> {
            &&& entries_of(keyed@) == placed(keyed_lists(entries@))
            &&& region@ == region_of(keyed_lists(entries@))
            &&& laid_out(entries_of(keyed@), region@, keyed_lists(entries@))
        },
{
    let ghost lists = keyed_lists(entries@);
    let mut region: Vec<u8> = Vec::new();
    let mut keyed: Vec<(Vec<u8>, u64)> = Vec::new();
    let mut i: usize = 0;
    while i < entries.len()
        invariant
            i <= entries@.len(),
            lists == keyed_lists(entries@),
            keyed@.len() == i,
            forall|j: int| 0 <= j < i ==> encodable((#[trigger] lists[j]).1),
            laid_out(entries_of(keyed@), region@, lists.take(i as int)),
            entries_of(keyed@) == placed(lists.take(i as int)),
            region@ == region_of(lists.take(i as int)),
        decreases entries@.len() - i,
    {
        let entry = &entries[i];
        assert(lists[i as int] == (entry.0@, entry.1@));
        let encoded = match compress_house_numbers(entry.1.as_slice()) {
            Some(encoded) => encoded,
            None => {
                assert(!encodable(lists[i as int].1));
                return None;
            },
        };
        let ghost before = region@;
        let ghost earlier = entries_of(keyed@);
        let offset = region.len() as u64;
        keyed.push((slice_to_vec(entry.0.as_slice()), offset));
        region.extend_from_slice(encoded.as_slice());
        proof {
            let now = entries_of(keyed@);
            let upto = lists.take(i + 1);
            assert(upto.drop_last() =~= lists.take(i as int));
            assert(upto.last() == lists[i as int]);
            assert(now =~= placed(upto));
            assert(region@ =~= region_of(upto));
            assert(now.len() == upto.len());
            assert forall|j: int| 0 <= j < upto.len() implies {
                &&& (#[trigger] now[j]).0 == upto[j].0
                &&& encodable(upto[j].1)
                &&& now[j].1 + encode_list(upto[j].1).len() <= region@.len()
                &&& region@.subrange(now[j].1 as int, now[j].1 + encode_list(upto[j].1).len())
                    == encode_list(upto[j].1)
            } by {
                let stretch = encode_list(upto[j].1);
                if j < i {
                    assert(now[j] == earlier[j]);
                    assert(upto[j] == lists.take(i as int)[j]);
                    assert(region@.subrange(now[j].1 as int, now[j].1 + stretch.len())
                        =~= before.subrange(now[j].1 as int, now[j].1 + stretch.len()));
                } else {
                    assert(now[j] == (entry.0@, offset));
                    assert(region@.subrange(offset as int, offset + encoded@.len()) =~= encoded@);
                }
            }
        }
        i = i + 1;
    }
    assert(lists.take(i as int) =~= lists);
    Some((keyed, region))
}

/// Packs keys with their house numbers into the compressed blob of a
/// dataset: encodes the lists one after the other, builds the index from the
/// keys to the places of their lists, frames both and compresses the frame.
///
/// Keys that do not ascend and a list that cannot be encoded give `None`.
/// What comes back is fixed by the entries: the compressed frame of the
/// index built for them and of their lists laid out.
pub fn pack_dataset(entries: &Vec<(Vec<u8>, Vec<u32>)>) -> (packed: Option<Vec<u8>>)
    ensures
        bytes_view(packed) == packed_blob(keyed_lists(entries@)),
        packed matches Some(bytes) ==> packed_as(bytes@, keyed_lists(entries@)),
{
    let (keyed, region) = match lay_out_lists(entries) {
        Some(laid) => laid,
        None => {
            return None;
        },
    };
    proof {
        lemma_same_keys(entries_of(keyed@), keyed_lists(entries@));
        lemma_laid_out_holds(entries_of(keyed@), region@, keyed_lists(entries@));
    }
    let index = match build_index(&keyed) {
        Some(index) => index,
        None => {
            return None;
        },
    };
    let blob = frame_blob(index.as_slice(), region.as_slice());
    brotli_pack(blob.as_slice(), PACK_QUALITY, PACK_WINDOW)
}

/// Builds the dataset of keys with their house numbers: packs them into a
/// compressed blob and loads the blob, so that what comes back is what a
/// load of that blob will serve.
pub fn build_dataset(entries: &Vec<(Vec<u8>, Vec<u32>)>) -> (built: Option<PostcodeData>)
    ensures
        built is Some <==> packed_blob(keyed_lists(entries@)) is Some,
        built matches Some(data) ==> {
            &&& data.entries() == placed(keyed_lists(entries@))
            &&& data.region() == region_of(keyed_lists(entries@))
            &&& holds(data.entries(), data.region(), keyed_lists(entries@))
        },
{
    match pack_dataset(entries) {
        None => None,
        Some(packed) => {
            proof {
                let blob = brotli_unpacked(packed@)->Some_0;
                assert(offsets_within(
                    entries_in(index_segment(blob)),
                    list_region(blob).len(),
                ));
            }
            match init(packed.as_slice()) {
                Ok(data) => Some(data),
                Err(_) => None,
            }
        },
    }
}

} // verus!

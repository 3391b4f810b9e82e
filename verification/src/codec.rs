//! The house-number list codec.
//!
//! One encoded list is laid out as
//!
//! | bytes | field                                            |
//! |-------|--------------------------------------------------|
//! | 0..2  | `count`, little-endian: how many numbers follow  |
//! | 2..4  | the first number, little-endian                  |
//! | 4..   | one delta entry for each further number          |
//!
//! A delta entry is a single byte `1..=255` holding the delta itself, or the
//! escape byte `0` followed by the delta as two little-endian bytes.

use vstd::prelude::*;

verus! {

/// The value of two bytes read as a little-endian 16-bit number.
pub open spec fn le16(lo: u8, hi: u8) -> int {
    lo as int + 256 * (hi as int)
}

/// The largest value that a 16-bit field holds.
pub const FIELD_MAX: u32 = 0xFFFF;

/// The numbers that a delta stream yields after `last`, at most `remaining` of them.
///
/// The stream ends early where its bytes run out, also in the middle of an
/// escaped entry. Within a list no sum leaves 32 bits, as
/// `lemma_decode_list_ascending` shows, so the casts below change nothing
/// there.
pub open spec fn decode_deltas(stream: Seq<u8>, last: u32, remaining: nat) -> Seq<u32>
    decreases remaining,
{
    if remaining == 0 || stream.len() == 0 {
        Seq::empty()
    } else if stream[0] != 0 {
        let next = (last + stream[0]) as u32;
        seq![next] + decode_deltas(stream.skip(1), next, (remaining - 1) as nat)
    } else if stream.len() < 3 {
        Seq::empty()
    } else {
        let next = (last + le16(stream[1], stream[2])) as u32;
        seq![next] + decode_deltas(stream.skip(3), next, (remaining - 1) as nat)
    }
}

/// The numbers that the encoded list at the start of `bytes` holds.
///
/// Bytes after the list are not read. A list that is cut short yields the
/// numbers that are complete.
pub open spec fn decode_list(bytes: Seq<u8>) -> Seq<u32> {
    if bytes.len() < 2 || le16(bytes[0], bytes[1]) == 0 || bytes.len() < 4 {
        Seq::empty()
    } else {
        let first = le16(bytes[2], bytes[3]) as u32;
        seq![first] + decode_deltas(
            bytes.skip(4),
            first,
            (le16(bytes[0], bytes[1]) - 1) as nat,
        )
    }
}

/// Whether no number of `list` is smaller than one before it.
pub open spec fn ascending(list: Seq<u32>) -> bool {
    forall|i: int, j: int| 0 <= i <= j < list.len() ==> list[i] <= list[j]
}

/// A delta stream that starts from `last <= bound` yields at most `remaining`
/// numbers, none below `last`, the one at place `k` at most
/// `bound + (k + 1) * 0xFFFF`, and in ascending order, as long as that bound
/// stays within 32 bits.
proof fn lemma_decode_deltas_bounds(stream: Seq<u8>, last: u32, remaining: nat, bound: int)
    requires
        last <= bound,
        bound + remaining * 0xFFFF <= u32::MAX,
    ensures
        decode_deltas(stream, last, remaining).len() <= remaining,
        forall|k: int|
            0 <= k < decode_deltas(stream, last, remaining).len() ==> last <= (
            #[trigger] decode_deltas(stream, last, remaining)[k]) <= bound + (k + 1) * 0xFFFF,
        ascending(decode_deltas(stream, last, remaining)),
    decreases remaining,
{
    let out = decode_deltas(stream, last, remaining);
    if remaining == 0 || stream.len() == 0 {
    } else if stream[0] != 0 || stream.len() >= 3 {
        let delta: int = if stream[0] != 0 {
            stream[0] as int
        } else {
            le16(stream[1], stream[2])
        };
        let rest_stream = if stream[0] != 0 {
            stream.skip(1)
        } else {
            stream.skip(3)
        };
        let next = (last + delta) as u32;
        let rest = decode_deltas(rest_stream, next, (remaining - 1) as nat);
        assert(bound + 0xFFFF + (remaining - 1) * 0xFFFF == bound + remaining * 0xFFFF)
            by (nonlinear_arith);
        assert(0 <= (remaining - 1) * 0xFFFF) by (nonlinear_arith)
            requires
                remaining >= 1,
        ;
        assert(next == last + delta);
        lemma_decode_deltas_bounds(rest_stream, next, (remaining - 1) as nat, bound + 0xFFFF);
        assert(out =~= seq![next] + rest);
        assert forall|k: int| 0 <= k < out.len() implies last <= (#[trigger] out[k]) <= bound + (k
            + 1) * 0xFFFF by {
            if k > 0 {
                assert(out[k] == rest[k - 1]);
                assert(bound + 0xFFFF + k * 0xFFFF == bound + (k + 1) * 0xFFFF)
                    by (nonlinear_arith);
            }
        }
        assert forall|i: int, j: int| 0 <= i <= j < out.len() implies out[i] <= out[j] by {
            if i > 0 {
                assert(out[i] == rest[i - 1]);
                assert(out[j] == rest[j - 1]);
            } else if j > 0 {
                assert(out[j] == rest[j - 1]);
            }
        }
    }
}

/// A decoded list has at most as many numbers as its count field says, and
/// they ascend: no delta can carry a sum beyond 32 bits.
pub proof fn lemma_decode_list_ascending(bytes: Seq<u8>)
    ensures
        bytes.len() >= 2 ==> decode_list(bytes).len() <= le16(bytes[0], bytes[1]),
        bytes.len() < 2 ==> decode_list(bytes).len() == 0,
        ascending(decode_list(bytes)),
{
    if bytes.len() < 2 || le16(bytes[0], bytes[1]) == 0 || bytes.len() < 4 {
    } else {
        let count = le16(bytes[0], bytes[1]);
        let first = le16(bytes[2], bytes[3]) as u32;
        let rest = decode_deltas(bytes.skip(4), first, (count - 1) as nat);
        assert(0xFFFF + (count - 1) * 0xFFFF <= u32::MAX) by (nonlinear_arith)
            requires
                1 <= count <= 0xFFFF,
        ;
        lemma_decode_deltas_bounds(bytes.skip(4), first, (count - 1) as nat, 0xFFFF);
        let out = decode_list(bytes);
        assert(out =~= seq![first] + rest);
        assert forall|i: int, j: int| 0 <= i <= j < out.len() implies out[i] <= out[j] by {
            if i > 0 {
                assert(out[i] == rest[i - 1]);
                assert(out[j] == rest[j - 1]);
            } else if j > 0 {
                assert(out[j] == rest[j - 1]);
            }
        }
    }
}

/// Reads the two bytes of `bytes` at `at` as a little-endian number.
fn read_le16(bytes: &[u8], at: usize) -> (value: u32)
    requires
        at + 2 <= bytes@.len(),
    ensures
        value == le16(bytes@[at as int], bytes@[at + 1]),
{
    bytes[at] as u32 + 256 * (bytes[at + 1] as u32)
}

/// Decodes the house-number list at the start of `compressed_data`.
///
/// Never fails: a list that is cut short gives the numbers that are
/// complete, and an input too short for a count gives none.
pub fn decompress_house_numbers(compressed_data: &[u8]) -> (nums: Vec<u32>)
    ensures
        nums@ == decode_list(compressed_data@),
        ascending(nums@),
        compressed_data@.len() >= 2 ==> nums@.len() <= le16(
            compressed_data@[0],
            compressed_data@[1],
        ),
{
    proof {
        lemma_decode_list_ascending(compressed_data@);
    }
    let size = compressed_data.len();
    if size < 2 {
        return Vec::new();
    }
    let count = read_le16(compressed_data, 0);
    if count == 0 {
        return Vec::new();
    }
    let mut nums: Vec<u32> = Vec::with_capacity(count as usize);
    if size < 4 {
        return nums;
    }
    let first = read_le16(compressed_data, 2);
    nums.push(first);
    let mut last = first;
    let mut at: usize = 4;
    let mut produced: u32 = 1;
    assert(nums@ =~= seq![first]);
    while produced < count && at < size
        invariant
            size == compressed_data@.len(),
            4 <= at <= size,
            1 <= produced <= count <= FIELD_MAX,
            nums@.len() == produced,
            last <= FIELD_MAX * produced,
            decode_list(compressed_data@) == nums@ + decode_deltas(
                compressed_data@.skip(at as int),
                last,
                (count - produced) as nat,
            ),
        ensures
            nums@ == decode_list(compressed_data@),
        decreases count - produced,
    {
        let ghost stream = compressed_data@.skip(at as int);
        let ghost before = nums@;
        let marker = compressed_data[at];
        assert(stream[0] == marker);
        let delta: u32;
        let width: usize;
        if marker == 0 {
            if size - at < 3 {
                assert(nums@ + Seq::<u32>::empty() =~= nums@);
                break ;
            }
            delta = read_le16(compressed_data, at + 1);
            width = 3;
            assert(stream[1] == compressed_data@[at + 1]);
            assert(stream[2] == compressed_data@[at + 2]);
        } else {
            delta = marker as u32;
            width = 1;
        }
        assert(last + delta <= FIELD_MAX * (produced + 1) <= u32::MAX) by (nonlinear_arith)
            requires
                last <= FIELD_MAX * produced,
                delta <= FIELD_MAX,
                produced < FIELD_MAX,
                FIELD_MAX == 0xFFFF,
        ;
        last = last + delta;
        nums.push(last);
        at = at + width;
        produced = produced + 1;
        proof {
            let rest = decode_deltas(
                compressed_data@.skip(at as int),
                last,
                (count - produced) as nat,
            );
            assert(stream.skip(width as int) =~= compressed_data@.skip(at as int));
            assert(before + (seq![last] + rest) =~= nums@ + rest);
        }
    }
    assert(nums@ + Seq::<u32>::empty() =~= nums@);
    nums
}

/// The two bytes that hold `value` as a little-endian 16-bit number.
pub open spec fn le16_bytes(value: int) -> Seq<u8> {
    seq![(value % 256) as u8, (value / 256) as u8]
}

/// The delta entry for `delta`: one byte where the delta fits in `1..=255`,
/// else the escape byte and two bytes.
pub open spec fn encode_delta(delta: int) -> Seq<u8> {
    if 1 <= delta <= 255 {
        seq![delta as u8]
    } else {
        seq![0u8] + le16_bytes(delta)
    }
}

/// The delta stream for the numbers of `list` after its first.
pub open spec fn encode_deltas(list: Seq<u32>) -> Seq<u8>
    decreases list.len(),
{
    if list.len() < 2 {
        Seq::empty()
    } else {
        encode_delta(list[1] - list[0]) + encode_deltas(list.skip(1))
    }
}

/// The encoded form of `list`.
pub open spec fn encode_list(list: Seq<u32>) -> Seq<u8> {
    if list.len() == 0 {
        le16_bytes(0)
    } else {
        le16_bytes(list.len() as int) + le16_bytes(list[0] as int) + encode_deltas(list)
    }
}

/// Whether the layout can hold `list`: its length and its first number fit a
/// 16-bit field, and each number exceeds the one before it by `1..=0xFFFF`.
pub open spec fn encodable(list: Seq<u32>) -> bool {
    &&& list.len() <= FIELD_MAX
    &&& list.len() > 0 ==> list[0] <= FIELD_MAX
    &&& forall|i: int|
        0 <= i < list.len() - 1 ==> 1 <= #[trigger] list[i + 1] - list[i] <= FIELD_MAX
}

proof fn lemma_le16_round_trip(value: int)
    requires
        0 <= value <= FIELD_MAX,
    ensures
        le16_bytes(value).len() == 2,
        le16(le16_bytes(value)[0], le16_bytes(value)[1]) == value,
{
}

/// Decoding the delta stream of `list`, whatever bytes follow it, gives back
/// the numbers of `list` after its first.
proof fn lemma_deltas_round_trip(list: Seq<u32>, tail: Seq<u8>)
    requires
        list.len() >= 1,
        forall|i: int|
            0 <= i < list.len() - 1 ==> 1 <= #[trigger] list[i + 1] - list[i] <= FIELD_MAX,
    ensures
        decode_deltas(encode_deltas(list) + tail, list[0], (list.len() - 1) as nat) == list.skip(
            1,
        ),
    decreases list.len(),
{
    let stream = encode_deltas(list) + tail;
    let out = decode_deltas(stream, list[0], (list.len() - 1) as nat);
    if list.len() == 1 {
        assert(out =~= list.skip(1));
    } else {
        let delta = list[1] - list[0];
        assert(1 <= list[0int + 1] - list[0] <= FIELD_MAX);
        let later = list.skip(1);
        assert forall|i: int| 0 <= i < later.len() - 1 implies 1 <= #[trigger] later[i + 1]
            - later[i] <= FIELD_MAX by {
            assert(later[i + 1] - later[i] == list[(i + 1) + 1] - list[i + 1]);
        }
        lemma_deltas_round_trip(later, tail);
        let rest_stream = encode_deltas(later) + tail;
        lemma_le16_round_trip(delta);
        if delta <= 255 {
            assert(stream =~= seq![delta as u8] + rest_stream);
            assert(stream.skip(1) =~= rest_stream);
        } else {
            assert(stream =~= seq![0u8] + le16_bytes(delta) + rest_stream);
            assert(stream[1] == le16_bytes(delta)[0]);
            assert(stream[2] == le16_bytes(delta)[1]);
            assert(stream.skip(3) =~= rest_stream);
        }
        assert(list[1] == later[0]);
        assert(out =~= seq![list[1]] + later.skip(1));
        assert(out =~= list.skip(1));
    }
}

/// Decoding an encoded list gives the list back, whatever bytes follow it:
/// this holds of every list that the layout can hold.
pub proof fn lemma_round_trip(list: Seq<u32>, tail: Seq<u8>)
    requires
        encodable(list),
    ensures
        decode_list(encode_list(list) + tail) == list,
{
    let bytes = encode_list(list) + tail;
    if list.len() == 0 {
        assert(bytes[0] == 0 && bytes[1] == 0);
        assert(decode_list(bytes) =~= list);
    } else {
        lemma_le16_round_trip(list.len() as int);
        lemma_le16_round_trip(list[0] as int);
        lemma_deltas_round_trip(list, tail);
        let head = le16_bytes(list.len() as int) + le16_bytes(list[0] as int);
        assert(bytes =~= head + (encode_deltas(list) + tail));
        assert(bytes[0] == le16_bytes(list.len() as int)[0]);
        assert(bytes[1] == le16_bytes(list.len() as int)[1]);
        assert(bytes[2] == le16_bytes(list[0] as int)[0]);
        assert(bytes[3] == le16_bytes(list[0] as int)[1]);
        assert(bytes.skip(4) =~= encode_deltas(list) + tail);
        assert(decode_list(bytes) =~= seq![list[0]] + list.skip(1));
        assert(seq![list[0]] + list.skip(1) =~= list);
    }
}

/// Every list of at most `0xFFFF` numbers that fit 16 bits and strictly
/// increase can be encoded, and decoding its encoded form gives it back.
pub proof fn lemma_round_trip_16_bit(list: Seq<u32>)
    requires
        list.len() <= FIELD_MAX,
        forall|i: int| 0 <= i < list.len() ==> list[i] <= FIELD_MAX,
        forall|i: int, j: int| 0 <= i < j < list.len() ==> list[i] < list[j],
    ensures
        encodable(list),
        decode_list(encode_list(list)) == list,
{
    assert forall|i: int| 0 <= i < list.len() - 1 implies 1 <= #[trigger] list[i + 1] - list[i]
        <= FIELD_MAX by {
        assert(list[i] < list[i + 1]);
    }
    lemma_round_trip(list, Seq::empty());
    assert(encode_list(list) + Seq::<u8>::empty() =~= encode_list(list));
}

/// Appends `value` to `out` as two little-endian bytes.
fn push_le16(out: &mut Vec<u8>, value: u32)
    requires
        value <= FIELD_MAX,
    ensures
        final(out)@ == old(out)@ + le16_bytes(value as int),
{
    out.push((value % 256) as u8);
    out.push((value / 256) as u8);
    assert(out@ =~= old(out)@ + le16_bytes(value as int));
}

/// Encodes `nums` in the list layout, or gives `None` where the layout
/// cannot hold them: more than `0xFFFF` numbers, a first number above
/// `0xFFFF`, or a number that does not exceed the one before it by
/// `1..=0xFFFF`.
pub fn compress_house_numbers(nums: &[u32]) -> (encoded: Option<Vec<u8>>)
    ensures
        encoded is Some <==> encodable(nums@),
        encoded matches Some(bytes) ==> bytes@ == encode_list(nums@),
{
    let len = nums.len();
    let mut out: Vec<u8> = Vec::new();
    if len > FIELD_MAX as usize {
        return None;
    }
    push_le16(&mut out, len as u32);
    if len == 0 {
        return Some(out);
    }
    let first = nums[0];
    if first > FIELD_MAX {
        return None;
    }
    push_le16(&mut out, first);
    let mut i: usize = 1;
    proof {
        assert(nums@.skip(0) =~= nums@);
        assert(out@ + encode_deltas(nums@) =~= encode_list(nums@));
    }
    while i < len
        invariant
            len == nums@.len(),
            1 <= i <= len <= FIELD_MAX,
            nums@[0] <= FIELD_MAX,
            forall|j: int| 0 <= j < i - 1 ==> 1 <= #[trigger] nums@[j + 1] - nums@[j] <= FIELD_MAX,
            out@ + encode_deltas(nums@.skip(i - 1)) == encode_list(nums@),
        decreases len - i,
    {
        let previous = nums[i - 1];
        let current = nums[i];
        if current <= previous || current - previous > FIELD_MAX {
            assert(!(1 <= nums@[(i - 1) + 1] - nums@[i - 1] <= FIELD_MAX));
            return None;
        }
        let delta = current - previous;
        let ghost before = out@;
        let ghost pending = nums@.skip(i - 1);
        if delta <= 255 {
            out.push(delta as u8);
        } else {
            out.push(0);
            push_le16(&mut out, delta);
        }
        proof {
            assert(pending[0] == previous && pending[1] == current);
            assert(out@ =~= before + encode_delta(delta as int));
            assert(pending.skip(1) =~= nums@.skip(i as int));
            assert(before + (encode_delta(delta as int) + encode_deltas(pending.skip(1))) =~= out@
                + encode_deltas(nums@.skip(i as int)));
            assert forall|j: int| 0 <= j < (i + 1) - 1 implies 1 <= #[trigger] nums@[j + 1]
                - nums@[j] <= FIELD_MAX by {
                if j == i - 1 {
                    assert(nums@[j + 1] == current);
                }
            }
        }
        i = i + 1;
    }
    assert(out@ + Seq::<u8>::empty() =~= out@);
    Some(out)
}

/// Searches `list` for `number` by bisection.
///
/// On an ascending list the answer is whether the list holds the number. On
/// any other list a number that is there may be missed, but none is found
/// that is not there.
pub fn contains_number(list: &[u32], number: u32) -> (found: bool)
    ensures
        found ==> list@.contains(number),
        ascending(list@) ==> found == list@.contains(number),
{
    let mut low: usize = 0;
    let mut high: usize = list.len();
    while low < high
        invariant
            low <= high <= list@.len(),
            ascending(list@) ==> forall|i: int| 0 <= i < low ==> list@[i] < number,
            ascending(list@) ==> forall|i: int| high <= i < list@.len() ==> list@[i] > number,
        decreases high - low,
    {
        let middle = low + (high - low) / 2;
        let value = list[middle];
        if value == number {
            return true;
        } else if value < number {
            low = middle + 1;
        } else {
            high = middle;
        }
    }
    assert(ascending(list@) ==> !list@.contains(number)) by {
        if ascending(list@) && list@.contains(number) {
            let i = choose|i: int| 0 <= i < list@.len() && list@[i] == number;
            assert(i < low || i >= high);
        }
    }
    false
}

} // verus!

//! Composite keys: `POSTCODE|street|city`, as bytes.

use vstd::prelude::*;
use vstd::slice::slice_subrange;
use vstd::slice::slice_to_vec;
use vstd::utf8::valid_utf8;

verus! {

/// The byte that separates the fields of a composite key: `|`.
pub const DELIMITER: u8 = 0x7C;

/// The position of the first delimiter in `bytes`, or their length where
/// they hold none.
pub open spec fn first_delimiter(bytes: Seq<u8>) -> int
    decreases bytes.len(),
{
    if bytes.len() == 0 || bytes[0] == DELIMITER {
        0
    } else {
        1 + first_delimiter(bytes.skip(1))
    }
}

/// The fields of `bytes`: the stretches between its delimiters, in order.
/// Bytes with `n` delimiters have `n + 1` fields, some of them maybe empty.
pub open spec fn split_fields(bytes: Seq<u8>) -> Seq<Seq<u8>>
    decreases bytes.len(),
{
    let cut = first_delimiter(bytes);
    if 0 <= cut < bytes.len() {
        seq![bytes.take(cut)] + split_fields(bytes.skip(cut + 1))
    } else {
        seq![bytes]
    }
}

/// `first_delimiter` is the least position that holds a delimiter.
pub proof fn lemma_first_delimiter(bytes: Seq<u8>)
    ensures
        0 <= first_delimiter(bytes) <= bytes.len(),
        first_delimiter(bytes) < bytes.len() ==> bytes[first_delimiter(bytes)] == DELIMITER,
        forall|i: int| 0 <= i < first_delimiter(bytes) ==> bytes[i] != DELIMITER,
    decreases bytes.len(),
{
    if bytes.len() == 0 || bytes[0] == DELIMITER {
    } else {
        let rest = bytes.skip(1);
        lemma_first_delimiter(rest);
        assert forall|i: int| 0 <= i < first_delimiter(bytes) implies bytes[i] != DELIMITER by {
            if i > 0 {
                assert(bytes[i] == rest[i - 1]);
            }
        }
    }
}

/// Where the first `cut` bytes hold no delimiter, the first delimiter is at
/// `cut` if that byte is one, and nowhere if `cut` is the length.
proof fn lemma_first_delimiter_at(bytes: Seq<u8>, cut: int)
    requires
        0 <= cut <= bytes.len(),
        forall|i: int| 0 <= i < cut ==> bytes[i] != DELIMITER,
        cut < bytes.len() ==> bytes[cut] == DELIMITER,
    ensures
        first_delimiter(bytes) == cut,
{
    lemma_first_delimiter(bytes);
    let found = first_delimiter(bytes);
    if found < cut {
        assert(bytes[found] != DELIMITER);
    }
}

/// What a vector of owned fields holds, as plain values.
pub open spec fn fields_of(fields: Seq<Vec<u8>>) -> Seq<Seq<u8>> {
    fields.map_values(|field: Vec<u8>| field@)
}

/// Splits a key at its delimiters.
pub fn split_key(key: &[u8]) -> (fields: Vec<Vec<u8>>)
    ensures
        fields_of(fields@) == split_fields(key@),
{
    let size = key.len();
    let mut fields: Vec<Vec<u8>> = Vec::new();
    let mut start: usize = 0;
    let mut i: usize = 0;
    proof {
        assert(key@.skip(0) =~= key@);
        assert(fields_of(fields@) + split_fields(key@.skip(0)) =~= split_fields(key@));
    }
    while i < size
        invariant
            size == key@.len(),
            start <= i <= size,
            forall|k: int| start <= k < i ==> key@[k] != DELIMITER,
            fields_of(fields@) + split_fields(key@.skip(start as int)) == split_fields(key@),
        decreases size - i,
    {
        if key[i] == DELIMITER {
            let ghost pending = key@.skip(start as int);
            let ghost before = fields@;
            proof {
                assert forall|k: int| 0 <= k < i - start implies pending[k] != DELIMITER by {
                    assert(pending[k] == key@[start + k]);
                }
                lemma_first_delimiter_at(pending, i - start);
            }
            let field = slice_to_vec(slice_subrange(key, start, i));
            fields.push(field);
            proof {
                assert(pending.take(i - start) =~= field@);
                assert(pending.skip(i - start + 1) =~= key@.skip(i + 1));
                assert(fields_of(fields@) =~= fields_of(before) + seq![field@]);
                assert(fields_of(before) + (seq![field@] + split_fields(key@.skip(i + 1)))
                    =~= fields_of(fields@) + split_fields(key@.skip(i + 1)));
            }
            start = i + 1;
        }
        i = i + 1;
    }
    let ghost pending = key@.skip(start as int);
    let ghost before = fields@;
    proof {
        assert forall|k: int| 0 <= k < size - start implies pending[k] != DELIMITER by {
            assert(pending[k] == key@[start + k]);
        }
        lemma_first_delimiter_at(pending, size - start);
    }
    let field = slice_to_vec(slice_subrange(key, start, size));
    fields.push(field);
    proof {
        assert(pending =~= field@);
        assert(fields_of(fields@) =~= fields_of(before) + seq![field@]);
    }
    fields
}

/// Cutting well-formed UTF-8 at a byte below `0x80` leaves well-formed UTF-8
/// on both sides of that byte.
proof fn lemma_cut_at_ascii(bytes: Seq<u8>, cut: int)
    requires
        valid_utf8(bytes),
        0 <= cut < bytes.len(),
        bytes[cut] < 0x80,
    ensures
        valid_utf8(bytes.take(cut)),
        valid_utf8(bytes.skip(cut + 1)),
{
    vstd::utf8::is_char_boundary_iff_not_is_continuation_byte(bytes, cut);
    vstd::utf8::valid_utf8_split(bytes, cut);
    let tail = bytes.subrange(cut, bytes.len() as int);
    assert(bytes.take(cut) =~= bytes.subrange(0, cut));
    assert(tail[0] == bytes[cut]);
    assert(valid_utf8(tail));
    assert(vstd::utf8::pop_first_scalar(tail) =~= bytes.skip(cut + 1));
}

/// Each field of a key that is well-formed UTF-8 is well-formed UTF-8: the
/// delimiter is a character of its own and never part of another.
pub proof fn lemma_fields_valid_utf8(bytes: Seq<u8>)
    requires
        valid_utf8(bytes),
    ensures
        forall|k: int|
            0 <= k < split_fields(bytes).len() ==> valid_utf8(#[trigger] split_fields(bytes)[k]),
    decreases bytes.len(),
{
    let cut = first_delimiter(bytes);
    lemma_first_delimiter(bytes);
    if 0 <= cut < bytes.len() {
        lemma_cut_at_ascii(bytes, cut);
        lemma_fields_valid_utf8(bytes.skip(cut + 1));
        let rest = split_fields(bytes.skip(cut + 1));
        assert forall|k: int| 0 <= k < split_fields(bytes).len() implies valid_utf8(
            #[trigger] split_fields(bytes)[k],
        ) by {
            if k > 0 {
                assert(split_fields(bytes)[k] == rest[k - 1]);
            }
        }
    }
}

} // verus!

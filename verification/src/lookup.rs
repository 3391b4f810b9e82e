//! The lookup engine: from a postal code and a house number to the street
//! and the city.

use crate::codec::contains_number;
use crate::codec::decode_list;
use crate::codec::decompress_house_numbers;
use crate::dataset::offsets_within;
use crate::dataset::PostcodeData;
use crate::index::entries_of;
use crate::index::prefix_matches;
use crate::key::lemma_fields_valid_utf8;
use crate::key::split_fields;
use crate::key::split_key;
use crate::text::ascii_upper;
use crate::text::text_from_utf8;
use crate::text::to_upper;
use crate::text::uppercase_of;
use vstd::prelude::*;
use vstd::slice::slice_subrange;
use vstd::slice::slice_to_vec;
use vstd::string::StringExecFns;
use vstd::utf8::decode_utf8;
use vstd::utf8::encode_utf8;
use vstd::utf8::is_ascii_chars;
use vstd::utf8::valid_utf8;

verus! {

/// The address found for a postal code and a house number.
#[derive(Debug, Clone, PartialEq, Eq)]
pub struct LookupResult {
    /// The postal code, in upper case.
    pub postcode: String,
    /// The street, as the dataset holds it.
    pub straat: String,
    /// The house number that was asked for.
    pub huisnummer: u32,
    /// The city, as the dataset holds it.
    pub woonplaats: String,
}

/// A `LookupResult` as plain values.
pub struct Address {
    pub postcode: Seq<char>,
    pub straat: Seq<char>,
    pub huisnummer: u32,
    pub woonplaats: Seq<char>,
}

impl View for LookupResult {
    type V = Address;

    open spec fn view(&self) -> Address {
        Address {
            postcode: self.postcode@,
            straat: self.straat@,
            huisnummer: self.huisnummer,
            woonplaats: self.woonplaats@,
        }
    }
}

/// An answer as plain values.
pub open spec fn answer_view(answer: Option<LookupResult>) -> Option<Address> {
    match answer {
        Some(result) => Some(result@),
        None => None,
    }
}

/// The house numbers of the list that starts at `offset` in `region`.
pub open spec fn list_at(region: Seq<u8>, offset: u64) -> Seq<u32> {
    decode_list(region.skip(offset as int))
}

/// Whether an entry answers a query for `number`: its list holds the number,
/// and its key is well-formed UTF-8 with exactly three fields.
pub open spec fn answers(entry: (Seq<u8>, u64), region: Seq<u8>, number: u32) -> bool {
    &&& list_at(region, entry.1).contains(number)
    &&& valid_utf8(entry.0)
    &&& split_fields(entry.0).len() == 3
}

/// The address that an answering key gives: its second field is the street,
/// its third the city.
pub open spec fn address_of(key: Seq<u8>, postcode: Seq<char>, number: u32) -> Address {
    Address {
        postcode,
        straat: decode_utf8(split_fields(key)[1]),
        huisnummer: number,
        woonplaats: decode_utf8(split_fields(key)[2]),
    }
}

/// The address of the first of `candidates` that answers, if any does.
pub open spec fn first_answer(
    candidates: Seq<(Seq<u8>, u64)>,
    region: Seq<u8>,
    postcode: Seq<char>,
    number: u32,
) -> Option<Address>
    decreases candidates.len(),
{
    if candidates.len() == 0 {
        None
    } else if answers(candidates[0], region, number) {
        Some(address_of(candidates[0].0, postcode, number))
    } else {
        first_answer(candidates.skip(1), region, postcode, number)
    }
}

/// The bytes that the key of every candidate for a normalized postal code
/// starts with: the code and a delimiter.
pub open spec fn search_prefix_for(postcode_upper: Seq<char>) -> Seq<u8> {
    encode_utf8(postcode_upper + seq!['|'])
}

/// What a lookup for a postal code that is already in upper case returns:
/// the first entry in key order that starts with the code and a delimiter,
/// and answers, gives the address.
pub open spec fn answer_for(
    entries: Seq<(Seq<u8>, u64)>,
    region: Seq<u8>,
    postcode_upper: Seq<char>,
    number: u32,
) -> Option<Address> {
    first_answer(
        prefix_matches(entries, search_prefix_for(postcode_upper)),
        region,
        postcode_upper,
        number,
    )
}

/// What a lookup returns: the postal code is put in upper case and looked up
/// in that form.
pub open spec fn lookup_answer(
    entries: Seq<(Seq<u8>, u64)>,
    region: Seq<u8>,
    postcode: Seq<char>,
    number: u32,
) -> Option<Address> {
    answer_for(entries, region, uppercase_of(postcode), number)
}

/// Tests one candidate: decodes the list at its offset, searches it for
/// `number`, and on a hit splits the key into the address.
pub fn match_candidate(key: &[u8], offset: u64, region: &[u8], postcode: &str, number: u32) -> (answer:
    Option<LookupResult>)
    requires
        offset <= region@.len(),
    ensures
        answer_view(answer) == (if answers((key@, offset), region@, number) {
            Some(address_of(key@, postcode@, number))
        } else {
            None
        }),
{
    let encoded = slice_subrange(region, offset as usize, region.len());
    assert(encoded@ =~= region@.skip(offset as int));
    let house_numbers = decompress_house_numbers(encoded);
    if !contains_number(house_numbers.as_slice(), number) {
        return None;
    }
    if text_from_utf8(slice_to_vec(key)).is_none() {
        return None;
    }
    let mut fields = split_key(key);
    if fields.len() != 3 {
        return None;
    }
    proof {
        lemma_fields_valid_utf8(key@);
        assert(valid_utf8(split_fields(key@)[1]));
        assert(valid_utf8(split_fields(key@)[2]));
        assert(split_fields(key@)[1] == fields@[1]@);
        assert(split_fields(key@)[2] == fields@[2]@);
    }
    let city = fields.pop().unwrap();
    let street = fields.pop().unwrap();
    let woonplaats = match text_from_utf8(city) {
        Some(text) => text,
        None => {
            return None;
        },
    };
    let straat = match text_from_utf8(street) {
        Some(text) => text,
        None => {
            return None;
        },
    };
    Some(LookupResult { postcode: postcode.to_owned(), straat, huisnummer: number, woonplaats })
}

/// The answer of the first of `candidates` that gives one.
///
/// A candidate whose list holds the number but whose key is not made of
/// three fields is passed over, and the search goes on with the next.
pub fn first_match(
    candidates: &Vec<(Vec<u8>, u64)>,
    region: &[u8],
    postcode: &str,
    number: u32,
) -> (answer: Option<LookupResult>)
    requires
        offsets_within(entries_of(candidates@), region@.len()),
    ensures
        answer_view(answer) == first_answer(entries_of(candidates@), region@, postcode@, number),
{
    let ghost all = entries_of(candidates@);
    let mut i: usize = 0;
    assert(all.skip(0) =~= all);
    while i < candidates.len()
        invariant
            i <= candidates@.len(),
            all == entries_of(candidates@),
            offsets_within(all, region@.len()),
            first_answer(all.skip(i as int), region@, postcode@, number) == first_answer(
                all,
                region@,
                postcode@,
                number,
            ),
        decreases candidates@.len() - i,
    {
        let candidate = &candidates[i];
        assert(all[i as int] == (candidate.0@, candidate.1));
        assert(all.skip(i as int)[0] == all[i as int]);
        assert(all.skip(i as int).skip(1) =~= all.skip(i + 1));
        let answer = match_candidate(candidate.0.as_slice(), candidate.1, region, postcode, number);
        if answer.is_some() {
            return answer;
        }
        i = i + 1;
    }
    None
}

/// Looks up the address for a postal code and a house number.
///
/// The postal code is matched in upper case. `None` is the ordinary answer
/// where the dataset holds no such address.
pub fn lookup_address_fst(data: &PostcodeData, postcode: &str, house_number: u32) -> (answer:
    Option<LookupResult>)
    ensures
        answer_view(answer) == lookup_answer(
            data.entries(),
            data.region(),
            postcode@,
            house_number,
        ),
        is_ascii_chars(postcode@) ==> answer_view(answer) == answer_for(
            data.entries(),
            data.region(),
            ascii_upper(postcode@),
            house_number,
        ),
{
    let postcode_upper = to_upper(postcode);
    let prefix = postcode_upper.clone().concat("|");
    proof {
        reveal_strlit("|");
        assert("|"@ =~= seq!['|']);
    }
    let candidates = data.search_prefix(prefix.as_str());
    first_match(&candidates, data.house_data(), postcode_upper.as_str(), house_number)
}

/// Looks up the address for a postal code and a house number in a loaded
/// dataset.
pub fn lookup(data: &PostcodeData, postcode: String, huisnummer: u32) -> (answer: Option<
    LookupResult,
>)
    ensures
        answer_view(answer) == lookup_answer(data.entries(), data.region(), postcode@, huisnummer),
        is_ascii_chars(postcode@) ==> answer_view(answer) == answer_for(
            data.entries(),
            data.region(),
            ascii_upper(postcode@),
            huisnummer,
        ),
{
    lookup_address_fst(data, postcode.as_str(), huisnummer)
}

/// Looks up each query on its own and gives the answers in the order of the
/// queries.
pub fn lookup_batch(data: &PostcodeData, queries: Vec<(String, u32)>) -> (answers: Vec<
    Option<LookupResult>,
>)
    ensures
        answers@.len() == queries@.len(),
        forall|i: int|
            0 <= i < queries@.len() ==> answer_view(#[trigger] answers@[i]) == lookup_answer(
                data.entries(),
                data.region(),
                queries@[i].0@,
                queries@[i].1,
            ),
        forall|i: int|
            0 <= i < queries@.len() && is_ascii_chars(queries@[i].0@) ==> answer_view(
                #[trigger] answers@[i],
            ) == answer_for(
                data.entries(),
                data.region(),
                ascii_upper(queries@[i].0@),
                queries@[i].1,
            ),
{
    let mut answers: Vec<Option<LookupResult>> = Vec::with_capacity(queries.len());
    let mut i: usize = 0;
    while i < queries.len()
        invariant
            i <= queries@.len(),
            answers@.len() == i,
            forall|k: int|
                0 <= k < i ==> answer_view(#[trigger] answers@[k]) == lookup_answer(
                    data.entries(),
                    data.region(),
                    queries@[k].0@,
                    queries@[k].1,
                ),
            forall|k: int|
                0 <= k < i && is_ascii_chars(queries@[k].0@) ==> answer_view(
                    #[trigger] answers@[k],
                ) == answer_for(
                    data.entries(),
                    data.region(),
                    ascii_upper(queries@[k].0@),
                    queries@[k].1,
                ),
        decreases queries@.len() - i,
    {
        let query = &queries[i];
        answers.push(lookup_address_fst(data, query.0.as_str(), query.1));
        i = i + 1;
    }
    answers
}

/// Some candidate answers exactly where `first_answer` gives an address.
pub proof fn lemma_first_answer_some(
    candidates: Seq<(Seq<u8>, u64)>,
    region: Seq<u8>,
    postcode: Seq<char>,
    number: u32,
)
    ensures
        first_answer(candidates, region, postcode, number) is Some <==> exists|j: int|
            0 <= j < candidates.len() && answers(#[trigger] candidates[j], region, number),
    decreases candidates.len(),
{
    if candidates.len() == 0 {
    } else if answers(candidates[0], region, number) {
    } else {
        let rest = candidates.skip(1);
        lemma_first_answer_some(rest, region, postcode, number);
        if first_answer(candidates, region, postcode, number) is Some {
            let j = choose|j: int| 0 <= j < rest.len() && answers(#[trigger] rest[j], region, number);
            assert(answers(candidates[j + 1], region, number));
        }
        if exists|j: int|
            0 <= j < candidates.len() && answers(#[trigger] candidates[j], region, number) {
            let j = choose|j: int|
                0 <= j < candidates.len() && answers(#[trigger] candidates[j], region, number);
            assert(answers(rest[j - 1], region, number));
        }
    }
}

/// A lookup gives an address exactly where the dataset holds an entry whose
/// key starts with the postal code in upper case and a delimiter, is made of
/// three fields, and whose list holds the house number.
pub proof fn lemma_lookup_some_iff(
    entries: Seq<(Seq<u8>, u64)>,
    region: Seq<u8>,
    postcode: Seq<char>,
    number: u32,
)
    ensures
        lookup_answer(entries, region, postcode, number) is Some <==> exists|i: int|
            0 <= i < entries.len() && search_prefix_for(uppercase_of(postcode)).is_prefix_of(
                (#[trigger] entries[i]).0,
            ) && answers(entries[i], region, number),
{
    let prefix = search_prefix_for(uppercase_of(postcode));
    let keep = |entry: (Seq<u8>, u64)| prefix.is_prefix_of(entry.0);
    let found = prefix_matches(entries, prefix);
    lemma_first_answer_some(found, region, uppercase_of(postcode), number);
    if lookup_answer(entries, region, postcode, number) is Some {
        let j = choose|j: int| 0 <= j < found.len() && answers(#[trigger] found[j], region, number);
        entries.lemma_filter_pred(keep, j);
        assert(keep(found[j]));
        assert(found.contains(found[j]));
        entries.lemma_filter_contains_rev(keep, found[j]);
        let i = choose|i: int| 0 <= i < entries.len() && entries[i] == found[j];
        assert(prefix.is_prefix_of(entries[i].0) && answers(entries[i], region, number));
    }
    if exists|i: int|
        0 <= i < entries.len() && prefix.is_prefix_of((#[trigger] entries[i]).0) && answers(
            entries[i],
            region,
            number,
        ) {
        let i = choose|i: int|
            0 <= i < entries.len() && prefix.is_prefix_of((#[trigger] entries[i]).0) && answers(
                entries[i],
                region,
                number,
            );
        assert(keep(entries[i]));
        entries.lemma_filter_contains(keep, i);
        let j = choose|j: int| 0 <= j < found.len() && found[j] == entries[i];
        assert(answers(found[j], region, number));
    }
}

/// A lookup does not tell apart two spellings of a postal code that have the
/// same upper-case form.
pub proof fn lemma_lookup_ignores_case(
    entries: Seq<(Seq<u8>, u64)>,
    region: Seq<u8>,
    postcode: Seq<char>,
    other: Seq<char>,
    number: u32,
)
    requires
        uppercase_of(postcode) == uppercase_of(other),
    ensures
        lookup_answer(entries, region, postcode, number) == lookup_answer(
            entries,
            region,
            other,
            number,
        ),
{
}

} // verus!

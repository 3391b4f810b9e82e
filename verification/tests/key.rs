use postcode_index::key::split_key;
use postcode_index::lookup::{first_match, match_candidate};
use postcode_index::{compress_house_numbers, LookupResult};

fn address(postcode: &str, straat: &str, huisnummer: u32, woonplaats: &str) -> LookupResult {
    LookupResult {
        postcode: postcode.to_string(),
        straat: straat.to_string(),
        huisnummer,
        woonplaats: woonplaats.to_string(),
    }
}

#[test]
fn splits_a_composite_key() {
    assert_eq!(
        split_key(b"1234AB|Main St|Anytown"),
        vec![b"1234AB".to_vec(), b"Main St".to_vec(), b"Anytown".to_vec()]
    );
}

#[test]
fn splits_like_the_standard_library() {
    let keys = ["", "|", "a", "a|", "|a", "a||b", "||", "a|b|c|d", "1234AB|Straat|Stad"];
    for key in keys {
        let expected: Vec<Vec<u8>> = key.split('|').map(|part| part.as_bytes().to_vec()).collect();
        assert_eq!(split_key(key.as_bytes()), expected);
    }
}

#[test]
fn candidate_with_the_number_gives_the_address() {
    let region = compress_house_numbers(&[1, 3, 5, 100]).unwrap();
    let found = match_candidate(b"1234AB|Main St|Anytown", 0, &region, "1234AB", 5);
    assert_eq!(found, Some(address("1234AB", "Main St", 5, "Anytown")));
}

#[test]
fn candidate_without_the_number_gives_nothing() {
    let region = compress_house_numbers(&[1, 3, 5, 100]).unwrap();
    assert_eq!(match_candidate(b"1234AB|Main St|Anytown", 0, &region, "1234AB", 4), None);
}

#[test]
fn candidate_list_is_read_at_its_offset() {
    let mut region = compress_house_numbers(&[1, 2]).unwrap();
    let offset = region.len() as u64;
    region.extend(compress_house_numbers(&[40, 400]).unwrap());
    let key = b"1234AB|Main St|Anytown";
    assert_eq!(match_candidate(key, offset, &region, "1234AB", 1), None);
    assert_eq!(
        match_candidate(key, offset, &region, "1234AB", 400),
        Some(address("1234AB", "Main St", 400, "Anytown"))
    );
    // an offset at the very end of the region points at no list
    assert_eq!(match_candidate(key, region.len() as u64, &region, "1234AB", 1), None);
}

#[test]
fn candidate_keeps_empty_and_accented_fields() {
    let region = compress_house_numbers(&[12]).unwrap();
    assert_eq!(
        match_candidate("1234AB||".as_bytes(), 0, &region, "1234AB", 12),
        Some(address("1234AB", "", 12, ""))
    );
    assert_eq!(
        match_candidate("1234AB|Curaçaostraat|Súdwest-Fryslân".as_bytes(), 0, &region, "1234AB", 12),
        Some(address("1234AB", "Curaçaostraat", 12, "Súdwest-Fryslân"))
    );
}

#[test]
fn candidate_with_two_fields_is_malformed() {
    let region = compress_house_numbers(&[12]).unwrap();
    assert_eq!(match_candidate(b"1234AB|Main St", 0, &region, "1234AB", 12), None);
}

#[test]
fn candidate_with_four_fields_is_malformed() {
    let region = compress_house_numbers(&[12]).unwrap();
    assert_eq!(match_candidate(b"1234AB|Main|St|Anytown", 0, &region, "1234AB", 12), None);
}

#[test]
fn candidate_that_is_not_utf8_is_malformed() {
    let region = compress_house_numbers(&[12]).unwrap();
    assert_eq!(match_candidate(b"1234AB|Main\xFF|Anytown", 0, &region, "1234AB", 12), None);
    assert_eq!(match_candidate(b"1234AB|Main|Any\xC3", 0, &region, "1234AB", 12), None);
    assert_eq!(match_candidate(b"\x801234AB|Main|Anytown", 0, &region, "1234AB", 12), None);
}

#[test]
fn malformed_key_is_skipped_and_the_next_candidate_wins() {
    let region = compress_house_numbers(&[7, 9]).unwrap();
    let candidates = vec![
        (b"1234AB|Broken".to_vec(), 0),
        (b"1234AB|Main St|Anytown".to_vec(), 0),
        (b"1234AB|Other St|Anytown".to_vec(), 0),
    ];
    assert_eq!(
        first_match(&candidates, &region, "1234AB", 9),
        Some(address("1234AB", "Main St", 9, "Anytown"))
    );
}

#[test]
fn only_malformed_candidates_give_nothing() {
    let region = compress_house_numbers(&[7, 9]).unwrap();
    let candidates = vec![(b"1234AB|Broken".to_vec(), 0), (b"1234AB|a|b|c".to_vec(), 0)];
    assert_eq!(first_match(&candidates, &region, "1234AB", 9), None);
    assert_eq!(first_match(&Vec::new(), &region, "1234AB", 9), None);
}

#[test]
fn first_candidate_in_order_wins() {
    let mut region = compress_house_numbers(&[1, 2]).unwrap();
    let second = region.len() as u64;
    region.extend(compress_house_numbers(&[2, 3]).unwrap());
    let candidates = vec![
        (b"1234AB|Alpha|Anytown".to_vec(), 0),
        (b"1234AB|Beta|Anytown".to_vec(), second),
    ];
    assert_eq!(
        first_match(&candidates, &region, "1234AB", 2),
        Some(address("1234AB", "Alpha", 2, "Anytown"))
    );
    assert_eq!(
        first_match(&candidates, &region, "1234AB", 3),
        Some(address("1234AB", "Beta", 3, "Anytown"))
    );
    assert_eq!(first_match(&candidates, &region, "1234AB", 4), None);
}

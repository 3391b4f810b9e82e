use postcode_index::codec::contains_number;
use postcode_index::{compress_house_numbers, decompress_house_numbers};

#[test]
fn decodes_single_byte_deltas() {
    let bytes = [4, 0, 1, 0, 2, 2, 95];
    assert_eq!(decompress_house_numbers(&bytes), vec![1, 3, 5, 100]);
}

#[test]
fn decodes_escaped_delta() {
    // count 3, first 10, delta 1, escaped delta 0x0400 = 1024
    let bytes = [3, 0, 10, 0, 1, 0, 0x00, 0x04];
    assert_eq!(decompress_house_numbers(&bytes), vec![10, 11, 1035]);
}

#[test]
fn decodes_little_endian_fields() {
    // count 2, first 0x1234, escaped delta 0xABCD
    let bytes = [2, 0, 0x34, 0x12, 0, 0xCD, 0xAB];
    assert_eq!(decompress_house_numbers(&bytes), vec![0x1234, 0x1234 + 0xABCD]);
}

#[test]
fn decodes_nothing_from_short_input() {
    assert_eq!(decompress_house_numbers(&[]), Vec::<u32>::new());
    assert_eq!(decompress_house_numbers(&[5]), Vec::<u32>::new());
}

#[test]
fn decodes_nothing_from_count_zero() {
    assert_eq!(decompress_house_numbers(&[0, 0, 7, 0, 1, 1]), Vec::<u32>::new());
}

#[test]
fn decodes_nothing_when_first_is_cut() {
    assert_eq!(decompress_house_numbers(&[2, 0]), Vec::<u32>::new());
    assert_eq!(decompress_house_numbers(&[2, 0, 9]), Vec::<u32>::new());
}

#[test]
fn truncated_stream_gives_partial_list() {
    // count says 5, but only two deltas follow
    let bytes = [5, 0, 1, 0, 1, 1];
    assert_eq!(decompress_house_numbers(&bytes), vec![1, 2, 3]);
}

#[test]
fn truncated_escape_ends_the_list() {
    // the escape byte is followed by one byte only
    let bytes = [3, 0, 1, 0, 4, 0, 9];
    assert_eq!(decompress_house_numbers(&bytes), vec![1, 5]);
    let bytes = [3, 0, 1, 0, 4, 0];
    assert_eq!(decompress_house_numbers(&bytes), vec![1, 5]);
}

#[test]
fn stops_after_count_numbers() {
    // the bytes of the next list follow and are not read
    let bytes = [2, 0, 1, 0, 2, 3, 0, 50, 0, 1, 1];
    assert_eq!(decompress_house_numbers(&bytes), vec![1, 3]);
}

#[test]
fn zero_delta_is_accepted() {
    let bytes = [3, 0, 7, 0, 0, 0, 0, 1];
    assert_eq!(decompress_house_numbers(&bytes), vec![7, 7, 8]);
}

#[test]
fn largest_values_do_not_overflow() {
    // first 0xFFFF, then two escaped deltas of 0xFFFF
    let bytes = [3, 0, 0xFF, 0xFF, 0, 0xFF, 0xFF, 0, 0xFF, 0xFF];
    assert_eq!(decompress_house_numbers(&bytes), vec![65535, 131070, 196605]);
}

#[test]
fn decoded_list_is_ascending() {
    let bytes = [6, 0, 3, 0, 9, 0, 0, 2, 255, 0, 1, 0, 1];
    let nums = decompress_house_numbers(&bytes);
    assert_eq!(nums, vec![3, 12, 524, 779, 780, 781]);
    assert!(nums.windows(2).all(|pair| pair[0] <= pair[1]));
}

#[test]
fn encodes_exact_bytes() {
    assert_eq!(compress_house_numbers(&[1, 3, 5, 100]), Some(vec![4, 0, 1, 0, 2, 2, 95]));
    assert_eq!(compress_house_numbers(&[]), Some(vec![0, 0]));
    assert_eq!(compress_house_numbers(&[0x1234]), Some(vec![1, 0, 0x34, 0x12]));
}

#[test]
fn encodes_delta_boundaries() {
    // 255 still fits one byte, 256 takes the escape
    assert_eq!(compress_house_numbers(&[0, 255]), Some(vec![2, 0, 0, 0, 255]));
    assert_eq!(compress_house_numbers(&[0, 256]), Some(vec![2, 0, 0, 0, 0, 0, 1]));
    assert_eq!(compress_house_numbers(&[1, 65536]), Some(vec![2, 0, 1, 0, 0, 0xFF, 0xFF]));
}

#[test]
fn encoder_refuses_what_the_layout_cannot_hold() {
    assert_eq!(compress_house_numbers(&[5, 5]), None);
    assert_eq!(compress_house_numbers(&[5, 4]), None);
    assert_eq!(compress_house_numbers(&[65536]), None);
    assert_eq!(compress_house_numbers(&[1, 65537]), None);
    let too_many: Vec<u32> = (0..65536).collect();
    assert_eq!(compress_house_numbers(&too_many), None);
    let most: Vec<u32> = (0..65535).collect();
    assert!(compress_house_numbers(&most).is_some());
}

#[test]
fn round_trip_gives_the_list_back() {
    let lists: Vec<Vec<u32>> = vec![
        vec![],
        vec![0],
        vec![65535],
        vec![1, 3, 5, 100],
        vec![1, 2, 257, 258, 513, 60000, 65535],
        vec![0, 65535, 131070, 131071],
        (0..65535).collect(),
        (0..2000).map(|i| i * 31 + 7).collect(),
    ];
    for list in lists {
        let bytes = compress_house_numbers(&list).unwrap();
        assert_eq!(decompress_house_numbers(&bytes), list);
    }
}

#[test]
fn round_trip_ignores_following_bytes() {
    let mut bytes = compress_house_numbers(&[2, 4, 400]).unwrap();
    bytes.extend_from_slice(&[9, 9, 9, 0, 1, 2]);
    assert_eq!(decompress_house_numbers(&bytes), vec![2, 4, 400]);
}

#[test]
fn binary_search_finds_exactly_the_members() {
    let list = [1, 3, 5, 100];
    for number in 0..120 {
        assert_eq!(contains_number(&list, number), list.contains(&number));
    }
    assert!(!contains_number(&[], 1));
    assert!(contains_number(&[7], 7));
    assert!(contains_number(&[7, 7, 8], 7));
    assert!(!contains_number(&[7, 7, 8], 9));
}

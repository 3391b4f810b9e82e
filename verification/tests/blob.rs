use postcode_index::blob::split_blob;

fn frame(index: &[u8], region: &[u8]) -> Vec<u8> {
    let mut blob = Vec::new();
    blob.extend_from_slice(&(index.len() as u64).to_le_bytes());
    blob.extend_from_slice(&(region.len() as u64).to_le_bytes());
    blob.extend_from_slice(index);
    blob.extend_from_slice(region);
    blob
}

#[test]
fn splits_at_the_declared_lengths() {
    let blob = frame(&[1, 2, 3], &[4, 5]);
    assert_eq!(split_blob(&blob), Some((vec![1, 2, 3], vec![4, 5])));
}

#[test]
fn splits_empty_segments() {
    assert_eq!(split_blob(&[0; 16]), Some((vec![], vec![])));
    let blob = frame(&[], &[8]);
    assert_eq!(split_blob(&blob), Some((vec![], vec![8])));
}

#[test]
fn leaves_trailing_bytes_aside() {
    let mut blob = frame(&[1], &[2, 3]);
    blob.extend_from_slice(&[7, 7, 7]);
    assert_eq!(split_blob(&blob), Some((vec![1], vec![2, 3])));
}

#[test]
fn reads_lengths_little_endian() {
    let index = vec![0xAA; 258];
    let mut blob = vec![2, 1, 0, 0, 0, 0, 0, 0, 1, 0, 0, 0, 0, 0, 0, 0];
    blob.extend_from_slice(&index);
    blob.push(0x55);
    assert_eq!(split_blob(&blob), Some((index, vec![0x55])));
}

#[test]
fn refuses_a_short_header() {
    assert_eq!(split_blob(&[]), None);
    assert_eq!(split_blob(&[0; 15]), None);
}

#[test]
fn refuses_segments_that_are_cut() {
    let blob = frame(&[1, 2, 3], &[4, 5]);
    assert_eq!(split_blob(&blob[..blob.len() - 1]), None);
    assert_eq!(split_blob(&blob[..17]), None);
}

#[test]
fn refuses_lengths_beyond_the_machine() {
    let mut blob = vec![0xFF; 16];
    blob.extend_from_slice(&[1, 2, 3]);
    assert_eq!(split_blob(&blob), None);
    let mut blob = Vec::new();
    blob.extend_from_slice(&1u64.to_le_bytes());
    blob.extend_from_slice(&u64::MAX.to_le_bytes());
    blob.extend_from_slice(&[1, 2, 3]);
    assert_eq!(split_blob(&blob), None);
}

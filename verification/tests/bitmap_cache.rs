use bit_set::BitSet;
use multihop_filter::bitmap::SerializableBitSet;
use multihop_filter::bitmap_cache::{bitmaps_fit, decode_bitmaps, encode_bitmaps, CacheError};

fn set_of(members: &[usize]) -> BitSet {
    let mut set = BitSet::new();
    for member in members {
        set.insert(*member);
    }
    set
}

fn members(set: &BitSet) -> Vec<usize> {
    set.iter().collect()
}

#[test]
fn bits_go_from_the_highest_down() {
    let bytes = SerializableBitSet::from_bit_set(&BitSet::from_bytes(&[0b0101_0000, 1]));
    assert_eq!(bytes.0, vec![0b0101_0000, 1]);
    assert_eq!(members(&bytes.into_bit_set()), vec![1, 3, 15]);
}

#[test]
fn bytes_and_sets_have_the_same_members() {
    for given in [&[][..], &[0], &[7], &[8], &[1, 3, 9, 31, 32, 33, 63, 64, 1000]] {
        let bytes = SerializableBitSet::from_bit_set(&set_of(given));
        assert_eq!(members(&bytes.into_bit_set()), given);
    }
}

#[test]
fn cache_bytes_are_lengths_and_bits() {
    let bitmaps = vec![BitSet::from_bytes(&[0b0101_0000]), BitSet::from_bytes(&[])];
    let bytes = encode_bitmaps(&bitmaps);
    let expected: Vec<u8> = vec![
        2, 0, 0, 0, 0, 0, 0, 0, //
        1, 0, 0, 0, 0, 0, 0, 0, 0b0101_0000, //
        0, 0, 0, 0, 0, 0, 0, 0,
    ];
    assert_eq!(bytes, expected);
}

#[test]
fn no_bitmaps_are_a_zero() {
    let bytes = encode_bitmaps(&Vec::new());
    assert_eq!(bytes, vec![0; 8]);
    assert!(decode_bitmaps(&bytes).unwrap().is_empty());
}

#[test]
fn long_bitmaps_have_longer_lengths() {
    let bytes = encode_bitmaps(&vec![BitSet::from_bytes(&[0xff; 300])]);
    assert_eq!(bytes[8..16], [44, 1, 0, 0, 0, 0, 0, 0]);
    assert_eq!(bytes.len(), 316);
}

#[test]
fn loading_gives_back_what_was_stored() {
    let stored = vec![set_of(&[1, 3]), set_of(&[]), set_of(&[1000, 17, 64])];
    let loaded = decode_bitmaps(&encode_bitmaps(&stored)).unwrap();
    assert_eq!(loaded.len(), 3);
    for (a, b) in stored.iter().zip(&loaded) {
        assert_eq!(members(a), members(b));
    }
}

#[test]
fn bytes_behind_the_cache_are_ignored() {
    let mut bytes = encode_bitmaps(&vec![set_of(&[5])]);
    bytes.extend([9, 9, 9]);
    let loaded = decode_bitmaps(&bytes).unwrap();
    assert_eq!(loaded.len(), 1);
    assert_eq!(members(&loaded[0]), vec![5]);
}

#[test]
fn cut_caches_are_malformed() {
    let bytes = encode_bitmaps(&vec![set_of(&[5]), set_of(&[80])]);
    for end in 0..bytes.len() {
        assert_eq!(decode_bitmaps(&bytes[..end].to_vec()).err(), Some(CacheError::Malformed));
    }
}

#[test]
fn a_length_beyond_the_bytes_is_malformed() {
    let bytes = vec![1, 0, 0, 0, 0, 0, 0, 0, 0xff, 0xff, 0xff, 0xff, 0xff, 0xff, 0xff, 0x7f, 1, 2];
    assert_eq!(decode_bitmaps(&bytes).err(), Some(CacheError::Malformed));
}

#[test]
fn ordinary_files_fit() {
    assert!(bitmaps_fit(&encode_bitmaps(&vec![set_of(&[5]), set_of(&[80])])));
    assert!(bitmaps_fit(&vec![1, 2, 3]));
}

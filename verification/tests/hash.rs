use lambdaworks_stark::hash::element_to_bytes;
use lambdaworks_stark::hash::field_from_digest;
use lambdaworks_stark::hash::Sha3Hasher;

#[test]
fn i2osp_is_big_endian() {
    assert_eq!(Sha3Hasher::i2osp(0, 1), vec![0]);
    assert_eq!(Sha3Hasher::i2osp(255, 1), vec![255]);
    assert_eq!(Sha3Hasher::i2osp(256, 2), vec![1, 0]);
    assert_eq!(Sha3Hasher::i2osp(0x0102_0304, 4), vec![1, 2, 3, 4]);
    assert_eq!(Sha3Hasher::i2osp(1, 3), vec![0, 0, 1]);
    assert_eq!(Sha3Hasher::i2osp(0, 0), Vec::<u8>::new());
    assert_eq!(Sha3Hasher::i2osp(0, 64), vec![0u8; 64]);
    assert_eq!(
        Sha3Hasher::i2osp(u64::MAX, 9),
        vec![0, 255, 255, 255, 255, 255, 255, 255, 255]
    );
}

#[test]
fn strxor_is_as_long_as_the_shorter_argument() {
    assert_eq!(Sha3Hasher::strxor(&[1, 2, 3], &[1, 2, 3]), vec![0, 0, 0]);
    assert_eq!(Sha3Hasher::strxor(&[0xf0, 0x0f], &[0xff, 0xff, 0x01]), vec![0x0f, 0xf0]);
    assert_eq!(Sha3Hasher::strxor(&[], &[1, 2]), Vec::<u8>::new());
}

#[test]
fn expand_message_to_less_than_one_block() {
    let out = Sha3Hasher::expand_message(b"abc", b"QUUX-V01-CS02", 16).unwrap();
    assert_eq!(
        out,
        vec![184, 85, 100, 240, 146, 207, 125, 133, 140, 126, 168, 229, 187, 31, 36, 24]
    );
}

#[test]
fn expand_message_over_three_blocks() {
    let out = Sha3Hasher::expand_message(b"hello", b"dst", 70).unwrap();
    assert_eq!(
        out,
        vec![
            79, 166, 152, 103, 194, 135, 26, 10, 80, 247, 79, 105, 224, 215, 43, 143, 12, 226,
            162, 187, 165, 52, 159, 64, 116, 54, 118, 209, 22, 57, 186, 243, 37, 180, 153, 209,
            94, 105, 138, 98, 51, 50, 30, 40, 4, 175, 32, 218, 163, 226, 153, 208, 50, 57, 111,
            165, 181, 5, 240, 87, 44, 227, 76, 165, 92, 240, 41, 164, 86, 93
        ]
    );
}

#[test]
fn expand_message_to_nothing() {
    assert_eq!(Sha3Hasher::expand_message(b"abc", b"dst", 0).unwrap(), Vec::<u8>::new());
}

#[test]
fn expand_message_of_255_blocks_is_accepted() {
    let out = Sha3Hasher::expand_message(b"abc", b"dst", 255 * 32).unwrap();
    assert_eq!(out.len(), 255 * 32);
}

#[test]
fn expand_message_of_256_blocks_aborts() {
    assert_eq!(
        Sha3Hasher::expand_message(b"abc", b"dst", 255 * 32 + 1),
        Err("Abort".to_string())
    );
    assert_eq!(
        Sha3Hasher::expand_message(b"abc", b"dst", u32::MAX as u64),
        Err("Abort".to_string())
    );
}

#[test]
fn hash_one_of_known_elements() {
    let hasher = Sha3Hasher::new();
    assert_eq!(hasher.hash_one(&1), 885473018);
    assert_eq!(hasher.hash_one(&5), 589403029);
    assert_eq!(hasher.hash_one(&(2013265921 + 5)), 589403029);
}

#[test]
fn hash_two_depends_on_the_order() {
    let hasher = Sha3Hasher::new();
    assert_eq!(hasher.hash_two(&1, &2), 825385969);
    assert_eq!(hasher.hash_two(&2, &1), 1627985161);
}

#[test]
fn element_bytes_are_four_big_endian_octets() {
    assert_eq!(element_to_bytes(1), vec![0, 0, 0, 1]);
    assert_eq!(element_to_bytes(0x0102_0304), vec![1, 2, 3, 4]);
    assert_eq!(element_to_bytes(2013265921), vec![0, 0, 0, 0]);
}

#[test]
fn digest_is_read_little_endian_and_reduced() {
    assert_eq!(field_from_digest(&[]), 0);
    assert_eq!(field_from_digest(&[7]), 7);
    assert_eq!(field_from_digest(&[0, 1]), 256);
    assert_eq!(field_from_digest(&[1, 0, 0, 120]), 0);
    assert_eq!(field_from_digest(&[2, 0, 0, 120]), 1);
    assert_eq!(field_from_digest(&[0xff; 4]), (u32::MAX % 2013265921) as u32);
}

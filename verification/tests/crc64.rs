use binius64::crc64::crc64_iso_reference;

#[test]
fn crc_of_zero_words() {
    assert_eq!(crc64_iso_reference(&[0, 0, 0, 0]), 0x96f96fffffffffff);
}

#[test]
fn crc_of_small_words() {
    assert_eq!(crc64_iso_reference(&[1, 2, 3, 4]), 0x7451dffffffffff8);
}

#[test]
fn crc_of_all_ones() {
    let m = u64::MAX;
    assert_eq!(crc64_iso_reference(&[m, m, m, m]), 0x9ff0ffffffffffff);
}

#[test]
fn crc_of_a_text_message_matches_the_bytewise_crc() {
    // The 32 bytes "The quick brown fox jumps over t", packed little-endian into four words.
    let words = [0x6369757120656854, 0x206e776f7262206b, 0x706d756a20786f66, 0x74207265766f2073];
    assert_eq!(crc64_iso_reference(&words), 0xe6ae4d69dbe673fc);
}

#[test]
fn crc_is_xor_affine() {
    let a = [0x0123_4567_89ab_cdefu64, 7, u64::MAX, 1 << 40];
    let b = [0xdead_beef, 0, 0x5555_5555_5555_5555, 3];
    let c = [1, 2, 3, 4];
    let x = [a[0] ^ b[0] ^ c[0], a[1] ^ b[1] ^ c[1], a[2] ^ b[2] ^ c[2], a[3] ^ b[3] ^ c[3]];
    assert_eq!(
        crc64_iso_reference(&x),
        crc64_iso_reference(&a) ^ crc64_iso_reference(&b) ^ crc64_iso_reference(&c)
    );
}

#[test]
fn every_single_bit_flip_changes_the_crc() {
    let w1 = [0x0123_4567_89ab_cdefu64, 42, 0, u64::MAX];
    let base = crc64_iso_reference(&w1);
    for k in 0..4 {
        for b in 0..64 {
            let mut w2 = w1;
            w2[k] ^= 1u64 << b;
            assert_ne!(crc64_iso_reference(&w2), base, "word {k} bit {b}");
        }
    }
}

use plank_sir::word::Word;

#[test]
fn words_hold_big_endian_bytes() {
    let mut bytes = [0u8; 32];
    bytes[0] = 0x01;
    bytes[30] = 0x12;
    bytes[31] = 0x34;
    let word = Word::from_be_bytes(bytes);
    assert_eq!(word.limb3, 0x0100_0000_0000_0000);
    assert_eq!(word.limb2, 0);
    assert_eq!(word.limb1, 0);
    assert_eq!(word.limb0, 0x1234);
    assert_eq!(word.to_be_bytes(), bytes);
}

#[test]
fn small_words() {
    assert_eq!(Word::from_u32(0), Word::zero());
    let word = Word::from_u32(0xdead_beef);
    let bytes = word.to_be_bytes();
    assert_eq!(&bytes[28..], &[0xde, 0xad, 0xbe, 0xef]);
    assert!(bytes[..28].iter().all(|b| *b == 0));
    assert_eq!(Word::from_be_bytes(bytes), word);
}

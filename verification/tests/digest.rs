use identicon::nibbler::Nibbler;
use identicon::utils::{fingerprint, md5};

#[test]
fn md5_of_empty_input() {
    assert_eq!(
        md5(b""),
        [0xd4, 0x1d, 0x8c, 0xd9, 0x8f, 0x00, 0xb2, 0x04, 0xe9, 0x80, 0x09, 0x98, 0xec, 0xf8, 0x42, 0x7e]
    );
}

#[test]
fn md5_of_short_text() {
    assert_eq!(
        md5(b"abc"),
        [0x90, 0x01, 0x50, 0x98, 0x3c, 0xd2, 0x4f, 0xb0, 0xd6, 0x96, 0x3f, 0x7d, 0x28, 0xe1, 0x7f, 0x72]
    );
}

#[test]
fn md5_is_not_the_input() {
    let input = [7u8; 16];
    assert_ne!(md5(&input), input);
}

#[test]
fn md5_is_repeatable() {
    assert_eq!(md5(b"alice"), md5(b"alice"));
    assert_ne!(md5(b"alice"), md5(b"bob"));
}

#[test]
fn fingerprint_of_empty_input() {
    assert_eq!(fingerprint(b""), "d41d8cd98f00b204e9800998ecf8427e");
}

#[test]
fn fingerprint_of_text() {
    assert_eq!(fingerprint(b"hello world"), "5eb63bbbe01eeed093cb22bb8f5acdc3");
}

#[test]
fn fingerprint_is_thirty_two_lower_case_digits() {
    let tag = fingerprint(&[0xAB, 0xCD, 0xEF]);
    assert_eq!(tag.len(), 32);
    assert!(tag.chars().all(|c| c.is_ascii_digit() || ('a'..='f').contains(&c)));
}

#[test]
fn fingerprint_changes_with_one_byte() {
    assert_ne!(fingerprint(&[1, 2, 3]), fingerprint(&[1, 2, 4]));
}

#[test]
fn nibbles_come_high_half_first() {
    let bytes = [0x12u8, 0xAB, 0xF0];
    let mut cursor = Nibbler::new(&bytes);
    assert_eq!(cursor.next(), Some(0x1));
    assert_eq!(cursor.next(), Some(0x2));
    assert_eq!(cursor.next(), Some(0xA));
    assert_eq!(cursor.next(), Some(0xB));
    assert_eq!(cursor.next(), Some(0xF));
    assert_eq!(cursor.next(), Some(0x0));
    assert_eq!(cursor.next(), None);
    assert_eq!(cursor.next(), None);
}

#[test]
fn nibbles_of_nothing() {
    let mut cursor = Nibbler::new(&[]);
    assert_eq!(cursor.next(), None);
}

#[test]
fn a_digest_has_thirty_two_nibbles() {
    let digest = md5(b"alice");
    let mut cursor = Nibbler::new(&digest);
    let mut count = 0;
    while cursor.next().is_some() {
        count += 1;
    }
    assert_eq!(count, 32);
}

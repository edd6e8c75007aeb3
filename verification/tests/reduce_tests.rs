use hashassin_core::rainbow::{reduce, RainbowError};

fn unicode_message(res: Result<Vec<u8>, RainbowError>) -> String {
    match res {
        Err(RainbowError::UnicodeError(text)) => text,
        other => panic!("expected a Unicode error, got {:?}", other),
    }
}

#[test]
fn reduce_takes_four_bytes_per_character() {
    assert_eq!(reduce(&[1, 2, 3, 4], 2, 95, 32).unwrap(), b"**".to_vec());
    assert_eq!(reduce(&[0, 0, 0, 0], 1, 95, 32).unwrap(), b" ".to_vec());
    assert_eq!(reduce(&[0, 0, 1, 0], 1, 95, 32).unwrap(), vec![32 + (256 % 95) as u8]);
}

#[test]
fn reduce_wraps_around_a_short_digest() {
    assert_eq!(reduce(&[1, 2, 3, 4, 5], 3, 95, 32).unwrap(), b"*]'".to_vec());
}

#[test]
fn reduce_of_an_empty_digest_reads_zero_bytes() {
    assert_eq!(reduce(&[], 2, 95, 32).unwrap(), b"  ".to_vec());
}

#[test]
fn reduce_of_an_md5_digest() {
    let digest = hex::decode("e2fc714c4727ee9395f324cd2e7f331f").unwrap();
    assert_eq!(reduce(&digest, 4, 95, 32).unwrap(), b"\"W-\\".to_vec());
}

#[test]
fn reduce_to_no_characters_is_empty() {
    assert_eq!(reduce(&[9, 9], 0, 95, 32).unwrap(), Vec::<u8>::new());
    assert_eq!(reduce(&[9, 9], 0, 0, 4000).unwrap(), Vec::<u8>::new());
}

#[test]
fn reduce_accepts_a_wide_charset_while_the_code_point_is_ascii() {
    assert_eq!(reduce(&[0, 0, 0, 72], 1, 200, 32).unwrap(), b"h".to_vec());
    assert_eq!(reduce(&[0, 0, 0, 0], 1, 50, 101).unwrap(), b"e".to_vec());
    assert_eq!(reduce(&[0, 0, 0, 26], 1, 50, 101).unwrap(), vec![127]);
}

#[test]
fn reduce_gives_ascii_of_the_asked_length_for_valid_parameters() {
    let digests: [&[u8]; 4] = [&[], &[0], &[255, 254, 253], &[7; 64]];
    for digest in digests {
        for length in [0usize, 1, 5, 40] {
            let password = reduce(digest, length, 95, 32).unwrap();
            assert_eq!(password.len(), length);
            assert!(password.iter().all(|b| (32..=126).contains(b)));
        }
    }
}

#[test]
fn reduce_fails_on_a_character_beyond_ascii() {
    let text = unicode_message(reduce(&[0], 1, 1, 300));
    assert_eq!(text, "Non-ASCII character generated: \u{12c}");
    let text = unicode_message(reduce(&[0, 0, 3, 231], 3, 1000, 32));
    assert_eq!(text, "Non-ASCII character generated: \u{407}");
    let text = unicode_message(reduce(&[0, 0, 0, 27], 1, 50, 101));
    assert_eq!(text, "Non-ASCII character generated: \u{80}");
}

#[test]
fn reduce_fails_on_a_code_point_that_is_no_character() {
    let text = unicode_message(reduce(&[0], 1, 1, 0xD800));
    assert_eq!(text, "Invalid Unicode code point: 55296");
    let text = unicode_message(reduce(&[0], 1, 1, 0x110000));
    assert_eq!(text, "Invalid Unicode code point: 1114112");
    let text = unicode_message(reduce(&[0], 2, 1, 0x1_0000_0041));
    assert_eq!(text, "Invalid Unicode code point: 4294967361");
}

#[test]
fn reduce_fails_on_a_code_point_beyond_128_bits() {
    let text = unicode_message(reduce(&[1], 1, 2, u128::MAX));
    assert_eq!(text, "Invalid Unicode code point: 340282366920938463463374607431768211456");
}

#[test]
fn reduce_fails_on_an_empty_charset() {
    let text = unicode_message(reduce(&[1, 2, 3], 1, 0, 32));
    assert_eq!(text, "Invalid charset size: 0");
}

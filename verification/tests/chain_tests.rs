use hashassin_core::hashing::Algorithm;
use hashassin_core::rainbow::{
    build_chain, build_chains, compute_hash_rainbow, Chain, ChainRule, RainbowError,
};

fn md5_rule() -> ChainRule {
    ChainRule {
        algorithm: Algorithm::Md5,
        password_length: 4,
        charset_size: 95,
        unicode_offset: 32,
    }
}

#[test]
fn chain_without_links_ends_where_it_starts() {
    for start in [&b""[..], b"abcd", b"a longer start", &[0xff, 0x00]] {
        let chain = build_chain(start, &md5_rule(), 0).unwrap();
        assert_eq!(chain, Chain { start: start.to_vec(), end: start.to_vec() });
    }
}

#[test]
fn chain_follows_digest_and_reduction() {
    let ends: [&[u8]; 4] = [b"abcd", b"\"W-\\", b"W'WN", b"Xjn:"];
    for (links, end) in ends.iter().enumerate() {
        let chain = build_chain(b"abcd", &md5_rule(), links as u128).unwrap();
        assert_eq!(chain.start, b"abcd".to_vec());
        assert_eq!(chain.end, end.to_vec());
    }
}

#[test]
fn chain_under_the_other_algorithms() {
    let mut rule = md5_rule();
    rule.algorithm = Algorithm::Sha256;
    assert_eq!(build_chain(b"pass", &rule, 5).unwrap().end, b" J9v".to_vec());
    rule.algorithm = Algorithm::Sha3_512;
    assert_eq!(build_chain(b"pass", &rule, 2).unwrap().end, b")@&V".to_vec());
}

#[test]
fn chain_under_scrypt_still_has_the_asked_shape() {
    let mut rule = md5_rule();
    rule.algorithm = Algorithm::Scrypt;
    let chain = build_chain(b"pass", &rule, 1).unwrap();
    assert_eq!(chain.start, b"pass".to_vec());
    assert_eq!(chain.end.len(), 4);
    assert!(chain.end.iter().all(|b| (32..=126).contains(b)));
}

#[test]
fn chain_fails_where_the_reduction_fails() {
    let mut rule = md5_rule();
    rule.unicode_offset = 128;
    assert!(matches!(build_chain(b"abcd", &rule, 2), Err(RainbowError::UnicodeError(_))));
    assert!(build_chain(b"abcd", &rule, 0).is_ok());
}

#[test]
fn chains_keep_the_order_of_the_passwords() {
    let passwords = vec!["abcd".to_string(), "efgh".to_string()];
    let chains = build_chains(&passwords, &md5_rule(), 3).unwrap();
    assert_eq!(
        chains,
        vec![
            Chain { start: b"abcd".to_vec(), end: b"Xjn:".to_vec() },
            Chain { start: b"efgh".to_vec(), end: b">eW ".to_vec() },
        ]
    );
}

#[test]
fn chains_of_no_passwords_are_none() {
    assert_eq!(build_chains(&Vec::new(), &md5_rule(), 3).unwrap(), Vec::<Chain>::new());
}

#[test]
fn digest_for_chains_is_the_digest_of_the_bytes() {
    let digest = compute_hash_rainbow(b"abcd", Algorithm::Md5).unwrap();
    assert_eq!(hex::encode(digest), "e2fc714c4727ee9395f324cd2e7f331f");
}

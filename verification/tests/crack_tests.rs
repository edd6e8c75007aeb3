use hashassin_core::hashing::{compute_hash, Algorithm};
use hashassin_core::rainbow::{
    crack, gather_results, generate_rainbow_table, parse_hash_file, parse_rainbow,
    regenerate_chain, result_line, Chain, ChainRule, CrackResult, Cracker, HashBatch,
    RainbowError, RainbowTable,
};

fn md5_rule() -> ChainRule {
    ChainRule {
        algorithm: Algorithm::Md5,
        password_length: 4,
        charset_size: 95,
        unicode_offset: 32,
    }
}

fn table_of(list: &[&str], algorithm: Algorithm, links: usize) -> RainbowTable {
    let passwords: Vec<String> = list.iter().map(|p| p.to_string()).collect();
    parse_rainbow(&generate_rainbow_table(&passwords, algorithm, links, 95, 32).unwrap()).unwrap()
}

fn digest(password: &str, algorithm: Algorithm) -> Vec<u8> {
    compute_hash(password, algorithm).unwrap()
}

#[test]
fn scenario_two_passwords_three_links() {
    let table = table_of(&["abcd", "efgh"], Algorithm::Md5, 3);
    assert_eq!(table.chains.len(), 2);
    for chain in &table.chains {
        assert_eq!(chain.start.len(), 4);
        assert_eq!(chain.end.len(), 4);
    }
    let target = hex::decode("e2fc714c4727ee9395f324cd2e7f331f").unwrap();
    let batch = HashBatch { algorithm: Algorithm::Md5, digests: vec![target.clone()] };
    let results = crack(&table, &batch).unwrap();
    assert_eq!(results, vec![CrackResult { digest: target, plaintext: "abcd".to_string() }]);
}

#[test]
fn crack_finds_every_password_of_the_table() {
    let list = ["abcd", "efgh", "ijkl", "mnop", "qrst", "0000", "~~~~"];
    for algorithm in [Algorithm::Md5, Algorithm::Sha256, Algorithm::Sha3_512] {
        for links in [1usize, 2, 7] {
            let table = table_of(&list, algorithm, links);
            let cracker = Cracker::new(&table);
            for password in list {
                let target = digest(password, algorithm);
                let result = cracker.crack_one(&target).unwrap();
                assert_eq!(result.digest, target);
                assert_eq!(result.plaintext, password);
            }
        }
    }
}

#[test]
fn crack_finds_the_passwords_inside_a_chain() {
    let table = table_of(&["abcd"], Algorithm::Md5, 3);
    let cracker = Cracker::new(&table);
    for inner in ["\"W-\\", "W'WN"] {
        let target = digest(inner, Algorithm::Md5);
        assert_eq!(cracker.crack_one(&target).unwrap().plaintext, inner);
    }
    assert!(cracker.crack_one(&digest("Xjn:", Algorithm::Md5)).is_none());
}

#[test]
fn crack_without_links_finds_nothing() {
    let table = table_of(&["abcd"], Algorithm::Md5, 0);
    assert!(Cracker::new(&table).crack_one(&digest("abcd", Algorithm::Md5)).is_none());
}

#[test]
fn crack_rejects_a_target_that_only_lands_on_a_chain_end() {
    let target = digest("zzzz", Algorithm::Md5);
    let landing = hashassin_core::rainbow::reduce(&target, 4, 95, 32).unwrap();
    let table = RainbowTable {
        rule: md5_rule(),
        num_links: 3,
        chains: vec![Chain { start: b"abcd".to_vec(), end: landing }],
    };
    assert!(Cracker::new(&table).crack_one(&target).is_none());
    let batch = HashBatch { algorithm: Algorithm::Md5, digests: vec![target] };
    assert!(matches!(crack(&table, &batch), Err(RainbowError::NoPasswordsFound)));
}

#[test]
fn crack_follows_the_later_chain_where_two_end_alike() {
    let end = b"Xjn:".to_vec();
    let first = Chain { start: b"abcd".to_vec(), end: end.clone() };
    let other = Chain { start: b"wxyz".to_vec(), end };
    let target = digest("abcd", Algorithm::Md5);
    let table = RainbowTable { rule: md5_rule(), num_links: 3, chains: vec![first.clone(), other.clone()] };
    assert!(Cracker::new(&table).crack_one(&target).is_none());
    let table = RainbowTable { rule: md5_rule(), num_links: 3, chains: vec![other, first] };
    assert_eq!(Cracker::new(&table).crack_one(&target).unwrap().plaintext, "abcd");
}

#[test]
fn crack_fails_on_differing_algorithms() {
    let table = table_of(&["abcd", "efgh"], Algorithm::Md5, 3);
    let batch = HashBatch {
        algorithm: Algorithm::Sha256,
        digests: vec![digest("abcd", Algorithm::Sha256), digest("abcd", Algorithm::Md5)],
    };
    assert!(matches!(crack(&table, &batch), Err(RainbowError::AlgorithmMismatch)));
    let empty = HashBatch { algorithm: Algorithm::Sha256, digests: vec![] };
    assert!(matches!(crack(&table, &empty), Err(RainbowError::AlgorithmMismatch)));
}

#[test]
fn crack_keeps_the_matched_targets_in_their_order() {
    let table = table_of(&["abcd", "efgh"], Algorithm::Md5, 3);
    let batch = HashBatch {
        algorithm: Algorithm::Md5,
        digests: vec![
            digest("nope", Algorithm::Md5),
            digest("efgh", Algorithm::Md5),
            vec![0; 16],
            digest("abcd", Algorithm::Md5),
            digest("efgh", Algorithm::Md5),
        ],
    };
    let results = crack(&table, &batch).unwrap();
    let plaintexts: Vec<&str> = results.iter().map(|r| r.plaintext.as_str()).collect();
    assert_eq!(plaintexts, vec!["efgh", "abcd", "efgh"]);
    assert_eq!(results[0].digest, batch.digests[1]);
    assert_eq!(results[1].digest, batch.digests[3]);
}

#[test]
fn crack_fails_where_no_target_is_matched() {
    let table = table_of(&["abcd", "efgh"], Algorithm::Md5, 3);
    let batch = HashBatch {
        algorithm: Algorithm::Md5,
        digests: vec![digest("nope", Algorithm::Md5), vec![1, 2, 3]],
    };
    assert!(matches!(crack(&table, &batch), Err(RainbowError::NoPasswordsFound)));
    let empty = HashBatch { algorithm: Algorithm::Md5, digests: vec![] };
    assert!(matches!(crack(&table, &empty), Err(RainbowError::NoPasswordsFound)));
}

#[test]
fn crack_takes_a_failing_reduction_for_a_miss() {
    let table = RainbowTable {
        rule: ChainRule { unicode_offset: 128, ..md5_rule() },
        num_links: 3,
        chains: vec![Chain { start: b"abcd".to_vec(), end: b"abcd".to_vec() }],
    };
    assert!(Cracker::new(&table).crack_one(&digest("abcd", Algorithm::Md5)).is_none());
    let table = RainbowTable {
        rule: ChainRule { charset_size: 0, ..md5_rule() },
        num_links: 3,
        chains: vec![],
    };
    assert!(Cracker::new(&table).crack_one(&digest("abcd", Algorithm::Md5)).is_none());
}

#[test]
fn crack_under_scrypt_finds_nothing() {
    let table = table_of(&["abcd"], Algorithm::Scrypt, 1);
    let batch = HashBatch {
        algorithm: Algorithm::Scrypt,
        digests: vec![digest("abcd", Algorithm::Scrypt)],
    };
    assert!(matches!(crack(&table, &batch), Err(RainbowError::NoPasswordsFound)));
}

#[test]
fn regenerate_finds_the_password_with_the_target_digest() {
    let rule = md5_rule();
    let target = digest("W'WN", Algorithm::Md5);
    let found = regenerate_chain(b"abcd", &target, 3, &rule).unwrap();
    assert_eq!(found, Some((target.clone(), "W'WN".to_string())));
    assert_eq!(regenerate_chain(b"abcd", &target, 2, &rule).unwrap(), None);
    assert_eq!(regenerate_chain(b"abcd", &target, 0, &rule).unwrap(), None);
    let own = digest("abcd", Algorithm::Md5);
    assert_eq!(
        regenerate_chain(b"abcd", &own, 1, &rule).unwrap(),
        Some((own, "abcd".to_string()))
    );
}

#[test]
fn regenerate_refuses_a_start_that_is_no_text() {
    let res = regenerate_chain(&[b'a', 0xff, b'c', b'd'], &[0; 16], 3, &md5_rule());
    match res {
        Err(RainbowError::UnicodeError(text)) => {
            assert_eq!(text, "invalid utf-8 sequence of 1 bytes from index 1")
        }
        other => panic!("expected a Unicode error, got {:?}", other),
    }
}

#[test]
fn regenerate_fails_where_the_reduction_fails() {
    let rule = ChainRule { unicode_offset: 128, ..md5_rule() };
    let res = regenerate_chain(b"abcd", &[0; 16], 3, &rule);
    assert!(matches!(res, Err(RainbowError::UnicodeError(_))));
}

#[test]
fn regenerate_keeps_a_start_of_several_bytes_per_character() {
    let start = "\u{e9}\u{e8}";
    let target = digest(start, Algorithm::Md5);
    let found = regenerate_chain(start.as_bytes(), &target, 1, &md5_rule()).unwrap();
    assert_eq!(found, Some((target, start.to_string())));
}

#[test]
fn gather_keeps_the_results_in_order() {
    let one = CrackResult { digest: vec![1], plaintext: "one".to_string() };
    let two = CrackResult { digest: vec![2], plaintext: "two".to_string() };
    let found = vec![None, Some(one.clone()), None, Some(two.clone())];
    assert_eq!(gather_results(&found).unwrap(), vec![one, two]);
    assert!(matches!(gather_results(&vec![None, None]), Err(RainbowError::NoPasswordsFound)));
    assert!(matches!(gather_results(&Vec::new()), Err(RainbowError::NoPasswordsFound)));
}

#[test]
fn result_line_is_hex_tab_plaintext() {
    let result = CrackResult {
        digest: hex::decode("e2fc714c4727ee9395f324cd2e7f331f").unwrap(),
        plaintext: "abcd".to_string(),
    };
    assert_eq!(result_line(&result), "e2fc714c4727ee9395f324cd2e7f331f\tabcd");
    let result = CrackResult { digest: vec![0x00, 0x0f, 0xa0, 0xff], plaintext: String::new() };
    assert_eq!(result_line(&result), "000fa0ff\t");
}

#[test]
fn hash_file_is_read_into_a_batch() {
    let mut bytes = vec![1, 3, b'm', b'd', b'5', 4];
    bytes.extend_from_slice(&[7; 16]);
    bytes.extend_from_slice(&[8; 16]);
    let batch = parse_hash_file(&bytes).unwrap();
    assert_eq!(batch, HashBatch { algorithm: Algorithm::Md5, digests: vec![vec![7; 16], vec![8; 16]] });
    let batch = parse_hash_file(&[1, 6, b's', b'h', b'a', b'2', b'5', b'6', 200]).unwrap();
    assert_eq!(batch, HashBatch { algorithm: Algorithm::Sha256, digests: vec![] });
}

#[test]
fn hash_file_is_refused() {
    assert!(matches!(parse_hash_file(&[]), Err(RainbowError::InvalidHeader)));
    assert!(matches!(parse_hash_file(&[1, 0]), Err(RainbowError::InvalidHeader)));
    assert!(matches!(parse_hash_file(&[2, 3, b'm', b'd', b'5', 4]), Err(RainbowError::InvalidHeader)));
    assert!(matches!(parse_hash_file(&[1, 3, b'm', b'd']), Err(RainbowError::InvalidHeader)));
    assert!(matches!(parse_hash_file(&[1, 3, b'm', b'd', b'5']), Err(RainbowError::InvalidHeader)));
    assert!(matches!(parse_hash_file(&[1, 3, b'm', b'd', b'4', 4]), Err(RainbowError::InvalidAlgorithm)));
    assert!(matches!(parse_hash_file(&[1, 2, 0xff, 0xfe, 4]), Err(RainbowError::InvalidAlgorithm)));
    assert!(matches!(parse_hash_file(&[1, 0, 4]), Err(RainbowError::InvalidAlgorithm)));
    let mut bytes = vec![1, 3, b'm', b'd', b'5', 4];
    bytes.extend_from_slice(&[7; 17]);
    assert!(matches!(parse_hash_file(&bytes), Err(RainbowError::InvalidHeader)));
}

#[test]
fn crack_without_links_fails_under_every_algorithm() {
    for algorithm in [Algorithm::Md5, Algorithm::Sha256, Algorithm::Sha3_512, Algorithm::Scrypt] {
        let table = table_of(&["abcd", "efgh"], algorithm, 0);
        assert_eq!(table.chains[0], Chain { start: b"abcd".to_vec(), end: b"abcd".to_vec() });
        let batch = HashBatch { algorithm, digests: vec![digest("abcd", algorithm)] };
        assert!(matches!(crack(&table, &batch), Err(RainbowError::NoPasswordsFound)));
    }
}

#[test]
fn regenerate_without_steps_finds_nothing() {
    let rule = ChainRule { algorithm: Algorithm::Scrypt, ..md5_rule() };
    assert_eq!(regenerate_chain(b"abcd", &[0; 91], 0, &rule).unwrap(), None);
}

use base64::Engine;
use hashassin_core::dump::dump_hashes;
use hashassin_core::hashing::{
    compute_hash, digest_bytes, generate_hashes, Algorithm, HashError,
};
use hashassin_core::rainbow::parse_hash_file;

#[test]
fn algorithm_names_and_sizes() {
    let all = [
        (Algorithm::Md5, "md5", 16),
        (Algorithm::Sha256, "sha256", 32),
        (Algorithm::Sha3_512, "sha3-512", 64),
        (Algorithm::Scrypt, "scrypt", 91),
    ];
    for (algorithm, name, size) in all {
        assert_eq!(algorithm.name(), name);
        assert_eq!(algorithm.to_string(), name);
        assert_eq!(algorithm.hash_size(), size);
        assert_eq!(Algorithm::from_str(name), Some(algorithm));
        assert_eq!(Algorithm::from_bytes(name.as_bytes()), Some(algorithm));
        assert_eq!(algorithm.deterministic(), algorithm != Algorithm::Scrypt);
    }
    for name in ["", "MD5", "md", "md55", "sha3_512", "sha-256", "scrypt "] {
        assert_eq!(Algorithm::from_str(name), None);
    }
    assert_eq!(Algorithm::from_bytes(&[0xff, 0xfe]), None);
}

#[test]
fn digests_of_known_messages() {
    assert_eq!(
        hex::encode(compute_hash("abcd", Algorithm::Md5).unwrap()),
        "e2fc714c4727ee9395f324cd2e7f331f"
    );
    assert_eq!(
        hex::encode(compute_hash("", Algorithm::Md5).unwrap()),
        "d41d8cd98f00b204e9800998ecf8427e"
    );
    assert_eq!(
        hex::encode(compute_hash("abc", Algorithm::Sha256).unwrap()),
        "ba7816bf8f01cfea414140de5dae2223b00361a396177a9cb410ff61f20015ad"
    );
    assert_eq!(
        hex::encode(compute_hash("abc", Algorithm::Sha3_512).unwrap()),
        "b751850b1a57168a5693cd924b6b096e08f621827444f70d884f5d0240d2712e10e116e9192af3c91a7ec57647e3934057340b4cf408d5a56592f8274eec53f0"
    );
    assert_eq!(
        digest_bytes(b"abcd", Algorithm::Md5).unwrap(),
        compute_hash("abcd", Algorithm::Md5).unwrap()
    );
}

#[test]
fn digest_sizes_are_those_of_the_algorithm() {
    for algorithm in [Algorithm::Md5, Algorithm::Sha256, Algorithm::Sha3_512, Algorithm::Scrypt] {
        assert_eq!(compute_hash("password", algorithm).unwrap().len(), algorithm.hash_size());
    }
}

#[test]
fn scrypt_digest_is_a_record_of_salt_and_key() {
    let digest = String::from_utf8(compute_hash("secret", Algorithm::Scrypt).unwrap()).unwrap();
    let parts: Vec<&str> = digest.split('$').collect();
    assert_eq!(parts.len(), 5);
    assert_eq!(&parts[..3], &["", "scrypt", "ln=14,r=8,p=1"]);
    let engine = base64::engine::general_purpose::STANDARD;
    let salt = engine.decode(parts[3]).unwrap();
    let key = engine.decode(parts[4]).unwrap();
    assert_eq!(salt.len(), 16);
    assert_eq!(key.len(), 32);
    let params = scrypt::Params::new(14, 8, 1, 32).unwrap();
    let mut expected = [0u8; 32];
    scrypt::scrypt(b"secret", &salt, &params, &mut expected).unwrap();
    assert_eq!(key, expected.to_vec());
}

#[test]
fn scrypt_digests_differ_from_call_to_call() {
    let one = compute_hash("secret", Algorithm::Scrypt).unwrap();
    let two = compute_hash("secret", Algorithm::Scrypt).unwrap();
    assert_ne!(one, two);
}

#[test]
fn hash_file_of_passwords() {
    let passwords = vec!["abcd".to_string(), "efgh".to_string()];
    let bytes = generate_hashes(&passwords, Algorithm::Md5).unwrap();
    let mut expected = vec![1, 3, b'm', b'd', b'5', 4];
    expected.extend(hex::decode("e2fc714c4727ee9395f324cd2e7f331f").unwrap());
    expected.extend(hex::decode("1f7690ebdd9b4caf8fab49ca1757bf27").unwrap());
    assert_eq!(bytes, expected);
    let batch = parse_hash_file(&bytes).unwrap();
    assert_eq!(batch.algorithm, Algorithm::Md5);
    assert_eq!(batch.digests.len(), 2);
}

#[test]
fn hash_file_names_the_low_byte_of_the_password_length() {
    let bytes = generate_hashes(&vec!["a".repeat(260)], Algorithm::Sha256).unwrap();
    assert_eq!(&bytes[..9], &[1, 6, b's', b'h', b'a', b'2', b'5', b'6', 4]);
    assert_eq!(bytes.len(), 9 + 32);
}

#[test]
fn hash_file_of_scrypt_records() {
    let passwords = vec!["abcd".to_string(), "efgh".to_string(), "ijkl".to_string()];
    let bytes = generate_hashes(&passwords, Algorithm::Scrypt).unwrap();
    assert_eq!(bytes.len(), 9 + 3 * 91);
    let batch = parse_hash_file(&bytes).unwrap();
    assert_eq!(batch.digests.len(), 3);
    assert!(batch.digests.iter().all(|d| d.starts_with(b"$scrypt$ln=14,r=8,p=1$")));
}

#[test]
fn hash_file_of_no_passwords_is_refused() {
    assert!(matches!(generate_hashes(&Vec::new(), Algorithm::Md5), Err(HashError::InvalidAlgorithm)));
}

#[test]
fn dump_of_a_hash_file() {
    let passwords = vec!["abcd".to_string(), "efgh".to_string()];
    let bytes = generate_hashes(&passwords, Algorithm::Md5).unwrap();
    let (lines, end) = dump_hashes(&bytes);
    assert!(end.is_ok());
    assert_eq!(
        lines,
        vec![
            "VERSION: 1",
            "ALGORITHM: md5",
            "PASSWORD LENGTH: 4",
            "e2fc714c4727ee9395f324cd2e7f331f",
            "1f7690ebdd9b4caf8fab49ca1757bf27",
        ]
    );
}

#[test]
fn dump_shows_any_version_and_scrypt_records_as_text() {
    let mut bytes = vec![9, 6, b's', b'c', b'r', b'y', b'p', b't', 255];
    bytes.extend_from_slice(&[b'x'; 91]);
    bytes.extend_from_slice(&[b'y'; 91]);
    let (lines, end) = dump_hashes(&bytes);
    assert!(end.is_ok());
    assert_eq!(lines.len(), 5);
    assert_eq!(&lines[..3], &["VERSION: 9", "ALGORITHM: scrypt", "PASSWORD LENGTH: 255"]);
    assert_eq!(lines[3], "x".repeat(91));
    assert_eq!(lines[4], "y".repeat(91));
}

#[test]
fn dump_ends_at_a_scrypt_record_that_is_no_text() {
    let mut bytes = vec![1, 6, b's', b'c', b'r', b'y', b'p', b't', 4];
    bytes.extend_from_slice(&[b'x'; 91]);
    bytes.extend_from_slice(&[0xff; 91]);
    bytes.extend_from_slice(&[b'z'; 91]);
    let (lines, end) = dump_hashes(&bytes);
    assert!(matches!(end, Err(HashError::InvalidAlgorithm)));
    assert_eq!(lines.len(), 4);
    assert_eq!(lines[3], "x".repeat(91));
}

#[test]
fn dump_refuses_a_broken_file_before_any_line() {
    let cases: Vec<Vec<u8>> = vec![
        vec![],
        vec![1, 3],
        vec![1, 3, b'm', b'd', b'5'],
        vec![1, 3, b'm', b'd', b'6', 4],
        vec![1, 2, 0xff, 0xff, 4],
        vec![1, 3, b'm', b'd', b'5', 4, 1, 2, 3],
    ];
    for bytes in cases {
        let (lines, end) = dump_hashes(&bytes);
        assert!(matches!(end, Err(HashError::InvalidAlgorithm)));
        assert!(lines.is_empty());
    }
    let (lines, end) = dump_hashes(&[1, 3, b'm', b'd', b'5', 4]);
    assert!(end.is_ok());
    assert_eq!(lines.len(), 3);
}

#[test]
fn hash_file_is_read_back_as_it_was_written() {
    let passwords = vec!["abcd".to_string(), "efgh".to_string(), "ijkl".to_string()];
    for algorithm in [Algorithm::Md5, Algorithm::Sha256, Algorithm::Sha3_512] {
        let batch = parse_hash_file(&generate_hashes(&passwords, algorithm).unwrap()).unwrap();
        assert_eq!(batch.algorithm, algorithm);
        let expected: Vec<Vec<u8>> =
            passwords.iter().map(|p| compute_hash(p, algorithm).unwrap()).collect();
        assert_eq!(batch.digests, expected);
    }
}

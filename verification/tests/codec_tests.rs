use hashassin_core::hashing::Algorithm;
use hashassin_core::rainbow::{
    dump_rainbow_table, encode_table, generate_rainbow_table, parse_header, parse_rainbow,
    write_header, Chain, ChainRule, EndIndex, Header, RainbowError, RainbowTable,
};

const TABLE_HEX: &str = "7261696e626f777461626c6501036d6435040000000000000000000000000000005f000000000000000000000000000000030000000000000000000000000000002061626364586a6e3a656667683e655720";

fn md5_rule() -> ChainRule {
    ChainRule {
        algorithm: Algorithm::Md5,
        password_length: 4,
        charset_size: 95,
        unicode_offset: 32,
    }
}

fn sample_table() -> RainbowTable {
    RainbowTable {
        rule: md5_rule(),
        num_links: 3,
        chains: vec![
            Chain { start: b"abcd".to_vec(), end: b"Xjn:".to_vec() },
            Chain { start: b"efgh".to_vec(), end: b">eW ".to_vec() },
        ],
    }
}

fn passwords(list: &[&str]) -> Vec<String> {
    list.iter().map(|p| p.to_string()).collect()
}

#[test]
fn header_has_the_fixed_layout() {
    let mut out = vec![0xaa];
    write_header(&mut out, &md5_rule(), 3).unwrap();
    let mut expected = vec![0xaa];
    expected.extend_from_slice(b"rainbowtable");
    expected.extend_from_slice(&[1, 3]);
    expected.extend_from_slice(b"md5");
    expected.push(4);
    expected.extend_from_slice(&95u128.to_be_bytes());
    expected.extend_from_slice(&3u128.to_be_bytes());
    expected.extend_from_slice(&32u128.to_be_bytes());
    assert_eq!(out, expected);
}

#[test]
fn header_refuses_a_password_length_beyond_one_byte() {
    let mut rule = md5_rule();
    rule.password_length = 256;
    let mut out = vec![1, 2, 3];
    assert!(matches!(write_header(&mut out, &rule, 3), Err(RainbowError::InvalidHeader)));
    assert_eq!(out, vec![1, 2, 3]);
    rule.password_length = 255;
    assert!(write_header(&mut out, &rule, 3).is_ok());
    assert_eq!(out[3 + 12 + 2 + 3], 255);
}

#[test]
fn header_holds_wide_numbers_big_endian() {
    let rule = ChainRule {
        algorithm: Algorithm::Sha3_512,
        password_length: 0,
        charset_size: u128::MAX,
        unicode_offset: 0x0102_0304_0506_0708_090a_0b0c_0d0e_0f10,
    };
    let mut out = Vec::new();
    write_header(&mut out, &rule, 1u128 << 100).unwrap();
    assert_eq!(&out[12..23], &[1, 8, b's', b'h', b'a', b'3', b'-', b'5', b'1', b'2', 0]);
    assert_eq!(&out[23..39], &[0xff; 16]);
    assert_eq!(&out[39..55], &(1u128 << 100).to_be_bytes());
    assert_eq!(&out[55..71], &[1, 2, 3, 4, 5, 6, 7, 8, 9, 10, 11, 12, 13, 14, 15, 16]);
    let header = parse_header(&out).unwrap();
    assert_eq!(header, Header { rule, num_links: 1u128 << 100, size: 71 });
}

#[test]
fn table_file_is_header_then_records() {
    assert_eq!(hex::encode(encode_table(&sample_table()).unwrap()), TABLE_HEX);
}

#[test]
fn table_round_trip() {
    let table = sample_table();
    let read = parse_rainbow(&encode_table(&table).unwrap()).unwrap();
    assert_eq!(read, table);
    for algorithm in [Algorithm::Md5, Algorithm::Sha256, Algorithm::Sha3_512, Algorithm::Scrypt] {
        let table = RainbowTable {
            rule: ChainRule {
                algorithm,
                password_length: 2,
                charset_size: 7,
                unicode_offset: 1u128 << 127,
            },
            num_links: u128::MAX,
            chains: vec![
                Chain { start: vec![0, 255], end: vec![1, 1] },
                Chain { start: vec![9, 9], end: vec![1, 1] },
                Chain { start: vec![3, 4], end: vec![5, 6] },
            ],
        };
        assert_eq!(parse_rainbow(&encode_table(&table).unwrap()).unwrap(), table);
    }
}

#[test]
fn table_round_trip_without_chains() {
    let mut table = sample_table();
    table.chains.clear();
    table.rule.password_length = 0;
    assert_eq!(parse_rainbow(&encode_table(&table).unwrap()).unwrap(), table);
}

#[test]
fn records_of_no_bytes_are_not_read_back() {
    let table = RainbowTable {
        rule: ChainRule { password_length: 0, ..md5_rule() },
        num_links: 3,
        chains: vec![Chain { start: vec![], end: vec![] }],
    };
    let read = parse_rainbow(&encode_table(&table).unwrap()).unwrap();
    assert_eq!(read.rule, table.rule);
    assert!(read.chains.is_empty());
}

#[test]
fn parse_drops_a_partial_last_record() {
    let mut bytes = hex::decode(TABLE_HEX).unwrap();
    bytes.extend_from_slice(b"ijklmno");
    assert_eq!(parse_rainbow(&bytes).unwrap(), sample_table());
    bytes.push(b'p');
    let read = parse_rainbow(&bytes).unwrap();
    assert_eq!(read.chains.len(), 3);
    assert_eq!(read.chains[2], Chain { start: b"ijkl".to_vec(), end: b"mnop".to_vec() });
}

#[test]
fn parse_refuses_a_wrong_marker() {
    let mut bytes = hex::decode(TABLE_HEX).unwrap();
    bytes[0] = b'R';
    assert!(matches!(parse_rainbow(&bytes), Err(RainbowError::InvalidMagic)));
    assert!(matches!(parse_rainbow(b""), Err(RainbowError::InvalidMagic)));
    assert!(matches!(parse_rainbow(b"rainbowtabl"), Err(RainbowError::InvalidMagic)));
}

#[test]
fn parse_refuses_a_wrong_version() {
    let mut bytes = hex::decode(TABLE_HEX).unwrap();
    bytes[12] = 2;
    assert!(matches!(parse_rainbow(&bytes), Err(RainbowError::InvalidHeader)));
}

#[test]
fn parse_refuses_an_unknown_algorithm() {
    let mut bytes = hex::decode(TABLE_HEX).unwrap();
    bytes[14] = b'M';
    assert!(matches!(parse_rainbow(&bytes), Err(RainbowError::InvalidAlgorithm)));
    bytes[14] = 0xff;
    assert!(matches!(parse_rainbow(&bytes), Err(RainbowError::InvalidAlgorithm)));
}

#[test]
fn parse_refuses_a_header_cut_short() {
    let bytes = hex::decode(TABLE_HEX).unwrap();
    for cut in 12..66 {
        let res = parse_rainbow(&bytes[..cut]);
        assert!(matches!(res, Err(RainbowError::InvalidHeader)), "cut at {}", cut);
    }
    assert!(parse_rainbow(&bytes[..66]).unwrap().chains.is_empty());
}

#[test]
fn index_gives_the_start_of_the_last_chain_with_an_end() {
    let chains = vec![
        Chain { start: b"one".to_vec(), end: b"xx".to_vec() },
        Chain { start: b"two".to_vec(), end: b"yy".to_vec() },
        Chain { start: b"three".to_vec(), end: b"xx".to_vec() },
    ];
    let index = EndIndex::build(&chains);
    assert_eq!(index.get(b"xx"), Some(&b"three".to_vec()));
    assert_eq!(index.get(b"yy"), Some(&b"two".to_vec()));
    assert_eq!(index.get(b"zz"), None);
    assert_eq!(index.get(b""), None);
    assert_eq!(EndIndex::build(&Vec::new()).get(b"xx"), None);
}

#[test]
fn generation_gives_the_table_file() {
    let bytes =
        generate_rainbow_table(&passwords(&["abcd", "efgh"]), Algorithm::Md5, 3, 95, 32).unwrap();
    assert_eq!(hex::encode(bytes), TABLE_HEX);
}

#[test]
fn generation_refuses_an_empty_list() {
    let res = generate_rainbow_table(&Vec::new(), Algorithm::Md5, 3, 95, 32);
    assert!(matches!(res, Err(RainbowError::EmptyInput)));
    let res = generate_rainbow_table(&Vec::new(), Algorithm::Scrypt, 3, 0, 500);
    assert!(matches!(res, Err(RainbowError::EmptyInput)));
}

#[test]
fn generation_refuses_passwords_of_differing_lengths() {
    let res = generate_rainbow_table(&passwords(&["abcd", "efg"]), Algorithm::Md5, 3, 95, 32);
    assert!(matches!(res, Err(RainbowError::VaryingLengths)));
    let res = generate_rainbow_table(&passwords(&["abcd", "\u{e9}fg"]), Algorithm::Md5, 0, 95, 32);
    assert!(res.is_ok());
}

#[test]
fn generation_fails_with_the_first_failing_chain() {
    let res = generate_rainbow_table(&passwords(&["abcd", "efgh"]), Algorithm::Md5, 1, 95, 128);
    assert!(matches!(res, Err(RainbowError::UnicodeError(_))));
}

#[test]
fn generation_refuses_too_long_passwords_after_the_chains() {
    let long = "a".repeat(256);
    let res = generate_rainbow_table(&vec![long.clone()], Algorithm::Md5, 0, 95, 32);
    assert!(matches!(res, Err(RainbowError::InvalidHeader)));
    let res = generate_rainbow_table(&vec![long], Algorithm::Md5, 1, 95, 128);
    assert!(matches!(res, Err(RainbowError::UnicodeError(_))));
}

#[test]
fn dump_lists_header_and_chains() {
    let lines = dump_rainbow_table(&hex::decode(TABLE_HEX).unwrap()).unwrap();
    assert_eq!(
        lines,
        vec![
            "Hashassin Rainbow Table",
            "VERSION: 1",
            "ALGORITHM: md5",
            "PASSWORD LENGTH: 4",
            "CHAR SET SIZE: 95",
            "NUM LINKS: 3",
            "ASCII OFFSET: 32",
            "abcd\tXjn:",
            "efgh\t>eW ",
        ]
    );
}

#[test]
fn dump_stops_before_a_partial_record_and_shows_ill_formed_bytes() {
    let mut bytes = hex::decode(TABLE_HEX).unwrap();
    bytes.extend_from_slice(&[b'a', 0xff, b'c', b'd', b'w', b'x', b'y', b'z', b'q']);
    let lines = dump_rainbow_table(&bytes).unwrap();
    assert_eq!(lines.len(), 10);
    assert_eq!(lines[9], "a\u{fffd}cd\twxyz");
}

#[test]
fn dump_fails_on_a_refused_header() {
    assert!(matches!(dump_rainbow_table(b"not a table"), Err(RainbowError::InvalidMagic)));
}

#[test]
fn generation_without_links_records_each_password_twice() {
    for algorithm in [Algorithm::Md5, Algorithm::Scrypt] {
        let bytes =
            generate_rainbow_table(&passwords(&["abcd", "efgh"]), algorithm, 0, 0, 4000).unwrap();
        let table = parse_rainbow(&bytes).unwrap();
        assert_eq!(table.num_links, 0);
        assert_eq!(
            table.chains,
            vec![
                Chain { start: b"abcd".to_vec(), end: b"abcd".to_vec() },
                Chain { start: b"efgh".to_vec(), end: b"efgh".to_vec() },
            ]
        );
    }
}

#[test]
fn generation_succeeds_under_scrypt_with_an_ascii_charset() {
    let bytes =
        generate_rainbow_table(&passwords(&["abcd", "efgh"]), Algorithm::Scrypt, 2, 95, 32).unwrap();
    let table = parse_rainbow(&bytes).unwrap();
    assert_eq!(table.chains.len(), 2);
    assert_eq!(table.chains[1].start, b"efgh".to_vec());
    assert!(table.chains.iter().all(|c| c.end.len() == 4 && c.end.iter().all(|b| (32..=126).contains(b))));
}

use std::str::FromStr;

use whirligig_client::args::{parse_data_slice, parse_usize, DataSlice};
use whirligig_client::errors::ConfigError;
use whirligig_client::identity::parse_identity_list;

#[test]
fn blank_and_whitespace_lines_are_skipped() {
    let input = b"\n  \n11111111111111111111111111111111\n\n";
    let ids = parse_identity_list(input).expect("exactly one identity");
    assert_eq!(ids.len(), 1);
    assert_eq!(ids[0].bytes, [0u8; 32]);
}

#[test]
fn invalid_line_is_a_configuration_error() {
    let input = b"11111111111111111111111111111111\nnot-a-valid-identifier\n";
    match parse_identity_list(input) {
        Err(ConfigError::InvalidIdentity { index }) => assert_eq!(index, 1),
        other => panic!("expected a configuration error, got {:?}", other),
    }
}

#[test]
fn identity_bytes_match_reference_decoding() {
    let line = "TokenkegQfeZyiNwAJbNbGKPFXCWuBvf9Ss623VQ5DA";
    let ids = parse_identity_list(line.as_bytes()).expect("a valid key");
    let expected = solana_sdk::pubkey::Pubkey::from_str(line)
        .expect("reference decoding accepts the key")
        .to_bytes();
    assert_eq!(ids[0].bytes, expected);
}

#[test]
fn surrounding_whitespace_is_trimmed_per_line() {
    let input = b"  11111111111111111111111111111111\t\r\n";
    let ids = parse_identity_list(input).expect("one identity");
    assert_eq!(ids.len(), 1);
}

#[test]
fn empty_input_yields_no_identities() {
    assert_eq!(parse_identity_list(b"").expect("no lines").len(), 0);
    assert_eq!(parse_identity_list(b"\n\n  \n").expect("blank lines").len(), 0);
}

#[test]
fn decimal_parsing_is_exact() {
    assert_eq!(parse_usize(b"0"), Some(0));
    assert_eq!(parse_usize(b"42"), Some(42));
    assert_eq!(parse_usize(b"+7"), Some(7));
    assert_eq!(parse_usize(b""), None);
    assert_eq!(parse_usize(b"+"), None);
    assert_eq!(parse_usize(b"4a"), None);
    assert_eq!(parse_usize(b"-4"), None);
    assert_eq!(parse_usize(b"18446744073709551615"), Some(usize::MAX));
    assert_eq!(parse_usize(b"18446744073709551616"), None);
}

#[test]
fn data_slice_parses_offset_and_length() {
    assert_eq!(parse_data_slice(None), Ok(None));
    assert_eq!(
        parse_data_slice(Some(&b"4,8"[..])),
        Ok(Some(DataSlice {
            offset: 4,
            length: 8
        }))
    );
}

#[test]
fn malformed_data_slice_is_a_configuration_error() {
    assert_eq!(
        parse_data_slice(Some(&b"4"[..])),
        Err(ConfigError::InvalidDataSlice)
    );
    assert_eq!(
        parse_data_slice(Some(&b"a,b"[..])),
        Err(ConfigError::InvalidDataSlice)
    );
    assert_eq!(
        parse_data_slice(Some(&b"1,2,3"[..])),
        Err(ConfigError::InvalidDataSlice)
    );
    assert_eq!(
        parse_data_slice(Some(&b",5"[..])),
        Err(ConfigError::InvalidDataSlice)
    );
}

use easydes::cli::{prepare_key, process, CliError, HexError};
use easydes::easydes::{des_cbc, des_ecb, Des, Mode};

const KEY: [u8; 8] = [0x13, 0x34, 0x57, 0x79, 0x9B, 0xBC, 0xDF, 0xF1];

#[test]
fn key_is_decoded_from_hex() {
    match prepare_key(&Mode::ECB, b"133457799BBCDFF1", false) {
        Ok(key) => assert_eq!(key, KEY),
        Err(_) => panic!("the key should decode"),
    }
    match prepare_key(&Mode::CBC, b"133457799bbcdff1", true) {
        Ok(key) => assert_eq!(key, KEY),
        Err(_) => panic!("lower case digits should decode"),
    }
}

#[test]
fn cbc_without_iv_is_refused_first() {
    assert!(matches!(prepare_key(&Mode::CBC, b"zz", false), Err(CliError::MissingIv)));
}

#[test]
fn odd_key_length_is_refused() {
    assert!(matches!(
        prepare_key(&Mode::ECB, b"133457799BBCDFF", false),
        Err(CliError::KeyDecoding(HexError::OddLength))
    ));
}

#[test]
fn wrong_key_length_is_refused() {
    assert!(matches!(
        prepare_key(&Mode::ECB, b"1334", false),
        Err(CliError::KeyDecoding(HexError::InvalidStringLength))
    ));
}

#[test]
fn first_bad_key_digit_is_reported() {
    match prepare_key(&Mode::ECB, b"1334577g9BBCDFx1", false) {
        Err(CliError::KeyDecoding(HexError::InvalidHexCharacter { c, index })) => {
            assert_eq!(c, 'g');
            assert_eq!(index, 7);
        }
        _ => panic!("the bad digit should be reported"),
    }
}

#[test]
fn process_ecb() {
    let mut input = b"HelloWorld".to_vec();
    let mut expected_input = b"HelloWorld".to_vec();
    let expected = des_ecb(&KEY, &mut expected_input, Des::Encrypt);
    match process(&Mode::ECB, Des::Encrypt, &KEY, b"", &mut input) {
        Ok(out) => assert_eq!(out, expected),
        Err(_) => panic!("ECB needs no IV"),
    }
    assert_eq!(input, expected_input);
}

#[test]
fn process_cbc_decodes_the_iv() {
    let mut input = b"HelloWorld".to_vec();
    let mut expected_input = b"HelloWorld".to_vec();
    let expected = des_cbc(&KEY, &[0x01u8; 8], &mut expected_input, Des::Encrypt);
    match process(&Mode::CBC, Des::Encrypt, &KEY, b"0101010101010101", &mut input) {
        Ok(out) => assert_eq!(out, expected),
        Err(_) => panic!("the IV should decode"),
    }
    assert_eq!(input, expected_input);
}

#[test]
fn process_cbc_with_bad_iv() {
    let mut input = b"HelloWorld".to_vec();
    assert!(matches!(
        process(&Mode::CBC, Des::Decrypt, &KEY, b"01010101010101", &mut input),
        Err(CliError::IvDecoding(HexError::InvalidStringLength))
    ));
    assert_eq!(input, b"HelloWorld".to_vec());
}

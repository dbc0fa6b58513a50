//! The decisions of the command-line tool: the IV requirement, the hex
//! decoding of the key and IV, and the choice of mode. Reading arguments and
//! files is left to the program that calls these functions.
use crate::easydes::{des_cbc, des_ecb, Des, Mode};
use crate::model::{cbc_decrypt, cbc_encrypt, cbc_whitened, des_cipher, ecb, pad};
use vstd::prelude::*;

verus! {

/// Why hex text could not be decoded into 8 bytes.
#[derive(Debug)]
pub enum HexError {
    /// A byte that is not a hex digit, and its position.
    InvalidHexCharacter { c: char, index: usize },
    /// An odd number of digits.
    OddLength,
    /// An even number of digits, but not 16.
    InvalidStringLength,
}

/// Why the tool cannot run.
#[derive(Debug)]
pub enum CliError {
    /// CBC mode was asked for without an IV.
    MissingIv,
    /// The key is not 16 hex digits.
    KeyDecoding(HexError),
    /// The IV is not 16 hex digits.
    IvDecoding(HexError),
}

/// `0-9`, `a-f` or `A-F`.
pub open spec fn is_hex_digit(b: u8) -> bool {
    (48 <= b <= 57) || (97 <= b <= 102) || (65 <= b <= 70)
}

/// The value of a hex digit.
pub open spec fn hex_value(b: u8) -> int {
    if 48 <= b <= 57 {
        b - 48
    } else if 97 <= b <= 102 {
        b - 87
    } else {
        b - 55
    }
}

/// The position of the first byte at or after `i` that is not a hex digit, or `text.len()`.
pub open spec fn first_non_hex(text: Seq<u8>, i: nat) -> nat
    decreases text.len() - i,
{
    if i >= text.len() {
        text.len()
    } else if !is_hex_digit(text[i as int]) {
        i
    } else {
        first_non_hex(text, i + 1)
    }
}

/// Hex text decoded into 8 bytes, or the first reason it cannot be: an odd
/// length, then a length other than 16, then the first byte that is not a digit.
pub open spec fn hex_block(text: Seq<u8>) -> Result<Seq<u8>, HexError> {
    if text.len() % 2 == 1 {
        Err(HexError::OddLength)
    } else if text.len() != 16 {
        Err(HexError::InvalidStringLength)
    } else if first_non_hex(text, 0) < 16 {
        Err(
            HexError::InvalidHexCharacter {
                c: text[first_non_hex(text, 0) as int] as char,
                index: first_non_hex(text, 0) as usize,
            },
        )
    } else {
        Ok(
            Seq::new(
                8,
                |i: int| (16 * hex_value(text[2 * i]) + hex_value(text[2 * i + 1])) as u8,
            ),
        )
    }
}

/// Decodes 16 hex digits into 8 bytes with `hex::decode_to_slice`. Trusted:
/// the crate's source checks that the length is even, then that it is twice
/// the 8 output bytes, then decodes the digits pair by pair in order and stops
/// at the first byte that is not a digit, reporting it (as a `char`) and its
/// index; its error variants map one to one onto `HexError`.
#[verifier::external_body]
fn hex_decode_block(text: &[u8]) -> (r: Result<[u8; 8], HexError>)
    ensures
        match r {
            Ok(out) => hex_block(text@) == Ok::<Seq<u8>, HexError>(out@),
            Err(e) => hex_block(text@) == Err::<Seq<u8>, HexError>(e),
        },
{
    let mut out = [0u8; 8];
    match hex::decode_to_slice(text, &mut out) {
        Ok(()) => Ok(out),
        Err(hex::FromHexError::InvalidHexCharacter { c, index }) => Err(
            HexError::InvalidHexCharacter { c, index },
        ),
        Err(hex::FromHexError::OddLength) => Err(HexError::OddLength),
        Err(hex::FromHexError::InvalidStringLength) => Err(HexError::InvalidStringLength),
    }
}

/// Checks the options before any input is read: CBC needs an IV, and the key
/// must be 16 hex digits, which this returns as 8 bytes.
pub fn prepare_key(mode: &Mode, key_hex: &[u8], iv_given: bool) -> (r: Result<[u8; 8], CliError>)
    ensures
        (*mode is CBC && !iv_given) ==> r == Err::<[u8; 8], CliError>(CliError::MissingIv),
        !(*mode is CBC && !iv_given) ==> match hex_block(key_hex@) {
            Ok(k) => r matches Ok(key) && key@ == k,
            Err(e) => r == Err::<[u8; 8], CliError>(CliError::KeyDecoding(e)),
        },
{
    let needs_iv = match mode {
        Mode::CBC => true,
        Mode::ECB => false,
    };
    if needs_iv && !iv_given {
        return Err(CliError::MissingIv);
    }
    match hex_decode_block(key_hex) {
        Ok(key) => Ok(key),
        Err(e) => Err(CliError::KeyDecoding(e)),
    }
}

/// Encrypts or decrypts `input` (padded in place) with `key`: in ECB mode
/// directly, in CBC mode with the IV decoded from the 16 hex digits `iv_hex`.
pub fn process(mode: &Mode, direction: Des, key: &[u8; 8], iv_hex: &[u8], input: &mut Vec<u8>) -> (r:
    Result<Vec<u8>, CliError>)
    ensures
        *mode is ECB ==> {
            &&& final(input)@ == pad(old(input)@)
            &&& r matches Ok(out) && out@ == ecb(des_cipher(key@, direction), pad(old(input)@))
        },
        *mode is CBC ==> match hex_block(iv_hex@) {
            Err(e) => r == Err::<Vec<u8>, CliError>(CliError::IvDecoding(e)) && final(input)@ == old(
                input,
            )@,
            Ok(iv) => r matches Ok(out) && match direction {
                Des::Encrypt => {
                    &&& final(input)@ == cbc_whitened(des_cipher(key@, Des::Encrypt), iv, pad(old(input)@))
                    &&& out@ == cbc_encrypt(des_cipher(key@, Des::Encrypt), iv, pad(old(input)@))
                },
                Des::Decrypt => {
                    &&& final(input)@ == pad(old(input)@)
                    &&& out@ == cbc_decrypt(des_cipher(key@, Des::Decrypt), iv, pad(old(input)@))
                },
            },
        },
{
    match mode {
        Mode::ECB => Ok(des_ecb(key, input, direction)),
        Mode::CBC => {
            match hex_decode_block(iv_hex) {
                Ok(iv) => Ok(des_cbc(key, &iv, input, direction)),
                Err(e) => Err(CliError::IvDecoding(e)),
            }
        },
    }
}

} // verus!

use easydes::easydes::{calculate_key_table, des_cbc, des_ecb, triple_des_cbc, triple_des_ecb, Des};

const KEY: [u8; 8] = [0x13, 0x34, 0x57, 0x79, 0x9B, 0xBC, 0xDF, 0xF1];

const CONTROL_KEY_TABLE: [[u8; 6]; 16] = [
    [0x1B, 0x02, 0xEF, 0xFC, 0x70, 0x72],
    [0x79, 0xAE, 0xD9, 0xDB, 0xC9, 0xE5],
    [0x55, 0xFC, 0x8A, 0x42, 0xCF, 0x99],
    [0x72, 0xAD, 0xD6, 0xDB, 0x35, 0x1D],
    [0x7C, 0xEC, 0x07, 0xEB, 0x53, 0xA8],
    [0x63, 0xA5, 0x3E, 0x50, 0x7B, 0x2F],
    [0xEC, 0x84, 0xB7, 0xF6, 0x18, 0xBC],
    [0xF7, 0x8A, 0x3A, 0xC1, 0x3B, 0xFB],
    [0xE0, 0xDB, 0xEB, 0xED, 0xE7, 0x81],
    [0xB1, 0xF3, 0x47, 0xBA, 0x46, 0x4F],
    [0x21, 0x5F, 0xD3, 0xDE, 0xD3, 0x86],
    [0x75, 0x71, 0xF5, 0x94, 0x67, 0xE9],
    [0x97, 0xC5, 0xD1, 0xFA, 0xBA, 0x41],
    [0x5F, 0x43, 0xB7, 0xF2, 0xE7, 0x3A],
    [0xBF, 0x91, 0x8D, 0x3D, 0x3F, 0x0A],
    [0xCB, 0x3D, 0x8B, 0x0E, 0x17, 0xF5],
];

#[test]
fn generate_key() {
    let key: [u8; 8] = [0x13, 0x34, 0x57, 0x79, 0x9B, 0xBC, 0xDF, 0xF1];
    let mut key_table: [[u8; 6]; 16] = [[0; 6]; 16];

    calculate_key_table(&key, &mut key_table);

    println!("{:#02x?}", key_table);
    assert_eq!(key_table, CONTROL_KEY_TABLE);
}

#[test]
fn encrypt_ecb() {
    let plaintext: [u8; 8] = [0x01, 0x23, 0x45, 0x67, 0x89, 0xAB, 0xCD, 0xEF];
    let key: [u8; 8] = [0x13, 0x34, 0x57, 0x79, 0x9B, 0xBC, 0xDF, 0xF1];
    let mut ciphertext: Vec<u8> = des_ecb(&key, &mut plaintext.to_vec(), Des::Encrypt);

    let plaintext_again = des_ecb(&key, &mut ciphertext, Des::Decrypt);

    println!("{:#02x?}", plaintext_again);
    assert_eq!(plaintext.to_vec(), plaintext_again);
}

#[test]
fn encrypt_cbc_empty_iv() {
    let plaintext: [u8; 8] = [0x01, 0x23, 0x45, 0x67, 0x89, 0xAB, 0xCD, 0xEF];
    let key: [u8; 8] = [0x13, 0x34, 0x57, 0x79, 0x9B, 0xBC, 0xDF, 0xF1];
    let iv: [u8; 8] = [0x00 as u8; 8];
    let mut ciphertext: Vec<u8> = des_cbc(&key, &iv, &mut plaintext.to_vec(), Des::Encrypt);

    // with an empty iv, there should be no difference between ECB and CBC.
    let plaintext_again = des_ecb(&key, &mut ciphertext, Des::Decrypt);

    println!("{:#02x?}", plaintext_again);
    assert_eq!(plaintext.to_vec(), plaintext_again);
}

#[test]
fn encrypt_cbc() {
    let plaintext: [u8; 8] = [0x01, 0x23, 0x45, 0x67, 0x89, 0xAB, 0xCD, 0xEF];
    let key: [u8; 8] = [0x13, 0x34, 0x57, 0x79, 0x9B, 0xBC, 0xDF, 0xF1];
    let iv: [u8; 8] = [0x01 as u8; 8];
    let mut ciphertext: Vec<u8> = des_cbc(&key, &iv, &mut plaintext.to_vec(), Des::Encrypt);

    println!("{:#02x?}", ciphertext);

    let plaintext_again: Vec<u8> = des_cbc(&key, &iv, &mut ciphertext, Des::Decrypt);

    println!("{:#02x?}", plaintext_again);
    assert_eq!(plaintext.to_vec(), plaintext_again);
}

#[test]
fn cbc_strings() {
    let plaintext: &str = "HelloWorldHelloWorld";
    let key: [u8; 8] = [0x13, 0x34, 0x57, 0x79, 0x9B, 0xBC, 0xDF, 0xF1];
    let iv: [u8; 8] = [0x01 as u8; 8];

    let mut ciphertext = des_cbc(&key, &iv, &mut plaintext.as_bytes().to_vec(), Des::Encrypt);

    println!("{:#02x?}", ciphertext);

    let mut plaintext_again: Vec<u8> = des_cbc(&key, &iv, &mut ciphertext, Des::Decrypt);

    while plaintext_again.last() == Some(&0x00) {
        plaintext_again.pop();
    }

    assert_eq!(
        String::from_utf8(plaintext.as_bytes().to_vec()),
        String::from_utf8(plaintext_again)
    );
}

#[test]
fn triple_des_ecb_strings() {
    let plaintext: &str = "HelloWorldHelloWorld";
    let key: [u8; 24] = [
        0x13, 0x34, 0x57, 0x79, 0x9B, 0xBC, 0xDF, 0xF1, 0x13, 0x34, 0x57, 0x79, 0x9B, 0xBC, 0xDF,
        0xF1, 0x13, 0x34, 0x57, 0x79, 0x9B, 0xBC, 0xDF, 0xF1,
    ];

    let mut ciphertext: Vec<u8> =
        triple_des_ecb(&key, &mut plaintext.as_bytes().to_vec(), Des::Encrypt);

    println!("{:#02x?}", ciphertext);

    let mut plaintext_again: Vec<u8> = triple_des_ecb(&key, &mut ciphertext, Des::Decrypt);

    while plaintext_again.last() == Some(&0x00) {
        plaintext_again.pop();
    }

    println!("{:?}", String::from_utf8(plaintext_again.clone()).unwrap());

    assert_eq!(
        String::from_utf8(plaintext.as_bytes().to_vec()).unwrap(),
        String::from_utf8(plaintext_again).unwrap()
    );
}

#[test]
fn known_answer_encrypt() {
    let mut block = vec![0x01, 0x23, 0x45, 0x67, 0x89, 0xAB, 0xCD, 0xEF];
    let ciphertext = des_ecb(&KEY, &mut block, Des::Encrypt);
    assert_eq!(ciphertext, vec![0x85, 0xE8, 0x13, 0x54, 0x0F, 0x0A, 0xB4, 0x05]);
}

#[test]
fn known_answer_decrypt() {
    let mut block = vec![0x85, 0xE8, 0x13, 0x54, 0x0F, 0x0A, 0xB4, 0x05];
    let plaintext = des_ecb(&KEY, &mut block, Des::Decrypt);
    assert_eq!(plaintext, vec![0x01, 0x23, 0x45, 0x67, 0x89, 0xAB, 0xCD, 0xEF]);
}

#[test]
fn known_answer_zero_key_zero_block() {
    let mut block = vec![0u8; 8];
    let ciphertext = des_ecb(&[0u8; 8], &mut block, Des::Encrypt);
    assert_eq!(ciphertext, vec![0x8C, 0xA6, 0x4D, 0xE9, 0xC1, 0xB1, 0x23, 0xA7]);
}

#[test]
fn key_table_ignores_previous_contents() {
    let mut key_table: [[u8; 6]; 16] = [[0xFF; 6]; 16];
    calculate_key_table(&KEY, &mut key_table);
    assert_eq!(key_table, CONTROL_KEY_TABLE);
}

#[test]
fn key_bytes_beyond_eight_are_ignored() {
    let long_key: [u8; 10] = [0x13, 0x34, 0x57, 0x79, 0x9B, 0xBC, 0xDF, 0xF1, 0xAA, 0x55];
    let mut a = b"abcdefghij".to_vec();
    let mut b = b"abcdefghij".to_vec();
    assert_eq!(des_ecb(&long_key, &mut a, Des::Encrypt), des_ecb(&KEY, &mut b, Des::Encrypt));
}

#[test]
fn ecb_pads_input_in_place() {
    let mut input = vec![1u8, 2, 3, 4, 5];
    let output = des_ecb(&KEY, &mut input, Des::Encrypt);
    assert_eq!(input, vec![1u8, 2, 3, 4, 5, 0, 0, 0]);
    assert_eq!(output.len(), 8);
    let mut whole = vec![1u8, 2, 3, 4, 5, 0, 0, 0];
    assert_eq!(des_ecb(&KEY, &mut whole, Des::Encrypt), output);
}

#[test]
fn ecb_leaves_whole_blocks_unpadded() {
    let mut input = vec![7u8; 16];
    let output = des_ecb(&KEY, &mut input, Des::Encrypt);
    assert_eq!(input, vec![7u8; 16]);
    assert_eq!(output.len(), 16);
    // Equal plaintext blocks give equal ciphertext blocks in ECB mode.
    assert_eq!(output[0..8], output[8..16]);
}

#[test]
fn ecb_of_nothing_is_nothing() {
    let mut input: Vec<u8> = Vec::new();
    assert_eq!(des_ecb(&KEY, &mut input, Des::Encrypt), Vec::<u8>::new());
    assert!(input.is_empty());
}

#[test]
fn ecb_three_blocks_known_answer() {
    let mut input = b"HelloWorldHelloWorld".to_vec();
    let output = des_ecb(&KEY, &mut input, Des::Encrypt);
    assert_eq!(
        output,
        vec![
            0x4C, 0x16, 0x6C, 0xF5, 0x94, 0x77, 0xB1, 0x9A, 0xB5, 0x7E, 0xB9, 0x8D, 0x8D, 0x7D,
            0xC3, 0x5F, 0xC0, 0x51, 0x11, 0x5C, 0x28, 0x77, 0xA4, 0xE9
        ]
    );
}

#[test]
fn cbc_three_blocks_known_answer() {
    let iv = [0x01u8; 8];
    let mut input = b"HelloWorldHelloWorld".to_vec();
    let output = des_cbc(&KEY, &iv, &mut input, Des::Encrypt);
    assert_eq!(
        output,
        vec![
            0xEA, 0xFF, 0xB2, 0x5A, 0xA6, 0x6A, 0xCF, 0x47, 0xA9, 0xAD, 0x85, 0x8E, 0x51, 0x67,
            0x29, 0x10, 0x9F, 0xA1, 0x20, 0xED, 0xEB, 0xC2, 0x09, 0xC7
        ]
    );
}

#[test]
fn cbc_chains_blocks_and_whitens_input() {
    let iv = [0x01u8; 8];
    let mut input = b"HelloWorldHelloW".to_vec();
    let output = des_cbc(&KEY, &iv, &mut input, Des::Encrypt);

    let mut first: Vec<u8> = b"HelloWor".iter().zip(iv.iter()).map(|(a, b)| a ^ b).collect();
    let c1 = des_ecb(&KEY, &mut first, Des::Encrypt);
    let mut second: Vec<u8> = b"ldHelloW".iter().zip(c1.iter()).map(|(a, b)| a ^ b).collect();
    let c2 = des_ecb(&KEY, &mut second, Des::Encrypt);

    assert_eq!(output[0..8], c1[..]);
    assert_eq!(output[8..16], c2[..]);
    // The plaintext blocks in `input` were combined with their chaining values.
    assert_eq!(input[0..8], first[..]);
    assert_eq!(input[8..16], second[..]);
}

#[test]
fn cbc_decrypt_leaves_input_alone() {
    let iv = [0x01u8; 8];
    let mut ciphertext = des_cbc(&KEY, &iv, &mut b"HelloWorldHelloWorld".to_vec(), Des::Encrypt);
    let kept = ciphertext.clone();
    let plaintext = des_cbc(&KEY, &iv, &mut ciphertext, Des::Decrypt);
    assert_eq!(ciphertext, kept);
    assert_eq!(plaintext, b"HelloWorldHelloWorld\0\0\0\0".to_vec());
}

#[test]
fn cbc_zero_iv_matches_ecb_on_one_block() {
    let mut a = vec![0x01, 0x23, 0x45, 0x67, 0x89, 0xAB, 0xCD, 0xEF];
    let mut b = a.clone();
    assert_eq!(des_cbc(&KEY, &[0u8; 8], &mut a, Des::Encrypt), des_ecb(&KEY, &mut b, Des::Encrypt));
}

#[test]
fn cbc_of_nothing_needs_no_iv() {
    let mut input: Vec<u8> = Vec::new();
    assert_eq!(des_cbc(&KEY, &[], &mut input, Des::Encrypt), Vec::<u8>::new());
}

#[test]
fn triple_des_ecb_known_answer() {
    let mut key = Vec::new();
    key.extend_from_slice(&KEY);
    key.extend_from_slice(&[0x01, 0x23, 0x45, 0x67, 0x89, 0xAB, 0xCD, 0xEF]);
    key.extend_from_slice(&[0xFE, 0xDC, 0xBA, 0x98, 0x76, 0x54, 0x32, 0x10]);
    let mut input = b"HelloWorldHelloWorld".to_vec();
    let ciphertext = triple_des_ecb(&key, &mut input, Des::Encrypt);
    assert_eq!(
        ciphertext,
        vec![
            0x66, 0x74, 0x1C, 0x4D, 0xE2, 0x97, 0x3C, 0x6E, 0xE4, 0xBD, 0xE9, 0x76, 0xD8, 0xA6,
            0x2B, 0x9B, 0xE7, 0x31, 0x2E, 0x1B, 0x92, 0xD4, 0xA2, 0xB4
        ]
    );
    let mut c = ciphertext.clone();
    assert_eq!(triple_des_ecb(&key, &mut c, Des::Decrypt), b"HelloWorldHelloWorld\0\0\0\0".to_vec());
}

#[test]
fn triple_des_ecb_with_one_key_is_des() {
    let mut key = Vec::new();
    key.extend_from_slice(&KEY);
    key.extend_from_slice(&KEY);
    key.extend_from_slice(&KEY);
    let mut a = b"HelloWorld".to_vec();
    let mut b = b"HelloWorld".to_vec();
    assert_eq!(triple_des_ecb(&key, &mut a, Des::Encrypt), des_ecb(&KEY, &mut b, Des::Encrypt));
}

#[test]
fn triple_des_cbc_round_trip() {
    let key: [u8; 24] = [
        0x13, 0x34, 0x57, 0x79, 0x9B, 0xBC, 0xDF, 0xF1, 0x01, 0x23, 0x45, 0x67, 0x89, 0xAB, 0xCD,
        0xEF, 0xFE, 0xDC, 0xBA, 0x98, 0x76, 0x54, 0x32, 0x10,
    ];
    let iv = [0x5Au8; 8];
    let mut ciphertext = triple_des_cbc(&key, &iv, &mut b"HelloWorldHelloWorld".to_vec(), Des::Encrypt);
    let plaintext = triple_des_cbc(&key, &iv, &mut ciphertext, Des::Decrypt);
    assert_eq!(plaintext, b"HelloWorldHelloWorld\0\0\0\0".to_vec());
}

#[test]
fn triple_des_cbc_uses_first_key_for_every_stage() {
    let key: [u8; 24] = [
        0x13, 0x34, 0x57, 0x79, 0x9B, 0xBC, 0xDF, 0xF1, 0x01, 0x23, 0x45, 0x67, 0x89, 0xAB, 0xCD,
        0xEF, 0xFE, 0xDC, 0xBA, 0x98, 0x76, 0x54, 0x32, 0x10,
    ];
    let iv = [0x01u8; 8];
    let mut a = b"HelloWorldHelloWorld".to_vec();
    let mut b = b"HelloWorldHelloWorld".to_vec();
    assert_eq!(
        triple_des_cbc(&key, &iv, &mut a, Des::Encrypt),
        des_cbc(&KEY, &iv, &mut b, Des::Encrypt)
    );
    assert_eq!(a, b);
}

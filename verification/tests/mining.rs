use ql_miner::mining::{default_difficulty_bits, format_target, has_leading_zero_bits};

#[test]
fn default_difficulty_is_twenty() {
    assert_eq!(default_difficulty_bits(), 20);
}

#[test]
fn leading_zero_bits_whole_and_partial_bytes() {
    assert!(has_leading_zero_bits(&[0x00, 0x0f, 0xff], 12));
    assert!(!has_leading_zero_bits(&[0x00, 0x0f, 0xff], 13));
    assert!(has_leading_zero_bits(&[0x00, 0x00], 16));
    assert!(!has_leading_zero_bits(&[0x00, 0x00], 17));
    assert!(has_leading_zero_bits(&[], 0));
    assert!(!has_leading_zero_bits(&[0x80], 1));
    assert!(has_leading_zero_bits(&[0x7f], 1));
}

#[test]
fn target_descriptions() {
    assert_eq!(format_target(16), "16 bits (2 zero byte(s))");
    assert_eq!(format_target(20), "20 bits (2 zero byte(s) + 4 bit(s))");
    assert_eq!(format_target(0), "0 bits (0 zero byte(s))");
}

use ql_miner::mining::{
    block_preimage_bytes, decode_wallet, template_from_response, valid_nonce, Template,
    TemplateResponse,
};
use sha3::{Digest, Sha3_256};

fn template(bits: u32) -> Template {
    Template {
        block_height: 42,
        previous_block_hash: vec![0xaa, 0xbb],
        merkle_root: vec![0x01, 0x02, 0x03],
        difficulty_bits: bits,
    }
}

fn reference_preimage(t: &Template, wallet: &[u8], nonce: u64) -> Vec<u8> {
    let mut v = Vec::new();
    v.extend_from_slice(&1u32.to_le_bytes());
    v.extend_from_slice(&t.previous_block_hash);
    v.extend_from_slice(&t.merkle_root);
    v.extend_from_slice(&t.block_height.to_le_bytes());
    v.extend_from_slice(wallet);
    v.extend_from_slice(&nonce.to_le_bytes());
    v
}

fn reference_leading_zeros(bytes: &[u8]) -> u32 {
    let mut n = 0;
    for b in bytes {
        if *b == 0 {
            n += 8;
        } else {
            return n + b.leading_zeros();
        }
    }
    n
}

#[test]
fn preimage_layout() {
    let t = template(8);
    let wallet = [9u8, 8, 7];
    let p = block_preimage_bytes(&t, &wallet, 0x0102030405060708);
    assert_eq!(p, reference_preimage(&t, &wallet, 0x0102030405060708));
    assert_eq!(&p[..4], &[1, 0, 0, 0]);
    assert_eq!(&p[p.len() - 8..], &[8, 7, 6, 5, 4, 3, 2, 1]);
}

#[test]
fn nonce_validity_follows_the_sha3_digest() {
    let wallet = [0x11u8; 5];
    let mut found = 0;
    for nonce in 0..2000u64 {
        let digest = Sha3_256::digest(reference_preimage(&template(0), &wallet, nonce));
        let zeros = reference_leading_zeros(&digest);
        for bits in [0u32, 1, 4, 8, 9, 12] {
            assert_eq!(valid_nonce(&template(bits), &wallet, nonce), zeros >= bits, "nonce {nonce} bits {bits}");
        }
        if zeros >= 8 {
            found += 1;
        }
    }
    assert!(found > 0);
}

#[test]
fn harder_targets_imply_easier_ones() {
    let digest = [0x00u8, 0x00, 0x1f, 0xff];
    for k in 0..=32u32 {
        if has_leading_zero_bits(&digest, k) {
            for j in 0..=k {
                assert!(has_leading_zero_bits(&digest, j));
            }
        }
    }
    assert!(has_leading_zero_bits(&digest, 19));
    assert!(!has_leading_zero_bits(&digest, 20));
}

#[test]
fn template_response_decoding() {
    let t = template_from_response(TemplateResponse {
        block_height: 7,
        previous_block_hash: "00FFab".to_string(),
        merkle_root: "".to_string(),
        difficulty_bits: 21,
    })
    .unwrap();
    assert_eq!(t.block_height, 7);
    assert_eq!(t.previous_block_hash, vec![0x00, 0xff, 0xab]);
    assert_eq!(t.merkle_root, Vec::<u8>::new());
    assert_eq!(t.difficulty_bits, 21);
}

#[test]
fn template_response_errors() {
    let bad = |prev: &str, merkle: &str| {
        template_from_response(TemplateResponse {
            block_height: 1,
            previous_block_hash: prev.to_string(),
            merkle_root: merkle.to_string(),
            difficulty_bits: 20,
        })
        .err()
    };
    assert_eq!(bad("abc", "00"), Some("bad previous_block_hash: Odd number of digits".to_string()));
    let invalid = hex::decode("0g").unwrap_err().to_string();
    assert_eq!(bad("00", "0g"), Some(format!("bad merkle_root: {invalid}")));
    assert_eq!(bad("0g", "zzz"), Some(format!("bad previous_block_hash: {invalid}")));
}

#[test]
fn wallet_decoding() {
    assert_eq!(decode_wallet("0aFF"), Some(vec![0x0a, 0xff]));
    assert_eq!(decode_wallet("0aF"), None);
    assert_eq!(decode_wallet("xy"), None);
    assert_eq!(decode_wallet(""), Some(vec![]));
}

#[test]
fn zero_bits_accept_every_nonce_and_too_many_bits_none() {
    let wallet = vec![0x11u8; 32];
    for nonce in [0u64, 1, 77, u64::MAX] {
        assert!(valid_nonce(&template(0), &wallet, nonce));
        assert!(!valid_nonce(&template(257), &wallet, nonce));
        assert!(!valid_nonce(&template(u32::MAX), &wallet, nonce));
    }
}

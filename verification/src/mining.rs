//! Mining work: templates as a node hands them out (with hexadecimal hash
//! fields), wallet addresses, the bytes hashed for a candidate nonce, and the
//! proof-of-work rule: a hash meets a difficulty of `bits` when its first
//! `bits` bits, read from the most significant bit of the first byte, are zero.

use vstd::prelude::*;
use vstd::arithmetic::power2::{lemma2_to64, pow2};
use vstd::string::StringSliceAdditionalSpecFns;
use vstd::utf8::encode_utf8;
use crate::number::{decimal, push_decimal};
use sha3::{Digest, Sha3_256};

verus! {

/// The difficulty a node's template has when it names none.
pub fn default_difficulty_bits() -> (r: u32)
    ensures
        r == 20,
{
    20
}

/// The work a node hands out: the block to extend and the difficulty to meet.
#[derive(Clone)]
pub struct Template {
    pub block_height: u64,
    pub previous_block_hash: Vec<u8>,
    pub merkle_root: Vec<u8>,
    pub difficulty_bits: u32,
}

/// A template as plain values: height, previous hash, Merkle root, difficulty.
pub type TemplateModel = (u64, Seq<u8>, Seq<u8>, u32);

impl View for Template {
    type V = TemplateModel;

    open spec fn view(&self) -> TemplateModel {
        (self.block_height, self.previous_block_hash@, self.merkle_root@, self.difficulty_bits)
    }
}

/// A template as a node's JSON describes it, with both hashes in hexadecimal.
pub struct TemplateResponse {
    pub block_height: u64,
    pub previous_block_hash: String,
    pub merkle_root: String,
    pub difficulty_bits: u32,
}

/// Whether `b` is an ASCII hexadecimal digit of either case.
pub open spec fn is_hex_digit(b: u8) -> bool {
    (48 <= b <= 57) || (65 <= b <= 70) || (97 <= b <= 102)
}

/// The value of the hexadecimal digit `b`.
pub open spec fn hex_value(b: u8) -> int {
    if 48 <= b <= 57 {
        b - 48
    } else if 65 <= b <= 70 {
        b - 65 + 10
    } else {
        b - 97 + 10
    }
}

/// `data` is an even number of hexadecimal digits.
pub open spec fn hex_decodable(data: Seq<u8>) -> bool {
    data.len() % 2 == 0 && forall|i: int| 0 <= i < data.len() ==> #[trigger] is_hex_digit(data[i])
}

/// The bytes that the hexadecimal digit pairs of `data` denote, high digit first.
pub open spec fn hex_bytes(data: Seq<u8>) -> Seq<u8> {
    Seq::new(data.len() / 2, |i: int| (hex_value(data[2 * i]) * 16 + hex_value(data[2 * i + 1])) as u8)
}

/// The message of the error that `hex::decode` reports for `data`, when
/// `data` has an even length and some byte of it is not a hexadecimal digit.
pub uninterp spec fn hex_invalid_char_text(data: Seq<u8>) -> Seq<char>;

/// Calls `hex::decode`. Trusted: it succeeds exactly on an even number of
/// hexadecimal digits of either case, and then gives the bytes they denote;
/// on an odd length its error displays "Odd number of digits"; otherwise its
/// error names the first offending character and its position, in a text that
/// is left unstated here beyond being a function of the input.
#[verifier::external_body]
fn hex_decode(data: &[u8]) -> (r: Result<Vec<u8>, String>)
    ensures
        r is Ok <==> hex_decodable(data@),
        r matches Ok(v) ==> v@ == hex_bytes(data@),
        r matches Err(m) ==> m@ == (if data@.len() % 2 == 1 {
            "Odd number of digits"@
        } else {
            hex_invalid_char_text(data@)
        }),
{
    match hex::decode(data) {
        Ok(v) => Ok(v),
        Err(e) => Err(e.to_string()),
    }
}

/// What `hex::decode` gives for the bytes `data`: the bytes, or the message of its error.
pub open spec fn hex_decode_result(data: Seq<u8>) -> Result<Seq<u8>, Seq<char>> {
    if hex_decodable(data) {
        Ok(hex_bytes(data))
    } else if data.len() % 2 == 1 {
        Err("Odd number of digits"@)
    } else {
        Err(hex_invalid_char_text(data))
    }
}

/// The bytes of a wallet address written in hexadecimal, if it is one.
pub fn decode_wallet(wallet_hex: &str) -> (r: Option<Vec<u8>>)
    ensures
        match r {
            Some(v) => hex_decode_result(wallet_hex.spec_bytes()) == Ok::<Seq<u8>, Seq<char>>(v@),
            None => hex_decode_result(wallet_hex.spec_bytes()) is Err,
        },
{
    match hex_decode(wallet_hex.as_bytes()) {
        Ok(v) => Some(v),
        Err(_) => None,
    }
}

/// What a template response becomes: both hashes decoded from hexadecimal,
/// or the first failure, named after its field.
pub open spec fn template_from(
    height: u64,
    previous: Seq<char>,
    merkle: Seq<char>,
    bits: u32,
) -> Result<TemplateModel, Seq<char>> {
    match hex_decode_result(encode_utf8(previous)) {
        Err(e) => Err("bad previous_block_hash: "@ + e),
        Ok(p) => match hex_decode_result(encode_utf8(merkle)) {
            Err(e) => Err("bad merkle_root: "@ + e),
            Ok(m) => Ok((height, p, m, bits)),
        },
    }
}

/// Turns a node's template response into a template.
pub fn template_from_response(response: TemplateResponse) -> (r: Result<Template, String>)
    ensures
        match r {
            Ok(t) => template_from(
                response.block_height,
                response.previous_block_hash@,
                response.merkle_root@,
                response.difficulty_bits,
            ) == Ok::<TemplateModel, Seq<char>>(t@),
            Err(e) => template_from(
                response.block_height,
                response.previous_block_hash@,
                response.merkle_root@,
                response.difficulty_bits,
            ) == Err::<TemplateModel, Seq<char>>(e@),
        },
        r is Ok <==> hex_decodable(encode_utf8(response.previous_block_hash@))
            && hex_decodable(encode_utf8(response.merkle_root@)),
        r matches Ok(t) ==> t.block_height == response.block_height
            && t.difficulty_bits == response.difficulty_bits
            && t.previous_block_hash@ == hex_bytes(encode_utf8(response.previous_block_hash@))
            && t.merkle_root@ == hex_bytes(encode_utf8(response.merkle_root@)),
{
    let previous_block_hash = match hex_decode(response.previous_block_hash.as_str().as_bytes()) {
        Ok(v) => v,
        Err(e) => {
            let mut m = String::from_str("bad previous_block_hash: ");
            m.append(e.as_str());
            return Err(m);
        },
    };
    let merkle_root = match hex_decode(response.merkle_root.as_str().as_bytes()) {
        Ok(v) => v,
        Err(e) => {
            let mut m = String::from_str("bad merkle_root: ");
            m.append(e.as_str());
            return Err(m);
        },
    };
    Ok(Template {
        block_height: response.block_height,
        previous_block_hash,
        merkle_root,
        difficulty_bits: response.difficulty_bits,
    })
}

/// The `n` low bytes of `x`, least significant first.
pub open spec fn le_bytes(x: nat, n: nat) -> Seq<u8>
    decreases n,
{
    if n == 0 {
        seq![]
    } else {
        seq![(x % 256) as u8] + le_bytes(x / 256, (n - 1) as nat)
    }
}

/// Appends the `n` low bytes of `x`, least significant first.
fn push_le_bytes(out: &mut Vec<u8>, x: u64, n: usize)
    ensures
        final(out)@ == old(out)@ + le_bytes(x as nat, n as nat),
    decreases n,
{
    if n > 0 {
        out.push((x % 256) as u8);
        push_le_bytes(out, x / 256, n - 1);
        assert(old(out)@ + le_bytes(x as nat, n as nat) =~= old(out)@.push((x % 256) as u8) + le_bytes(
            (x / 256) as nat,
            (n - 1) as nat,
        ));
    } else {
        assert(old(out)@ + le_bytes(x as nat, 0) =~= old(out)@);
    }
}

/// The bytes that are hashed for a candidate nonce: the version 1 as a
/// little-endian `u32`, the previous hash, the Merkle root, the height as a
/// little-endian `u64`, the wallet, and the nonce as a little-endian `u64`.
pub open spec fn block_preimage(t: TemplateModel, wallet: Seq<u8>, nonce: u64) -> Seq<u8> {
    le_bytes(1, 4) + t.1 + t.2 + le_bytes(t.0 as nat, 8) + wallet + le_bytes(nonce as nat, 8)
}

/// The bytes that are hashed for `nonce`.
pub fn block_preimage_bytes(template: &Template, wallet: &[u8], nonce: u64) -> (r: Vec<u8>)
    ensures
        r@ == block_preimage(template@, wallet@, nonce),
{
    let mut r: Vec<u8> = Vec::new();
    push_le_bytes(&mut r, 1, 4);
    r.extend_from_slice(template.previous_block_hash.as_slice());
    r.extend_from_slice(template.merkle_root.as_slice());
    push_le_bytes(&mut r, template.block_height, 8);
    r.extend_from_slice(wallet);
    push_le_bytes(&mut r, nonce, 8);
    assert(r@ =~= block_preimage(template@, wallet@, nonce));
    r
}

/// The SHA3-256 digest of `data`.
pub uninterp spec fn sha3_256_digest(data: Seq<u8>) -> Seq<u8>;

/// Calls `sha3::Sha3_256::digest`. Trusted: its result is the SHA3-256 digest
/// of `data`, a function of `data` alone and 32 bytes long (the output size
/// `U32` that `Sha3_256` is declared with); the digest's bytes are not stated here.
/// (`Digest::digest` is `new`, one `update` and `finalize`, so hashing the
/// preimage in one piece gives what feeding its parts in turn gives.)
#[verifier::external_body]
fn sha3_256(data: &[u8]) -> (r: Vec<u8>)
    ensures
        r@ == sha3_256_digest(data@),
        r@.len() == 32,
{
    Sha3_256::digest(data).to_vec()
}

/// Whether `nonce` solves `template` for `wallet`: the SHA3-256 digest of the
/// block preimage starts with the template's number of zero bits. Every nonce
/// solves a difficulty of zero bits, and none solves one above the digest's
/// 256 bits.
pub fn valid_nonce(template: &Template, wallet: &[u8], nonce: u64) -> (r: bool)
    ensures
        r == has_zero_prefix(
            sha3_256_digest(block_preimage(template@, wallet@, nonce)),
            template.difficulty_bits as int,
        ),
        sha3_256_digest(block_preimage(template@, wallet@, nonce)).len() == 32,
        template.difficulty_bits == 0 ==> r,
        template.difficulty_bits > 256 ==> !r,
{
    let preimage = block_preimage_bytes(template, wallet, nonce);
    let digest = sha3_256(preimage.as_slice());
    has_leading_zero_bits(digest.as_slice(), template.difficulty_bits)
}

/// A difficulty described in whole zero bytes and extra zero bits.
pub open spec fn target_text(bits: u32) -> Seq<char> {
    if bits % 8 == 0 {
        decimal(bits as nat) + " bits ("@ + decimal((bits / 8) as nat) + " zero byte(s))"@
    } else {
        decimal(bits as nat) + " bits ("@ + decimal((bits / 8) as nat) + " zero byte(s) + "@ + decimal(
            (bits % 8) as nat,
        ) + " bit(s))"@
    }
}

/// Describes a difficulty in whole zero bytes and extra zero bits.
pub fn format_target(difficulty_bits: u32) -> (r: String)
    ensures
        r@ == target_text(difficulty_bits),
{
    let full_zero_bytes = difficulty_bits / 8;
    let extra_bits = difficulty_bits % 8;
    let mut r = String::new();
    push_decimal(&mut r, difficulty_bits as u64);
    r.append(" bits (");
    push_decimal(&mut r, full_zero_bytes as u64);
    if extra_bits == 0 {
        r.append(" zero byte(s))");
    } else {
        r.append(" zero byte(s) + ");
        push_decimal(&mut r, extra_bits as u64);
        r.append(" bit(s))");
    }
    r
}

/// Bit `i` of `bytes`, counting from the most significant bit of `bytes[0]`.
pub open spec fn leading_bit(bytes: Seq<u8>, i: int) -> u8 {
    (bytes[i / 8] >> ((7 - i % 8) as u8)) & 1u8
}

/// `bytes` starts with at least `bits` zero bits.
pub open spec fn has_zero_prefix(bytes: Seq<u8>, bits: int) -> bool {
    &&& 0 <= bits <= 8 * bytes.len()
    &&& forall|i: int| 0 <= i < bits ==> #[trigger] leading_bit(bytes, i) == 0
}

proof fn lemma_byte_zero_iff_bits_zero(b: u8)
    ensures
        (b == 0) <==> ((b >> 7u8) & 1u8 == 0 && (b >> 6u8) & 1u8 == 0 && (b >> 5u8) & 1u8 == 0
            && (b >> 4u8) & 1u8 == 0 && (b >> 3u8) & 1u8 == 0 && (b >> 2u8) & 1u8 == 0
            && (b >> 1u8) & 1u8 == 0 && (b >> 0u8) & 1u8 == 0),
{
    assert((b == 0) <==> ((b >> 7u8) & 1u8 == 0 && (b >> 6u8) & 1u8 == 0 && (b >> 5u8) & 1u8 == 0
        && (b >> 4u8) & 1u8 == 0 && (b >> 3u8) & 1u8 == 0 && (b >> 2u8) & 1u8 == 0
        && (b >> 1u8) & 1u8 == 0 && (b >> 0u8) & 1u8 == 0)) by (bit_vector);
}

/// Bit `k` of the byte `b`, counting from its most significant bit.
pub open spec fn byte_bit(b: u8, k: int) -> u8 {
    (b >> ((7 - k) as u8)) & 1u8
}

/// The `p` most significant bits of `b` are zero.
pub open spec fn top_bits_zero(b: u8, p: int) -> bool {
    forall|k: int| 0 <= k < p ==> #[trigger] byte_bit(b, k) == 0
}

proof fn lemma_bit_index(j: int, k: int)
    requires
        0 <= j,
        0 <= k < 8,
    ensures
        (8 * j + k) / 8 == j,
        (8 * j + k) % 8 == k,
{
    assert((8 * j + k) / 8 == j) by (nonlinear_arith)
        requires
            0 <= j,
            0 <= k < 8,
    ;
    assert((8 * j + k) % 8 == k) by (nonlinear_arith)
        requires
            0 <= j,
            0 <= k < 8,
    ;
}

proof fn lemma_leading_bit_of_byte(bytes: Seq<u8>, j: int, k: int)
    requires
        0 <= j < bytes.len(),
        0 <= k < 8,
    ensures
        leading_bit(bytes, 8 * j + k) == byte_bit(bytes[j], k),
{
    lemma_bit_index(j, k);
}

/// The `p` most significant bits of `b` are zero exactly when `b >> (8 - p)` is zero.
proof fn lemma_top_bits_zero(b: u8, p: u8)
    requires
        1 <= p <= 7,
    ensures
        ((b >> ((8 - p) as u8)) == 0) <==> top_bits_zero(b, p as int),
{
    let b7 = byte_bit(b, 0);
    let b6 = byte_bit(b, 1);
    let b5 = byte_bit(b, 2);
    let b4 = byte_bit(b, 3);
    let b3 = byte_bit(b, 4);
    let b2 = byte_bit(b, 5);
    let b1 = byte_bit(b, 6);
    assert(b7 == (b >> 7u8) & 1u8);
    assert(b6 == (b >> 6u8) & 1u8);
    assert(b5 == (b >> 5u8) & 1u8);
    assert(b4 == (b >> 4u8) & 1u8);
    assert(b3 == (b >> 3u8) & 1u8);
    assert(b2 == (b >> 2u8) & 1u8);
    assert(b1 == (b >> 1u8) & 1u8);
    let conj = if p == 1 {
        b7 == 0
    } else if p == 2 {
        b7 == 0 && b6 == 0
    } else if p == 3 {
        b7 == 0 && b6 == 0 && b5 == 0
    } else if p == 4 {
        b7 == 0 && b6 == 0 && b5 == 0 && b4 == 0
    } else if p == 5 {
        b7 == 0 && b6 == 0 && b5 == 0 && b4 == 0 && b3 == 0
    } else if p == 6 {
        b7 == 0 && b6 == 0 && b5 == 0 && b4 == 0 && b3 == 0 && b2 == 0
    } else {
        b7 == 0 && b6 == 0 && b5 == 0 && b4 == 0 && b3 == 0 && b2 == 0 && b1 == 0
    };
    if p == 1 {
        assert((b >> 7u8 == 0) <==> ((b >> 7u8) & 1u8 == 0)) by (bit_vector);
    } else if p == 2 {
        assert((b >> 6u8 == 0) <==> ((b >> 7u8) & 1u8 == 0 && (b >> 6u8) & 1u8 == 0)) by (bit_vector);
    } else if p == 3 {
        assert((b >> 5u8 == 0) <==> ((b >> 7u8) & 1u8 == 0 && (b >> 6u8) & 1u8 == 0 && (b >> 5u8) & 1u8 == 0)) by (bit_vector);
    } else if p == 4 {
        assert((b >> 4u8 == 0) <==> ((b >> 7u8) & 1u8 == 0 && (b >> 6u8) & 1u8 == 0 && (b >> 5u8) & 1u8 == 0
            && (b >> 4u8) & 1u8 == 0)) by (bit_vector);
    } else if p == 5 {
        assert((b >> 3u8 == 0) <==> ((b >> 7u8) & 1u8 == 0 && (b >> 6u8) & 1u8 == 0 && (b >> 5u8) & 1u8 == 0
            && (b >> 4u8) & 1u8 == 0 && (b >> 3u8) & 1u8 == 0)) by (bit_vector);
    } else if p == 6 {
        assert((b >> 2u8 == 0) <==> ((b >> 7u8) & 1u8 == 0 && (b >> 6u8) & 1u8 == 0 && (b >> 5u8) & 1u8 == 0
            && (b >> 4u8) & 1u8 == 0 && (b >> 3u8) & 1u8 == 0 && (b >> 2u8) & 1u8 == 0)) by (bit_vector);
    } else {
        assert((b >> 1u8 == 0) <==> ((b >> 7u8) & 1u8 == 0 && (b >> 6u8) & 1u8 == 0 && (b >> 5u8) & 1u8 == 0
            && (b >> 4u8) & 1u8 == 0 && (b >> 3u8) & 1u8 == 0 && (b >> 2u8) & 1u8 == 0
            && (b >> 1u8) & 1u8 == 0)) by (bit_vector);
    }
    assert(((b >> ((8 - p) as u8)) == 0) <==> conj);
    if conj {
        assert forall|k: int| 0 <= k < p implies #[trigger] byte_bit(b, k) == 0 by {
            if k == 0 {
            } else if k == 1 {
            } else if k == 2 {
            } else if k == 3 {
            } else if k == 4 {
            } else if k == 5 {
            } else {
                assert(k == 6);
            }
        }
    }
}

/// Meeting a difficulty means meeting every lower one: a hash with `k`
/// leading zero bits has `j` of them for every `j` up to `k`.
pub proof fn difficulty_monotone(bytes: Seq<u8>, j: int, k: int)
    requires
        0 <= j <= k,
        has_zero_prefix(bytes, k),
    ensures
        has_zero_prefix(bytes, j),
{
}

/// Whether `bytes` starts with at least `bits` zero bits.
pub fn has_leading_zero_bits(bytes: &[u8], bits: u32) -> (r: bool)
    ensures
        r == has_zero_prefix(bytes@, bits as int),
{
    let full_bytes = (bits / 8) as usize;
    let partial_bits = (bits % 8) as u8;
    assert(bits == 8 * full_bytes + partial_bits) by (nonlinear_arith)
        requires
            full_bytes == bits / 8,
            partial_bits == bits % 8,
    ;
    if full_bytes > bytes.len() {
        return false;
    }
    let mut j: usize = 0;
    while j < full_bytes
        invariant
            full_bytes <= bytes@.len(),
            bits == 8 * full_bytes + partial_bits,
            j <= full_bytes,
            forall|i: int| 0 <= i < 8 * j ==> #[trigger] leading_bit(bytes@, i) == 0,
        decreases full_bytes - j,
    {
        let b = bytes[j];
        proof {
            lemma_byte_zero_iff_bits_zero(b);
            assert forall|k: int| 0 <= k < 8 implies #[trigger] leading_bit(bytes@, 8 * j + k) == byte_bit(b, k) by {
                lemma_leading_bit_of_byte(bytes@, j as int, k);
            }
        }
        if b != 0 {
            proof {
                if has_zero_prefix(bytes@, bits as int) {
                    assert(leading_bit(bytes@, 8 * j + 0) == 0);
                    assert(leading_bit(bytes@, 8 * j + 1) == 0);
                    assert(leading_bit(bytes@, 8 * j + 2) == 0);
                    assert(leading_bit(bytes@, 8 * j + 3) == 0);
                    assert(leading_bit(bytes@, 8 * j + 4) == 0);
                    assert(leading_bit(bytes@, 8 * j + 5) == 0);
                    assert(leading_bit(bytes@, 8 * j + 6) == 0);
                    assert(leading_bit(bytes@, 8 * j + 7) == 0);
                }
            }
            return false;
        }
        assert forall|i: int| 0 <= i < 8 * (j + 1) implies #[trigger] leading_bit(bytes@, i) == 0 by {
            if i >= 8 * j {
                let k = i - 8 * j;
                assert(leading_bit(bytes@, 8 * j + k) == byte_bit(b, k));
                assert(byte_bit(b, k) == 0) by {
                    if k == 0 {} else if k == 1 {} else if k == 2 {} else if k == 3 {}
                    else if k == 4 {} else if k == 5 {} else if k == 6 {} else { assert(k == 7); }
                }
            }
        }
        j = j + 1;
    }
    if partial_bits == 0 {
        return true;
    }
    if full_bytes == bytes.len() {
        return false;
    }
    let b = bytes[full_bytes];
    proof {
        lemma_top_bits_zero(b, partial_bits);
    }
    let r = b >> (8 - partial_bits) == 0;
    proof {
        if r {
            assert forall|i: int| 0 <= i < bits implies #[trigger] leading_bit(bytes@, i) == 0 by {
                if i >= 8 * full_bytes {
                    let k = i - 8 * full_bytes;
                    lemma_leading_bit_of_byte(bytes@, full_bytes as int, k);
                    assert(byte_bit(b, k) == 0);
                }
            }
        } else {
            if has_zero_prefix(bytes@, bits as int) {
                assert forall|k: int| 0 <= k < partial_bits implies #[trigger] byte_bit(b, k) == 0 by {
                    lemma_leading_bit_of_byte(bytes@, full_bytes as int, k);
                    assert(leading_bit(bytes@, 8 * full_bytes + k) == 0);
                }
            }
        }
    }
    r
}

/// A byte is zero exactly when its eight bits, as `leading_bit` counts them
/// from byte `j` of `bytes`, are all zero.
proof fn lemma_zero_byte(bytes: Seq<u8>, j: int)
    requires
        0 <= j < bytes.len(),
    ensures
        (bytes[j] == 0) <==> (forall|k: int| 0 <= k < 8 ==> #[trigger] leading_bit(bytes, 8 * j + k) == 0),
{
    let b = bytes[j];
    lemma_byte_zero_iff_bits_zero(b);
    assert forall|k: int| 0 <= k < 8 implies #[trigger] leading_bit(bytes, 8 * j + k) == byte_bit(b, k) by {
        lemma_leading_bit_of_byte(bytes, j, k);
    }
    if forall|k: int| 0 <= k < 8 ==> #[trigger] leading_bit(bytes, 8 * j + k) == 0 {
        assert(leading_bit(bytes, 8 * j + 0) == 0);
        assert(leading_bit(bytes, 8 * j + 1) == 0);
        assert(leading_bit(bytes, 8 * j + 2) == 0);
        assert(leading_bit(bytes, 8 * j + 3) == 0);
        assert(leading_bit(bytes, 8 * j + 4) == 0);
        assert(leading_bit(bytes, 8 * j + 5) == 0);
        assert(leading_bit(bytes, 8 * j + 6) == 0);
        assert(leading_bit(bytes, 8 * j + 7) == 0);
    }
    if b == 0 {
        assert forall|k: int| 0 <= k < 8 implies #[trigger] leading_bit(bytes, 8 * j + k) == 0 by {
            assert(byte_bit(b, k) == 0) by {
                if k == 0 {} else if k == 1 {} else if k == 2 {} else if k == 3 {}
                else if k == 4 {} else if k == 5 {} else if k == 6 {} else { assert(k == 7); }
            }
        }
    }
}

/// The `p` most significant bits of a byte are zero exactly when the byte is
/// below `2^(8 - p)`.
proof fn lemma_top_bits_below(b: u8, p: u8)
    requires
        1 <= p <= 7,
    ensures
        top_bits_zero(b, p as int) <==> (b as nat) < pow2((8 - p) as nat),
{
    lemma_top_bits_zero(b, p);
    lemma2_to64();
    if p == 1 {
        assert((b >> 7u8 == 0) <==> b < 128) by (bit_vector);
    } else if p == 2 {
        assert((b >> 6u8 == 0) <==> b < 64) by (bit_vector);
    } else if p == 3 {
        assert((b >> 5u8 == 0) <==> b < 32) by (bit_vector);
    } else if p == 4 {
        assert((b >> 4u8 == 0) <==> b < 16) by (bit_vector);
    } else if p == 5 {
        assert((b >> 3u8 == 0) <==> b < 8) by (bit_vector);
    } else if p == 6 {
        assert((b >> 2u8 == 0) <==> b < 4) by (bit_vector);
    } else {
        assert((b >> 1u8 == 0) <==> b < 2) by (bit_vector);
    }
}

/// A hash meets a difficulty of `bits` exactly when it has at least `bits`
/// bits, its first `bits / 8` bytes are zero, and, where `bits` is not a
/// multiple of eight, the byte after them is below `2^(8 - bits % 8)`. No
/// difficulty that the hash is long enough for is out of reach.
pub proof fn zero_prefix_by_bytes(bytes: Seq<u8>, bits: nat)
    ensures
        has_zero_prefix(bytes, bits as int) <==> {
            &&& bits <= 8 * bytes.len()
            &&& forall|j: int| 0 <= j < bits / 8 ==> #[trigger] bytes[j] == 0
            &&& bits % 8 != 0 ==> (bytes[(bits / 8) as int] as nat) < pow2((8 - bits % 8) as nat)
        },
{
    let f = (bits / 8) as int;
    let p = (bits % 8) as int;
    lemma_bit_index(f, p);
    assert(bits == 8 * f + p) by (nonlinear_arith)
        requires
            f == bits / 8,
            p == bits % 8,
    ;
    if bits > 8 * bytes.len() {
        return;
    }
    assert(f <= bytes.len());
    let whole = forall|j: int| 0 <= j < f ==> #[trigger] bytes[j] == 0;
    let part = p != 0 ==> (bytes[f] as nat) < pow2((8 - p) as nat);
    if p != 0 {
        assert(f < bytes.len());
        lemma_top_bits_below(bytes[f], p as u8);
    }
    if has_zero_prefix(bytes, bits as int) {
        assert forall|j: int| 0 <= j < f implies #[trigger] bytes[j] == 0 by {
            lemma_zero_byte(bytes, j);
            assert forall|k: int| 0 <= k < 8 implies #[trigger] leading_bit(bytes, 8 * j + k) == 0 by {
                assert(8 * j + k < bits) by (nonlinear_arith)
                    requires
                        0 <= j < f,
                        0 <= k < 8,
                        bits == 8 * f + p,
                        0 <= p,
                ;
            }
        }
        if p != 0 {
            assert forall|k: int| 0 <= k < p implies #[trigger] byte_bit(bytes[f], k) == 0 by {
                lemma_leading_bit_of_byte(bytes, f, k);
                assert(leading_bit(bytes, 8 * f + k) == 0);
            }
        }
    }
    if whole && part {
        assert forall|i: int| 0 <= i < bits implies #[trigger] leading_bit(bytes, i) == 0 by {
            let j = i / 8;
            let k = i % 8;
            assert(i == 8 * j + k && 0 <= k < 8 && 0 <= j) by (nonlinear_arith)
                requires
                    0 <= i,
                    j == i / 8,
                    k == i % 8,
            ;
            if j < f {
                lemma_zero_byte(bytes, j);
                assert(leading_bit(bytes, 8 * j + k) == 0);
            } else {
                assert(j == f && k < p) by (nonlinear_arith)
                    requires
                        i == 8 * j + k,
                        0 <= k < 8,
                        j >= f,
                        i < 8 * f + p,
                        p < 8,
                ;
                lemma_leading_bit_of_byte(bytes, f, k);
                assert(top_bits_zero(bytes[f], p));
                assert(byte_bit(bytes[f], k) == 0);
            }
        }
    }
}

/// A hash of `n` zero bytes meets every difficulty up to `8 * n` bits.
pub proof fn zero_bytes_meet_every_difficulty(n: nat, bits: nat)
    requires
        bits <= 8 * n,
    ensures
        has_zero_prefix(Seq::new(n, |i: int| 0u8), bits as int),
{
    let bytes = Seq::new(n, |i: int| 0u8);
    zero_prefix_by_bytes(bytes, bits);
    lemma2_to64();
    if bits % 8 != 0 {
        assert(bits / 8 < n) by (nonlinear_arith)
            requires
                bits <= 8 * n,
                bits % 8 != 0,
        ;
        assert(pow2((8 - bits % 8) as nat) > 0) by {
            vstd::arithmetic::power2::lemma_pow2_pos((8 - bits % 8) as nat);
        }
    }
}

/// A template response whose two hashes are even-length hexadecimal text is
/// accepted, and becomes a template with the same height and difficulty
/// whose hashes hold, in order, one byte per pair of digits: sixteen times
/// the first digit's value plus the second's. Any other response is refused.
pub proof fn template_decodes_hashes(height: u64, previous: Seq<char>, merkle: Seq<char>, bits: u32)
    ensures
        template_from(height, previous, merkle, bits) is Ok <==> hex_decodable(encode_utf8(previous))
            && hex_decodable(encode_utf8(merkle)),
        template_from(height, previous, merkle, bits) matches Ok(t) ==> {
            let pb = encode_utf8(previous);
            let mb = encode_utf8(merkle);
            &&& t.0 == height
            &&& t.3 == bits
            &&& t.1.len() == pb.len() / 2
            &&& t.2.len() == mb.len() / 2
            &&& forall|i: int| 0 <= i < t.1.len() ==> #[trigger] t.1[i] == hex_value(pb[2 * i]) * 16 + hex_value(pb[2 * i + 1])
            &&& forall|i: int| 0 <= i < t.2.len() ==> #[trigger] t.2[i] == hex_value(mb[2 * i]) * 16 + hex_value(mb[2 * i + 1])
        },
{
    let pb = encode_utf8(previous);
    let mb = encode_utf8(merkle);
    if let Ok(t) = template_from(height, previous, merkle, bits) {
        assert forall|i: int| 0 <= i < t.1.len() implies #[trigger] t.1[i] == hex_value(pb[2 * i]) * 16 + hex_value(pb[2 * i + 1]) by {
            lemma_hex_pair(pb, i);
        }
        assert forall|i: int| 0 <= i < t.2.len() implies #[trigger] t.2[i] == hex_value(mb[2 * i]) * 16 + hex_value(mb[2 * i + 1]) by {
            lemma_hex_pair(mb, i);
        }
    }
}

/// A pair of hexadecimal digits denotes a value that fits in a byte.
proof fn lemma_hex_pair(data: Seq<u8>, i: int)
    requires
        hex_decodable(data),
        0 <= i < data.len() / 2,
    ensures
        hex_bytes(data)[i] == hex_value(data[2 * i]) * 16 + hex_value(data[2 * i + 1]),
{
    assert(2 * i + 1 < data.len());
    assert(is_hex_digit(data[2 * i]));
    assert(is_hex_digit(data[2 * i + 1]));
}

} // verus!

//! Derivation of the service address from a 32-byte public key.
//!
//! The address is the lower-case, unpadded RFC 4648 base32 encoding of a
//! 35-byte buffer: the public key, a two-byte checksum, and a version byte.
//! The checksum is the first two bytes of a SHA3-256 digest over a fixed
//! domain string, the key, and the version byte.

use vstd::prelude::*;
use sha3::Digest;

verus! {

/// The version byte of the address format.
pub const ONION_VERSION: u8 = 3;

// ---------------------------------------------------------------------------
// Lower-case, unpadded RFC 4648 base32, for inputs whose length is a
// multiple of five bytes: every five input bytes become eight digits, each
// carrying five bits, most significant first.
// ---------------------------------------------------------------------------

/// The lower-case RFC 4648 base32 digit with value `v` (for `v < 32`):
/// `a` to `z` for 0 to 25, then `2` to `7` for 26 to 31.
pub open spec fn b32_char_of(v: u64) -> char {
    if v == 0 { 'a' } else if v == 1 { 'b' } else if v == 2 { 'c' }
    else if v == 3 { 'd' } else if v == 4 { 'e' } else if v == 5 { 'f' }
    else if v == 6 { 'g' } else if v == 7 { 'h' } else if v == 8 { 'i' }
    else if v == 9 { 'j' } else if v == 10 { 'k' } else if v == 11 { 'l' }
    else if v == 12 { 'm' } else if v == 13 { 'n' } else if v == 14 { 'o' }
    else if v == 15 { 'p' } else if v == 16 { 'q' } else if v == 17 { 'r' }
    else if v == 18 { 's' } else if v == 19 { 't' } else if v == 20 { 'u' }
    else if v == 21 { 'v' } else if v == 22 { 'w' } else if v == 23 { 'x' }
    else if v == 24 { 'y' } else if v == 25 { 'z' } else if v == 26 { '2' }
    else if v == 27 { '3' } else if v == 28 { '4' } else if v == 29 { '5' }
    else if v == 30 { '6' } else { '7' }
}

/// The value of a lower-case base32 digit; characters outside the alphabet
/// map to 0.
pub open spec fn b32_val_of(c: char) -> u64 {
    if c == 'a' { 0 } else if c == 'b' { 1 } else if c == 'c' { 2 }
    else if c == 'd' { 3 } else if c == 'e' { 4 } else if c == 'f' { 5 }
    else if c == 'g' { 6 } else if c == 'h' { 7 } else if c == 'i' { 8 }
    else if c == 'j' { 9 } else if c == 'k' { 10 } else if c == 'l' { 11 }
    else if c == 'm' { 12 } else if c == 'n' { 13 } else if c == 'o' { 14 }
    else if c == 'p' { 15 } else if c == 'q' { 16 } else if c == 'r' { 17 }
    else if c == 's' { 18 } else if c == 't' { 19 } else if c == 'u' { 20 }
    else if c == 'v' { 21 } else if c == 'w' { 22 } else if c == 'x' { 23 }
    else if c == 'y' { 24 } else if c == 'z' { 25 } else if c == '2' { 26 }
    else if c == '3' { 27 } else if c == '4' { 28 } else if c == '5' { 29 }
    else if c == '6' { 30 } else if c == '7' { 31 } else { 0 }
}

/// Whether `c` is a digit of the lower-case base32 alphabet.
pub open spec fn is_b32_lower_char(c: char) -> bool {
    (97 <= c as u32 && c as u32 <= 122) || (50 <= c as u32 && c as u32 <= 55)
}

/// The 40-bit value held by five bytes, most significant byte first.
pub open spec fn b32_block_value(b: Seq<u8>) -> u64
    recommends
        b.len() == 5,
{
    ((b[0] as u64) << 32) | ((b[1] as u64) << 24) | ((b[2] as u64) << 16)
        | ((b[3] as u64) << 8) | (b[4] as u64)
}

/// The eight digits encoding a 40-bit value, five bits each, most
/// significant group first.
pub open spec fn b32_block_chars(n: u64) -> Seq<char> {
    seq![
        b32_char_of((n >> 35) & 31),
        b32_char_of((n >> 30) & 31),
        b32_char_of((n >> 25) & 31),
        b32_char_of((n >> 20) & 31),
        b32_char_of((n >> 15) & 31),
        b32_char_of((n >> 10) & 31),
        b32_char_of((n >> 5) & 31),
        b32_char_of(n & 31),
    ]
}

/// Lower-case, unpadded RFC 4648 base32 encoding, block by block.
/// A trailing fragment shorter than five bytes is not encoded; the callers
/// only pass lengths that are multiples of five.
pub open spec fn base32_lower_spec(s: Seq<u8>) -> Seq<char>
    decreases s.len(),
{
    if s.len() < 5 {
        Seq::<char>::empty()
    } else {
        b32_block_chars(b32_block_value(s.take(5))) + base32_lower_spec(s.skip(5))
    }
}

/// The 40-bit value held by eight base32 digits.
pub open spec fn b32_block_value_of_chars(c: Seq<char>) -> u64
    recommends
        c.len() == 8,
{
    (b32_val_of(c[0]) << 35) | (b32_val_of(c[1]) << 30) | (b32_val_of(c[2]) << 25)
        | (b32_val_of(c[3]) << 20) | (b32_val_of(c[4]) << 15) | (b32_val_of(c[5]) << 10)
        | (b32_val_of(c[6]) << 5) | b32_val_of(c[7])
}

/// The five bytes of a 40-bit value, most significant byte first.
pub open spec fn b32_block_bytes(n: u64) -> Seq<u8> {
    seq![(n >> 32) as u8, (n >> 24) as u8, (n >> 16) as u8, (n >> 8) as u8, n as u8]
}

/// Decoding of lower-case base32, block by block; the inverse of
/// `base32_lower_spec` on inputs it encodes.
pub open spec fn base32_decode_spec(c: Seq<char>) -> Seq<u8>
    decreases c.len(),
{
    if c.len() < 8 {
        Seq::<u8>::empty()
    } else {
        b32_block_bytes(b32_block_value_of_chars(c.take(8))) + base32_decode_spec(c.skip(8))
    }
}

/// The encoding of a sequence of `5 * k` bytes has `8 * k` digits.
pub proof fn lemma_base32_len(s: Seq<u8>)
    requires
        s.len() % 5 == 0,
    ensures
        base32_lower_spec(s).len() == s.len() / 5 * 8,
    decreases s.len(),
{
    if s.len() >= 5 {
        assert(s.skip(5).len() % 5 == 0);
        lemma_base32_len(s.skip(5));
    }
}

/// Every digit of an encoding is in the lower-case base32 alphabet.
pub proof fn lemma_base32_alphabet(s: Seq<u8>)
    ensures
        forall|i: int| 0 <= i < base32_lower_spec(s).len()
            ==> is_b32_lower_char(#[trigger] base32_lower_spec(s)[i]),
    decreases s.len(),
{
    assert forall|v: u64| is_b32_lower_char(b32_char_of(v)) by {}
    if s.len() >= 5 {
        lemma_base32_alphabet(s.skip(5));
        let head = b32_block_chars(b32_block_value(s.take(5)));
        let tail = base32_lower_spec(s.skip(5));
        assert forall|i: int| 0 <= i < base32_lower_spec(s).len()
            implies is_b32_lower_char(#[trigger] base32_lower_spec(s)[i]) by {
            if i < 8 {
                assert(base32_lower_spec(s)[i] == head[i]);
            } else {
                assert(base32_lower_spec(s)[i] == tail[i - 8]);
            }
        }
    }
}

/// Decoding a digit gives back its value.
proof fn lemma_b32_digit_roundtrip(v: u64)
    requires
        v < 32,
    ensures
        b32_val_of(b32_char_of(v)) == v,
{
}

/// Decoding the eight digits of a 40-bit value gives back the value.
proof fn lemma_b32_block_chars_roundtrip(n: u64)
    requires
        n < 0x100_0000_0000,
    ensures
        b32_block_value_of_chars(b32_block_chars(n)) == n,
{
    let c = b32_block_chars(n);
    assert((n >> 35) & 31 < 32 && (n >> 30) & 31 < 32 && (n >> 25) & 31 < 32
        && (n >> 20) & 31 < 32 && (n >> 15) & 31 < 32 && (n >> 10) & 31 < 32
        && (n >> 5) & 31 < 32 && n & 31 < 32) by (bit_vector);
    lemma_b32_digit_roundtrip((n >> 35) & 31);
    lemma_b32_digit_roundtrip((n >> 30) & 31);
    lemma_b32_digit_roundtrip((n >> 25) & 31);
    lemma_b32_digit_roundtrip((n >> 20) & 31);
    lemma_b32_digit_roundtrip((n >> 15) & 31);
    lemma_b32_digit_roundtrip((n >> 10) & 31);
    lemma_b32_digit_roundtrip((n >> 5) & 31);
    lemma_b32_digit_roundtrip(n & 31);
    assert(b32_block_value_of_chars(c) == ((((n >> 35) & 31) << 35) | (((n >> 30) & 31) << 30)
        | (((n >> 25) & 31) << 25) | (((n >> 20) & 31) << 20) | (((n >> 15) & 31) << 15)
        | (((n >> 10) & 31) << 10) | (((n >> 5) & 31) << 5) | (n & 31)));
    assert(((((n >> 35) & 31) << 35) | (((n >> 30) & 31) << 30) | (((n >> 25) & 31) << 25)
        | (((n >> 20) & 31) << 20) | (((n >> 15) & 31) << 15) | (((n >> 10) & 31) << 10)
        | (((n >> 5) & 31) << 5) | (n & 31)) == n) by (bit_vector)
        requires n < 0x100_0000_0000u64;
}

/// Encoding five bytes and decoding the digits gives back the bytes.
proof fn lemma_b32_block_roundtrip(b: Seq<u8>)
    requires
        b.len() == 5,
    ensures
        b32_block_value(b) < 0x100_0000_0000,
        b32_block_bytes(b32_block_value_of_chars(b32_block_chars(b32_block_value(b)))) =~= b,
{
    let b0 = b[0];
    let b1 = b[1];
    let b2 = b[2];
    let b3 = b[3];
    let b4 = b[4];
    let n = b32_block_value(b);
    assert(n == ((b0 as u64) << 32) | ((b1 as u64) << 24) | ((b2 as u64) << 16)
        | ((b3 as u64) << 8) | (b4 as u64));
    assert((((b0 as u64) << 32) | ((b1 as u64) << 24) | ((b2 as u64) << 16)
        | ((b3 as u64) << 8) | (b4 as u64)) < 0x100_0000_0000) by (bit_vector);
    lemma_b32_block_chars_roundtrip(n);
    assert(((((b0 as u64) << 32) | ((b1 as u64) << 24) | ((b2 as u64) << 16)
        | ((b3 as u64) << 8) | (b4 as u64)) >> 32) as u8 == b0) by (bit_vector);
    assert(((((b0 as u64) << 32) | ((b1 as u64) << 24) | ((b2 as u64) << 16)
        | ((b3 as u64) << 8) | (b4 as u64)) >> 24) as u8 == b1) by (bit_vector);
    assert(((((b0 as u64) << 32) | ((b1 as u64) << 24) | ((b2 as u64) << 16)
        | ((b3 as u64) << 8) | (b4 as u64)) >> 16) as u8 == b2) by (bit_vector);
    assert(((((b0 as u64) << 32) | ((b1 as u64) << 24) | ((b2 as u64) << 16)
        | ((b3 as u64) << 8) | (b4 as u64)) >> 8) as u8 == b3) by (bit_vector);
    assert((((b0 as u64) << 32) | ((b1 as u64) << 24) | ((b2 as u64) << 16)
        | ((b3 as u64) << 8) | (b4 as u64)) as u8 == b4) by (bit_vector);
}

/// Decoding an encoding gives back the input, for inputs made of whole
/// five-byte blocks.
pub proof fn lemma_base32_roundtrip(s: Seq<u8>)
    requires
        s.len() % 5 == 0,
    ensures
        base32_decode_spec(base32_lower_spec(s)) =~= s,
    decreases s.len(),
{
    if s.len() == 0 {
    } else {
        let head = b32_block_chars(b32_block_value(s.take(5)));
        let tail = base32_lower_spec(s.skip(5));
        let enc = base32_lower_spec(s);
        assert(enc == head + tail);
        assert(head.len() == 8);
        assert((head + tail).take(8) =~= head);
        assert((head + tail).skip(8) =~= tail);
        lemma_b32_block_roundtrip(s.take(5));
        assert(s.skip(5).len() % 5 == 0);
        lemma_base32_roundtrip(s.skip(5));
        assert(base32_decode_spec(enc) == s.take(5) + s.skip(5));
        assert(s.take(5) + s.skip(5) =~= s);
    }
}

// ---------------------------------------------------------------------------
// The checksum and the address.
// ---------------------------------------------------------------------------

/// What `sha3::Sha3_256` returns for the given input bytes. The digest is a
/// function of the input alone.
pub uninterp spec fn sha3_256_of(data: Seq<u8>) -> Seq<u8>;

/// Relies on `sha3::Sha3_256` (the `Digest` trait): the SHA3-256 digest is 32
/// bytes and depends on the input bytes alone.
#[verifier::external_body]
fn sha3_256(data: &[u8]) -> (r: Vec<u8>)
    ensures
        r@ == sha3_256_of(data@),
        r@.len() == 32,
{
    let mut h = sha3::Sha3_256::new();
    h.update(data);
    h.finalize().to_vec()
}

/// Relies on `base32::encode` with `Alphabet::Rfc4648 { padding: false }`,
/// lower-cased: every five input bytes become eight digits of the lower-case
/// RFC 4648 alphabet, each holding five bits, most significant first.
#[verifier::external_body]
fn base32_encode_lower(data: &[u8]) -> (r: String)
    requires
        data@.len() % 5 == 0,
    ensures
        r@ == base32_lower_spec(data@),
{
    base32::encode(base32::Alphabet::Rfc4648 { padding: false }, data).to_ascii_lowercase()
}

/// The fixed domain string of the checksum, `.onion checksum` in ASCII.
pub open spec fn checksum_domain() -> Seq<u8> {
    seq![46u8, 111u8, 110u8, 105u8, 111u8, 110u8, 32u8, 99u8, 104u8, 101u8, 99u8, 107u8,
        115u8, 117u8, 109u8]
}

/// The bytes hashed for the checksum: domain string, public key, version byte.
pub open spec fn onion_checksum_input(pk: Seq<u8>) -> Seq<u8> {
    checksum_domain() + pk + seq![ONION_VERSION]
}

/// The two checksum bytes of a public key: the first two bytes of the
/// SHA3-256 digest of the checksum input.
pub open spec fn spec_onion_checksum(pk: Seq<u8>) -> Seq<u8> {
    seq![
        sha3_256_of(onion_checksum_input(pk))[0],
        sha3_256_of(onion_checksum_input(pk))[1],
    ]
}

/// The 35 bytes that the address encodes: public key, checksum, version byte.
pub open spec fn onion_address_bytes(pk: Seq<u8>) -> Seq<u8> {
    pk + spec_onion_checksum(pk) + seq![ONION_VERSION]
}

/// The service address of a public key, without the `.onion` suffix.
pub open spec fn spec_onion_address(pk: Seq<u8>) -> Seq<char> {
    base32_lower_spec(onion_address_bytes(pk))
}

/// The checksum input of a 32-byte public key, built byte by byte.
fn checksum_input(public_key: &[u8]) -> (r: Vec<u8>)
    requires
        public_key@.len() == 32,
    ensures
        r@ == onion_checksum_input(public_key@),
{
    let mut input: Vec<u8> = Vec::new();
    input.push(46u8);
    input.push(111u8);
    input.push(110u8);
    input.push(105u8);
    input.push(111u8);
    input.push(110u8);
    input.push(32u8);
    input.push(99u8);
    input.push(104u8);
    input.push(101u8);
    input.push(99u8);
    input.push(107u8);
    input.push(115u8);
    input.push(117u8);
    input.push(109u8);
    proof {
        assert(input@ =~= checksum_domain());
    }
    let mut i: usize = 0;
    while i < public_key.len()
        invariant
            public_key@.len() == 32,
            i <= 32,
            input@ == checksum_domain() + public_key@.take(i as int),
        decreases 32 - i,
    {
        input.push(public_key[i]);
        i += 1;
        proof {
            assert(input@ =~= checksum_domain() + public_key@.take(i as int));
        }
    }
    input.push(ONION_VERSION);
    proof {
        assert(public_key@.take(32) =~= public_key@);
        assert(input@ =~= onion_checksum_input(public_key@));
    }
    input
}

/// The two checksum bytes of a 32-byte public key.
pub fn onion_checksum(public_key: &[u8]) -> (r: Vec<u8>)
    requires
        public_key@.len() == 32,
    ensures
        r@ == spec_onion_checksum(public_key@),
        r@.len() == 2,
{
    let input = checksum_input(public_key);
    let digest = sha3_256(input.as_slice());
    let mut r: Vec<u8> = Vec::new();
    r.push(digest[0]);
    r.push(digest[1]);
    proof {
        assert(r@ =~= spec_onion_checksum(public_key@));
    }
    r
}

/// The service address of a 32-byte public key: the lower-case, unpadded
/// base32 encoding of the key, its checksum, and the version byte — 56
/// digits, without the `.onion` suffix.
pub fn get_onion_address(public_key: &[u8]) -> (r: String)
    requires
        public_key@.len() == 32,
    ensures
        r@ == spec_onion_address(public_key@),
        r@.len() == 56,
{
    let checksum = onion_checksum(public_key);
    let mut buf: Vec<u8> = Vec::new();
    let mut i: usize = 0;
    while i < public_key.len()
        invariant
            public_key@.len() == 32,
            i <= 32,
            buf@ == public_key@.take(i as int),
        decreases 32 - i,
    {
        buf.push(public_key[i]);
        i += 1;
        proof {
            assert(buf@ =~= public_key@.take(i as int));
        }
    }
    buf.push(checksum[0]);
    buf.push(checksum[1]);
    buf.push(ONION_VERSION);
    proof {
        assert(public_key@.take(32) =~= public_key@);
        assert(buf@ =~= onion_address_bytes(public_key@));
        lemma_base32_len(buf@);
    }
    base32_encode_lower(buf.as_slice())
}

/// Law: the address of a 32-byte public key has 56 digits, all in the
/// lower-case base32 alphabet, and decoding it gives back the public key in
/// the first 32 bytes, then the checksum, then the version byte.
pub proof fn lemma_onion_address_roundtrip(pk: Seq<u8>)
    requires
        pk.len() == 32,
    ensures
        spec_onion_address(pk).len() == 56,
        forall|i: int| 0 <= i < 56 ==> is_b32_lower_char(#[trigger] spec_onion_address(pk)[i]),
        base32_decode_spec(spec_onion_address(pk)) =~= onion_address_bytes(pk),
        base32_decode_spec(spec_onion_address(pk)).take(32) =~= pk,
{
    let ab = onion_address_bytes(pk);
    assert(ab.len() == 35);
    lemma_base32_len(ab);
    lemma_base32_alphabet(ab);
    lemma_base32_roundtrip(ab);
    assert(ab.take(32) =~= pk);
}

/// Law: the address is a function of the public key alone — equal keys give
/// equal addresses, in every run.
pub proof fn lemma_onion_address_deterministic(pk1: Seq<u8>, pk2: Seq<u8>)
    requires
        pk1 == pk2,
    ensures
        spec_onion_address(pk1) == spec_onion_address(pk2),
{
}

/// Law: distinct public keys give distinct addresses — the address decodes
/// back to the key, so two keys with one address would be one key.
pub proof fn lemma_onion_address_injective(pk1: Seq<u8>, pk2: Seq<u8>)
    requires
        pk1.len() == 32,
        pk2.len() == 32,
        spec_onion_address(pk1) == spec_onion_address(pk2),
    ensures
        pk1 == pk2,
{
    lemma_onion_address_roundtrip(pk1);
    lemma_onion_address_roundtrip(pk2);
    assert(base32_decode_spec(spec_onion_address(pk1)).take(32) == base32_decode_spec(
        spec_onion_address(pk2),
    ).take(32));
}

} // verus!

use backtor::address::{get_onion_address, onion_checksum};
use backtor::keys::{keypair_from_sk, onion_address_from_seed};
use sha3::Digest;

fn sample_key() -> Vec<u8> {
    (0u8..32u8).collect()
}

#[test]
fn address_is_56_lowercase_base32_chars() {
    let key = sample_key();
    let addr = get_onion_address(&key);
    assert_eq!(addr.len(), 56);
    for c in addr.chars() {
        assert!(
            ('a'..='z').contains(&c) || ('2'..='7').contains(&c),
            "unexpected digit {c}"
        );
    }
}

#[test]
fn address_is_deterministic() {
    let key = sample_key();
    assert_eq!(get_onion_address(&key), get_onion_address(&key));
}

#[test]
fn address_decodes_back_to_key_checksum_and_version() {
    let key = sample_key();
    let addr = get_onion_address(&key);
    let decoded = base32::decode(
        base32::Alphabet::Rfc4648 { padding: false },
        &addr.to_ascii_uppercase(),
    )
    .expect("the address must be valid base32");
    assert_eq!(decoded.len(), 35);
    assert_eq!(&decoded[..32], &key[..]);
    assert_eq!(&decoded[32..34], &onion_checksum(&key)[..]);
    assert_eq!(decoded[34], 3);
}

#[test]
fn address_matches_direct_digest_and_encoding() {
    // Rebuild the address by direct calls into the digest and encoder.
    let key = sample_key();
    let mut hasher = sha3::Sha3_256::new();
    hasher.update(b".onion checksum");
    hasher.update(&key);
    hasher.update([3u8]);
    let digest = hasher.finalize();
    let mut buf = Vec::new();
    buf.extend_from_slice(&key);
    buf.push(digest[0]);
    buf.push(digest[1]);
    buf.push(3);
    let expected =
        base32::encode(base32::Alphabet::Rfc4648 { padding: false }, &buf).to_ascii_lowercase();
    assert_eq!(get_onion_address(&key), expected);
}

#[test]
fn checksum_changes_for_every_single_bit_flip() {
    let key = sample_key();
    let baseline = onion_checksum(&key);
    for byte in 0..32 {
        for bit in 0..8 {
            let mut flipped = key.clone();
            flipped[byte] ^= 1u8 << bit;
            assert_ne!(
                onion_checksum(&flipped),
                baseline,
                "flipping bit {bit} of byte {byte} left the checksum unchanged"
            );
        }
    }
}

#[test]
fn expansion_is_deterministic() {
    let seed = [7u8; 32];
    let kp1 = keypair_from_sk(seed);
    let kp2 = keypair_from_sk(seed);
    assert_eq!(kp1.to_secret_key_bytes(), kp2.to_secret_key_bytes());
    assert_eq!(kp1.public(), kp2.public());
    assert_eq!(onion_address_from_seed(seed), onion_address_from_seed(seed));
}

#[test]
fn seed_address_matches_public_key_address() {
    let seed = [42u8; 32];
    let pk = keypair_from_sk(seed).public();
    assert_eq!(onion_address_from_seed(seed), get_onion_address(&pk));
}

#[test]
fn zero_seed_gives_the_fixed_address() {
    let addr = onion_address_from_seed([0u8; 32]);
    assert_eq!(
        addr,
        "hnvcppgow2sc2yvdvdicu3ynonsteflxdxrehjr2ybekdc2z3iu63yid"
    );
}

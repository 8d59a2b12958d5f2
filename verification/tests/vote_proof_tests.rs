use sovereign_core::cipher::encrypt_with_nonce;
use sovereign_core::vote_proof::{
    decode_vote, encode_vote, generate_proof, verify_binding, verify_proof, COMMITMENT_LEN,
    PROOF_LEN, PROOF_VERSION,
};
use sovereign_core::{CoreError, VoteProof};

fn proof_hex(text: &str) -> Vec<u8> {
    let digits: Vec<u8> = text
        .bytes()
        .map(|c| match c {
            b'0'..=b'9' => c - b'0',
            b'a'..=b'f' => c - b'a' + 10,
            _ => panic!("not a hex digit"),
        })
        .collect();
    digits.chunks(2).map(|pair| pair[0] * 16 + pair[1]).collect()
}

fn proof_key() -> Vec<u8> {
    (0u8..32).collect()
}

fn proof_nonce() -> [u8; 16] {
    let mut nonce = [0u8; 16];
    for (i, byte) in nonce.iter_mut().enumerate() {
        *byte = 100 + i as u8;
    }
    nonce
}

fn sample_proof(vote: bool) -> VoteProof {
    let key = proof_key();
    let ballot = encrypt_with_nonce(&key, &proof_nonce(), &[encode_vote(vote)]).unwrap();
    generate_proof(&key, "cid:abc123", vote, &ballot).unwrap()
}

#[test]
fn votes_are_encoded_as_one_and_zero() {
    assert_eq!(encode_vote(true), 1);
    assert_eq!(encode_vote(false), 0);
    assert_eq!(decode_vote(1), Ok(true));
    assert_eq!(decode_vote(0), Ok(false));
}

#[test]
fn a_byte_that_encodes_no_vote_is_refused() {
    for byte in 2u8..=255 {
        assert_eq!(decode_vote(byte), Err(CoreError::MalformedInput));
    }
}

#[test]
fn the_proof_for_a_yes_has_the_expected_bytes() {
    let proof = sample_proof(true);
    assert_eq!(proof.version, PROOF_VERSION);
    assert_eq!(proof.identity_reference, "cid:abc123");
    assert_eq!(
        proof.ciphertext_commitment,
        proof_hex("39820605f258eb49e75bc2094e11f7abd952482e762ed906e232ca0d182e6d78")
    );
    assert_eq!(
        proof.proof_bytes,
        proof_hex(
            "39820605f258eb49e75bc2094e11f7abd952482e762ed906e232ca0d182e6d7816c564d0fab74d55fc\
             18d45653d7503419e8176356afd592d5bf254863042287"
        )
    );
}

#[test]
fn the_proof_for_a_no_has_the_expected_bytes() {
    let proof = sample_proof(false);
    assert_eq!(
        proof.ciphertext_commitment,
        proof_hex("ea77ebd895a83c07c0bb58c59c26d977be94885470fa5ef6867509fe44ed8811")
    );
    assert_eq!(
        proof.proof_bytes,
        proof_hex(
            "ea77ebd895a83c07c0bb58c59c26d977be94885470fa5ef6867509fe44ed881147dfa4023de077e80c\
             547b7c8a8ff574c0164dd28c5e0dbb07e7057118c0b534"
        )
    );
}

#[test]
fn a_generated_proof_verifies() {
    let key = proof_key();
    for vote in [true, false] {
        for identity in ["cid:abc123", "x", "bafybeigdyrzt5sfp7udm7hu76uh7y26nf3efuylqabf3oclgtqy55fbzdi", "z\u{fc}rich"] {
            for ballot in [&b""[..], &b"\x01"[..], &[0u8; 49][..], &[0xffu8; 200][..]] {
                let proof = generate_proof(&key, identity, vote, ballot).unwrap();
                assert!(verify_proof(&key, &proof));
            }
        }
    }
}

#[test]
fn the_vote_changes_the_commitment() {
    let key = proof_key();
    let yes = generate_proof(&key, "cid:abc123", true, b"ballot").unwrap();
    let no = generate_proof(&key, "cid:abc123", false, b"ballot").unwrap();
    assert_ne!(yes.ciphertext_commitment, no.ciphertext_commitment);
    assert_ne!(yes.proof_bytes, no.proof_bytes);
}

#[test]
fn the_ciphertext_changes_the_commitment() {
    let key = proof_key();
    let one = generate_proof(&key, "cid:abc123", true, b"ballot one").unwrap();
    let two = generate_proof(&key, "cid:abc123", true, b"ballot two").unwrap();
    assert_ne!(one.ciphertext_commitment, two.ciphertext_commitment);
}

#[test]
fn the_size_of_a_proof_does_not_depend_on_the_vote() {
    for vote in [true, false] {
        let proof = sample_proof(vote);
        assert_eq!(proof.proof_bytes.len(), PROOF_LEN);
        assert_eq!(proof.ciphertext_commitment.len(), COMMITMENT_LEN);
    }
}

#[test]
fn an_empty_identity_is_refused() {
    assert_eq!(
        generate_proof(&proof_key(), "", true, b"ballot"),
        Err(CoreError::ProofGeneration)
    );
}

#[test]
fn a_key_of_any_length_generates_and_verifies() {
    for len in [0usize, 1, 31, 33, 64, 65, 200] {
        let key = vec![3u8; len];
        let proof = generate_proof(&key, "cid:abc123", false, b"ballot").unwrap();
        assert!(verify_proof(&key, &proof));
    }
}

#[test]
fn altering_any_byte_of_the_commitment_is_detected() {
    let key = proof_key();
    let proof = sample_proof(true);
    for at in 0..proof.ciphertext_commitment.len() {
        let mut altered = proof.clone();
        altered.ciphertext_commitment[at] ^= 0x01;
        assert!(!verify_proof(&key, &altered));
    }
}

#[test]
fn altering_any_byte_of_the_proof_bytes_is_detected() {
    let key = proof_key();
    let proof = sample_proof(true);
    for at in 0..proof.proof_bytes.len() {
        let mut altered = proof.clone();
        altered.proof_bytes[at] ^= 0x40;
        assert!(!verify_proof(&key, &altered));
    }
}

#[test]
fn altering_the_identity_is_detected() {
    let key = proof_key();
    let mut altered = sample_proof(true);
    altered.identity_reference = String::from("cid:abc124");
    assert!(!verify_proof(&key, &altered));
}

#[test]
fn a_malformed_record_does_not_verify() {
    let key = proof_key();
    let proof = sample_proof(true);

    let mut other_version = proof.clone();
    other_version.version = 2;
    assert!(!verify_proof(&key, &other_version));

    let mut no_identity = proof.clone();
    no_identity.identity_reference = String::new();
    assert!(!verify_proof(&key, &no_identity));

    let mut short_commitment = proof.clone();
    short_commitment.ciphertext_commitment.pop();
    assert!(!verify_proof(&key, &short_commitment));

    let mut long_commitment = proof.clone();
    long_commitment.ciphertext_commitment.push(0);
    assert!(!verify_proof(&key, &long_commitment));

    let mut short_proof = proof.clone();
    short_proof.proof_bytes.truncate(32);
    assert!(!verify_proof(&key, &short_proof));

    let mut long_proof = proof.clone();
    long_proof.proof_bytes.push(0);
    assert!(!verify_proof(&key, &long_proof));

    let empty = VoteProof {
        version: PROOF_VERSION,
        proof_bytes: Vec::new(),
        identity_reference: String::from("cid:abc123"),
        ciphertext_commitment: Vec::new(),
    };
    assert!(!verify_proof(&key, &empty));
}

#[test]
fn another_key_does_not_verify() {
    let proof = sample_proof(true);
    assert!(!verify_proof(&[9u8; 32], &proof));
}

#[test]
fn a_generated_proof_is_bound_to_its_ballot() {
    let key = proof_key();
    for vote in [true, false] {
        let ballot = encrypt_with_nonce(&key, &proof_nonce(), &[encode_vote(vote)]).unwrap();
        let proof = generate_proof(&key, "cid:abc123", vote, &ballot).unwrap();
        assert!(verify_binding(&key, &proof, &ballot));
    }
}

#[test]
fn a_proof_is_not_bound_to_another_ballot() {
    let key = proof_key();
    let ballot = encrypt_with_nonce(&key, &proof_nonce(), &[1]).unwrap();
    let other = encrypt_with_nonce(&key, &[7u8; 16], &[1]).unwrap();
    let proof = generate_proof(&key, "cid:abc123", true, &ballot).unwrap();
    assert!(verify_proof(&key, &proof));
    assert!(!verify_binding(&key, &proof, &other));
    for at in 0..ballot.len() {
        let mut altered = ballot.clone();
        altered[at] ^= 0x04;
        assert!(!verify_binding(&key, &proof, &altered));
    }
}

#[test]
fn a_record_that_is_not_valid_is_bound_to_nothing() {
    let key = proof_key();
    let ballot = encrypt_with_nonce(&key, &proof_nonce(), &[0]).unwrap();
    let mut proof = generate_proof(&key, "cid:abc123", false, &ballot).unwrap();
    proof.proof_bytes[40] ^= 1;
    assert!(!verify_binding(&key, &proof, &ballot));
    let sound = generate_proof(&key, "cid:abc123", false, &ballot).unwrap();
    assert!(!verify_binding(&[1u8; 32], &sound, &ballot));
}

use channel_ledger::merkle::{bytes_eq, bytes_le, combine, compute_root, verify};

const SHA256_ABC: [u8; 32] = [
    0xba, 0x78, 0x16, 0xbf, 0x8f, 0x01, 0xcf, 0xea, 0x41, 0x41, 0x40, 0xde, 0x5d, 0xae, 0x22, 0x23,
    0xb0, 0x03, 0x61, 0xa3, 0x96, 0x17, 0x7a, 0x9c, 0xb4, 0x10, 0xff, 0x61, 0xf2, 0x00, 0x15, 0xad,
];

const SHA256_EMPTY: [u8; 32] = [
    0xe3, 0xb0, 0xc4, 0x42, 0x98, 0xfc, 0x1c, 0x14, 0x9a, 0xfb, 0xf4, 0xc8, 0x99, 0x6f, 0xb9, 0x24,
    0x27, 0xae, 0x41, 0xe4, 0x64, 0x9b, 0x93, 0x4c, 0xa4, 0x95, 0x99, 0x1b, 0x78, 0x52, 0xb8, 0x55,
];

const SHA256_DROP1_2: [u8; 32] = [
    0xe6, 0xff, 0x4a, 0xae, 0x7b, 0xae, 0xba, 0x2a, 0xda, 0x20, 0xd1, 0xb9, 0xf7, 0x0e, 0xc8, 0x3e,
    0xcc, 0x66, 0xb5, 0x2f, 0x54, 0x39, 0xd4, 0x27, 0xfe, 0x7f, 0x24, 0xef, 0x22, 0x62, 0xc4, 0x63,
];

// SHA-256 of the text "sibling"
const SIBLING: [u8; 32] = [
    0x7d, 0x10, 0xde, 0x85, 0x54, 0xed, 0x5c, 0xa4, 0x0f, 0x9d, 0x0f, 0x0e, 0x0f, 0x43, 0x75, 0xb5,
    0xb3, 0x38, 0xaf, 0x3f, 0xb9, 0x6d, 0x33, 0xc9, 0xb2, 0xf5, 0x3b, 0x52, 0x89, 0xb8, 0xf4, 0xfe,
];

// SHA-256 of SIBLING followed by SHA256_DROP1_2 (the sibling is the smaller of the two)
const ROOT_OF_DROP1_2_AND_SIBLING: [u8; 32] = [
    0xad, 0xe7, 0x0a, 0x36, 0xe9, 0x48, 0x48, 0x4a, 0xd1, 0xcc, 0x70, 0x8e, 0xac, 0x28, 0x5d, 0xcc,
    0xd3, 0x86, 0xe1, 0xda, 0xff, 0x8b, 0xb8, 0x6c, 0x37, 0x24, 0xd2, 0x72, 0x5e, 0x25, 0x5e, 0xf9,
];

#[test]
fn empty_proof_compares_the_leaf_digest_with_the_root() {
    assert!(verify(&SHA256_ABC, b"abc", &vec![]));
    assert!(verify(&SHA256_EMPTY, b"", &vec![]));
    assert!(verify(&SHA256_DROP1_2, b"drop1:2", &vec![]));
    // the leaf input itself is not its digest
    assert!(!verify(b"abc", b"abc", &vec![]));
    assert!(!verify(&SHA256_ABC, b"abd", &vec![]));
    assert!(!verify(&SHA256_ABC[..31], b"abc", &vec![]));
    assert!(!verify(&[], b"abc", &vec![]));
}

#[test]
fn compute_root_of_an_empty_proof_is_the_leaf_digest() {
    assert_eq!(compute_root(b"abc", &vec![]), SHA256_ABC.to_vec());
}

#[test]
fn one_step_hashes_the_smaller_string_first() {
    let proof = vec![SIBLING.to_vec()];
    assert_eq!(compute_root(b"drop1:2", &proof), ROOT_OF_DROP1_2_AND_SIBLING.to_vec());
    assert!(verify(&ROOT_OF_DROP1_2_AND_SIBLING, b"drop1:2", &proof));
    assert!(!verify(&ROOT_OF_DROP1_2_AND_SIBLING, b"drop1:3", &proof));
    assert!(!verify(&ROOT_OF_DROP1_2_AND_SIBLING, b"drop1:2", &vec![]));
    assert!(!verify(&ROOT_OF_DROP1_2_AND_SIBLING, b"drop1:2", &vec![SHA256_ABC.to_vec()]));
}

#[test]
fn larger_first_concatenation_is_not_accepted() {
    // the digest of the leaf digest followed by the (smaller) sibling
    let mut larger_first = SHA256_DROP1_2.to_vec();
    larger_first.extend_from_slice(&SIBLING);
    let wrong_root = near_sdk::env::sha256(&larger_first);
    assert_ne!(wrong_root, ROOT_OF_DROP1_2_AND_SIBLING.to_vec());
    assert!(!verify(&wrong_root, b"drop1:2", &vec![SIBLING.to_vec()]));
}

#[test]
fn verification_is_repeatable() {
    let proof = vec![SIBLING.to_vec(), SHA256_ABC.to_vec()];
    let root = compute_root(b"leaf", &proof);
    for _ in 0..5 {
        assert_eq!(compute_root(b"leaf", &proof), root);
        assert!(verify(&root, b"leaf", &proof));
        assert!(!verify(&SHA256_ABC, b"leaf", &proof));
    }
}

#[test]
fn matching_root_is_accepted_at_every_depth() {
    // siblings built with the smaller-first rule, by an independent fold
    for depth in 0..=32usize {
        let leaf = format!("channel:{}", depth);
        let proof: Vec<Vec<u8>> =
            (0..depth).map(|i| near_sdk::env::sha256(format!("sibling {} {}", depth, i))).collect();
        let mut hash = near_sdk::env::sha256(leaf.as_bytes());
        for sibling in &proof {
            let joined = if hash <= *sibling {
                [hash.as_slice(), sibling.as_slice()].concat()
            } else {
                [sibling.as_slice(), hash.as_slice()].concat()
            };
            hash = near_sdk::env::sha256(&joined);
        }
        assert_eq!(compute_root(leaf.as_bytes(), &proof), hash, "depth {}", depth);
        assert!(verify(&hash, leaf.as_bytes(), &proof), "depth {}", depth);
        if depth > 0 {
            let mut shorter = proof.clone();
            shorter.pop();
            assert!(!verify(&hash, leaf.as_bytes(), &shorter), "depth {}", depth);
        }
    }
}

#[test]
fn combine_puts_the_smaller_string_first() {
    assert_eq!(combine(&[1, 2], &[1, 3]), vec![1, 2, 1, 3]);
    assert_eq!(combine(&[1, 3], &[1, 2]), vec![1, 2, 1, 3]);
    assert_eq!(combine(&[1, 2], &[1, 1, 9]), vec![1, 1, 9, 1, 2]);
    assert_eq!(combine(&[1], &[1, 0]), vec![1, 1, 0]);
    assert_eq!(combine(&[1, 0], &[1]), vec![1, 1, 0]);
    assert_eq!(combine(&[], &[5]), vec![5]);
    assert_eq!(combine(&[5], &[]), vec![5]);
    assert_eq!(combine(&[7, 7], &[7, 7]), vec![7, 7, 7, 7]);
    assert_eq!(combine(&[0xff], &[0x00, 0xff]), vec![0x00, 0xff, 0xff]);
}

#[test]
fn combine_does_not_depend_on_the_order_of_its_arguments() {
    let samples: [&[u8]; 6] = [&[], &[0], &[0, 0], &[1], &[0xff, 1], &[0xff]];
    for a in samples {
        for b in samples {
            assert_eq!(combine(a, b), combine(b, a));
        }
    }
}

#[test]
fn bytes_le_is_the_lexicographic_order() {
    let samples: [&[u8]; 7] = [&[], &[0], &[0, 0], &[0, 1], &[1], &[1, 0], &[255]];
    for a in samples {
        for b in samples {
            assert_eq!(bytes_le(a, b), a <= b, "{:?} {:?}", a, b);
            assert_eq!(bytes_eq(a, b), a == b, "{:?} {:?}", a, b);
        }
    }
}

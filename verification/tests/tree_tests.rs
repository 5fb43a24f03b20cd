use storage_map::digest::sha512;
use storage_map::level::Level;
use storage_map::merkle_proof::{ErrorKind, Proof};
use storage_map::tree::{tree_size, MerkleTree};

/// Deterministic pseudo-random bytes, `count` blocks of 1 KiB each.
fn random_leaves(leaf_count: usize) -> Vec<Vec<u8>> {
    let mut seed: u64 = 0x2545f4914f6cdd1d;
    (0..leaf_count)
        .map(|_| {
            let mut buf = vec![0u8; 1024];
            for b in buf.iter_mut() {
                seed = seed.wrapping_mul(6364136223846793005).wrapping_add(1442695040888963407);
                *b = (seed >> 33) as u8;
            }
            buf
        })
        .collect()
}

fn lower_level_digests(digests: &Vec<Vec<u8>>) -> Vec<Vec<u8>> {
    let mut result: Vec<Vec<u8>> = Vec::new();

    for i in (0..digests.len()).step_by(2) {
        let mut input = digests[i].clone();
        if i + 1 < digests.len() {
            input.extend_from_slice(&digests[i + 1][..]);
        }
        result.push(sha512(&input[..]));
    }

    result
}

#[test]
fn tree_test_new() {
    let mut tree;

    tree = MerkleTree::new(1);
    assert_eq!(tree.leaf_count(), 1);
    assert_eq!(tree.height(), 2);

    tree = MerkleTree::new(2);
    assert_eq!(tree.leaf_count(), 2);
    assert_eq!(tree.height(), 2);

    tree = MerkleTree::new(3);
    assert_eq!(tree.leaf_count(), 3);
    assert_eq!(tree.height(), 3);

    tree = MerkleTree::new(3);
    assert_eq!(tree.leaf_count(), 3);
    assert_eq!(tree.height(), 3);
}

#[test]
fn tree_test_build() {
    let leaf_count = 10;

    let leaves = random_leaves(leaf_count);
    let mut digests: Vec<Vec<u8>> = leaves.iter().map(|e| sha512(&e[..])).collect();

    let mut level = Level::new(0, leaves.len());
    let tree = MerkleTree::from_blocks(&leaves);
    assert_eq!(tree.built(), true);
    assert_eq!(tree.leaf_count(), leaf_count);
    assert_eq!(tree.height(), 5);

    for _ in 0..tree.height() {
        for i in level.start..level.end {
            let expected = &digests[i - level.start];
            assert_eq!(tree.node_hash(i).unwrap(), *expected);
        }

        match level.down() {
            Some(lower) => {
                level = lower;
                digests = lower_level_digests(&digests);
            },
            None => break,
        };
    }
}

#[test]
fn test_create_proof() {
    let mut tree;
    let mut proof;

    for leaf_count in [1usize, 10, 13].iter() {
        tree = MerkleTree::from_blocks(&random_leaves(*leaf_count));
        proof = tree.prove(leaf_count - 1).unwrap();

        assert_eq!(proof.leaf_index, leaf_count - 1);
        assert_eq!(proof.path.len(), tree.height());
        assert_eq!(proof.partial, false);
    }
}

#[test]
fn test_verify_proof() {
    for leaf_count in [1usize, 10, 13].iter() {
        let tree = MerkleTree::from_blocks(&random_leaves(*leaf_count));
        for leaf in 0..*leaf_count {
            let proof = tree.prove(leaf).unwrap();
            tree.verify(&proof).unwrap();
        }
    }
}

#[test]
fn test_verify_partial_proof() {
    let leaf_count = 10;
    let tree = MerkleTree::from_blocks(&random_leaves(leaf_count));

    for leaf in 0..leaf_count {
        let mut proof = tree.prove(leaf).unwrap();
        {
            let len = proof.path.len();
            proof.partial = true;
            proof.path.remove(len - 1);
        }

        match tree.verify(&proof) {
            Ok(()) => panic!("Partial proof verification should return an error"),
            Err(err) => {
                if err.kind != ErrorKind::PartialProof {
                    panic!("Verification failed with {:?}", err.kind);
                }
            },
        }
    }
}

#[test]
fn test_verify_errors() {
    let leaf_count = 10;
    let tree = MerkleTree::from_blocks(&random_leaves(leaf_count));
    let verify = |proof: &Proof, kind: ErrorKind| match tree.verify(&proof) {
        Ok(()) => panic!("Proof verification should return an error"),
        Err(err) => {
            if err.kind != kind {
                panic!("Verification failed with {:?}", err.kind);
            }
        },
    };

    let mut proof = Proof {
        leaf_index: 10,
        leaf_hash: Vec::new(),
        path: vec![Some(Vec::new())],
        partial: true,
    };
    verify(&proof, ErrorKind::IndexOutOfRange);

    proof.leaf_index = 1;
    verify(&proof, ErrorKind::InvalidLength);

    proof.path = vec![Some(Vec::new()), Some(Vec::new())];
    verify(&proof, ErrorKind::InvalidHash);
}

#[test]
fn test_tamper_detection() {
    // changing any byte of the leaf hash, or any path entry, is rejected
    let tree = MerkleTree::from_blocks(&random_leaves(10));
    let good = tree.prove(3).unwrap();
    tree.verify(&good).unwrap();

    let mut bad = good.clone();
    bad.leaf_hash[5] ^= 0xff;
    assert_eq!(tree.verify(&bad).unwrap_err().kind, ErrorKind::InvalidHash);

    let mut bad = good.clone();
    if let Some(entry) = bad.path[1].as_mut() {
        entry[0] ^= 1;
    }
    assert_eq!(tree.verify(&bad).unwrap_err().kind, ErrorKind::InvalidHash);

    let mut bad = good.clone();
    bad.path.pop();
    assert_eq!(tree.verify(&bad).unwrap_err().kind, ErrorKind::InvalidLength);
}

#[test]
fn test_forged_complete_proof() {
    // a proof from a half-built tree claiming completeness is rejected
    let blocks = random_leaves(5);
    let mut tree = MerkleTree::new(5);
    for i in 0..4 {
        tree.set(i, &sha512(&blocks[i][..])).unwrap();
    }
    assert!(!tree.built());

    let mut proof = tree.prove(0).unwrap();
    assert!(proof.partial);
    proof.partial = false;
    assert_eq!(tree.verify(&proof).unwrap_err().kind, ErrorKind::PartialProof);
}

#[test]
fn test_set_idempotent() {
    // setting the same leaf hash twice leaves the same tree
    let blocks = random_leaves(5);
    let mut once = MerkleTree::new(5);
    let mut twice = MerkleTree::new(5);
    for i in 0..5 {
        let h = sha512(&blocks[i][..]);
        once.set(i, &h).unwrap();
        twice.set(i, &h).unwrap();
        twice.set(i, &h).unwrap();
    }

    let (node_count, _) = tree_size(5);
    for n in 0..node_count {
        assert_eq!(once.has(n), twice.has(n));
        assert_eq!(once.node_hash(n).unwrap(), twice.node_hash(n).unwrap());
    }
}

#[test]
fn test_sha512_known_vector() {
    let digest = sha512(b"abc");
    let expected: Vec<u8> = vec![
        0xdd, 0xaf, 0x35, 0xa1, 0x93, 0x61, 0x7a, 0xba, 0xcc, 0x41, 0x73, 0x49, 0xae, 0x20, 0x41,
        0x31, 0x12, 0xe6, 0xfa, 0x4e, 0x89, 0xa9, 0x7e, 0xa2, 0x0a, 0x9e, 0xee, 0xe6, 0x4b, 0x55,
        0xd3, 0x9a, 0x21, 0x92, 0x99, 0x2a, 0x27, 0x4f, 0xc1, 0xa8, 0x36, 0xba, 0x3c, 0x23, 0xa3,
        0xfe, 0xeb, 0xbd, 0x45, 0x4d, 0x44, 0x23, 0x64, 0x3c, 0xe8, 0x0e, 0x2a, 0x9a, 0xc9, 0x4f,
        0xa5, 0x4c, 0xa4, 0x9f,
    ];
    assert_eq!(digest, expected);
}

#[test]
fn test_validate_index_mismatch() {
    let tree = MerkleTree::from_blocks(&random_leaves(10));
    let p1 = tree.prove(1).unwrap();
    let p2 = tree.prove(2).unwrap();
    assert_eq!(p1.validate(&p2).unwrap_err().kind, ErrorKind::InvalidIndex);
}

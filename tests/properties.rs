use toy_pcd_wallet::{
    add_owned_note, apply_block, cm_from_rho, compute_next_proof, encode_delta, hash_bytes,
    nf_from_rho, verify_chain, verify_transition, wallet_commitment, BlockDelta, NoteCommitment,
    SecretMap, SequenceError, WalletState,
};

fn note(s: &str) -> NoteCommitment {
    NoteCommitment {
        commitment: s.to_string(),
    }
}

fn genesis(notes: &[&str]) -> WalletState {
    WalletState {
        anchor_height: 0,
        notes: notes.iter().map(|s| note(s)).collect(),
        proof: hash_bytes(b"genesis"),
        secrets: SecretMap::new(),
    }
}

fn sorted_ids(s: &WalletState) -> Vec<String> {
    let mut v: Vec<String> = s.notes.iter().map(|n| n.commitment.clone()).collect();
    v.sort();
    v
}

#[test]
fn hash_of_empty_input_is_keccak256() {
    assert_eq!(
        hash_bytes(b""),
        "c5d2460186f7233c927e7db2dcc703c0e500b653ca82273b7bfad8045d85a470"
    );
}

#[test]
fn hash_is_lowercase_hex_of_64_chars() {
    let h = hash_bytes(b"genesis");
    assert_eq!(h.len(), 64);
    assert!(h.chars().all(|c| c.is_ascii_digit() || ('a'..='f').contains(&c)));
    assert_eq!(h, hash_bytes(b"genesis"));
    assert_ne!(h, hash_bytes(b"genesis!"));
}

#[test]
fn commitment_and_nullifier_are_tagged_hashes() {
    let rho = [7u8; 32];
    let mut cm_input = b"cm".to_vec();
    cm_input.extend_from_slice(&rho);
    let mut nf_input = b"nf".to_vec();
    nf_input.extend_from_slice(&rho);
    assert_eq!(cm_from_rho(&rho), hash_bytes(&cm_input));
    assert_eq!(nf_from_rho(&rho), hash_bytes(&nf_input));
    assert_ne!(cm_from_rho(&rho), nf_from_rho(&rho));
    assert_ne!(nf_from_rho(&rho), nf_from_rho(&[8u8; 32]));
}

#[test]
fn wallet_commitment_hashes_sorted_joined_commitments() {
    let c = wallet_commitment(&[note("b"), note("ab"), note("a")]);
    assert_eq!(c, hash_bytes(b"a;ab;b"));
    assert_eq!(wallet_commitment(&[]), hash_bytes(b""));
    assert_eq!(wallet_commitment(&[note("x")]), hash_bytes(b"x"));
}

#[test]
fn wallet_commitment_ignores_any_permutation() {
    let a = wallet_commitment(&[note("n3"), note("n1"), note("n2"), note("n1")]);
    let b = wallet_commitment(&[note("n1"), note("n2"), note("n1"), note("n3")]);
    let c = wallet_commitment(&[note("n1"), note("n2"), note("n3")]);
    assert_eq!(a, b);
    assert_ne!(a, c);
}

#[test]
fn delta_encoding_is_compact_json() {
    let d = BlockDelta {
        height: 7,
        new_notes: vec![note("a\"b"), note("c")],
        nullifiers: vec!["x".to_string(), "y\\".to_string()],
    };
    assert_eq!(
        encode_delta(&d),
        "{\"height\":7,\"new_notes\":[{\"commitment\":\"a\\\"b\"},{\"commitment\":\"c\"}],\"nullifiers\":[\"x\",\"y\\\\\"]}"
    );
    let empty = BlockDelta {
        height: 0,
        new_notes: vec![],
        nullifiers: vec![],
    };
    assert_eq!(
        encode_delta(&empty),
        "{\"height\":0,\"new_notes\":[],\"nullifiers\":[]}"
    );
}

#[test]
fn next_proof_hashes_previous_delta_and_aggregate() {
    let d = BlockDelta {
        height: 12,
        new_notes: vec![note("n")],
        nullifiers: vec!["f".to_string()],
    };
    let notes = vec![note("q"), note("p")];
    let mut msg = String::from("prev");
    msg.push_str("{\"height\":12,\"new_notes\":[{\"commitment\":\"n\"}],\"nullifiers\":[\"f\"]}");
    msg.push_str(&hash_bytes(b"p;q"));
    assert_eq!(
        compute_next_proof("prev", &d, &notes),
        hash_bytes(msg.as_bytes())
    );
}

#[test]
fn height_must_follow_anchor() {
    let g = genesis(&["a"]);
    for h in [0u64, 2, 5, u64::MAX] {
        let d = BlockDelta {
            height: h,
            new_notes: vec![],
            nullifiers: vec![],
        };
        assert_eq!(
            apply_block(&g, &d).unwrap_err(),
            SequenceError {
                got: h,
                anchor_height: 0
            }
        );
    }
    let mut top = genesis(&[]);
    top.anchor_height = u64::MAX;
    let d = BlockDelta {
        height: 0,
        new_notes: vec![],
        nullifiers: vec![],
    };
    assert!(apply_block(&top, &d).is_err());
}

#[test]
fn owned_note_from_fixed_secret() {
    let mut g = genesis(&["a"]);
    let rho = [3u8; 32];
    let cm = add_owned_note(&mut g, rho);
    assert_eq!(cm.commitment, cm_from_rho(&rho));
    assert_eq!(g.secrets.get(&cm.commitment), Some(&rho));
    assert_eq!(g.secrets.len(), 1);
    assert_eq!(g.notes.len(), 1);
    let again = add_owned_note(&mut g, rho);
    assert_eq!(again.commitment, cm.commitment);
    assert_eq!(g.secrets.len(), 1);
}

#[test]
fn spend_removes_note_and_secret_and_keeps_others() {
    let mut g = genesis(&["a"]);
    let c1 = add_owned_note(&mut g, [1u8; 32]);
    let c2 = add_owned_note(&mut g, [2u8; 32]);
    g.notes.push(c1.clone());
    g.notes.push(c2.clone());
    let d = BlockDelta {
        height: 1,
        new_notes: vec![note("b")],
        nullifiers: vec!["foreign".to_string(), nf_from_rho(&[1u8; 32])],
    };
    let s1 = apply_block(&g, &d).unwrap();
    let mut expected = vec!["a".to_string(), "b".to_string(), c2.commitment.clone()];
    expected.sort();
    assert_eq!(sorted_ids(&s1), expected);
    assert!(!s1.secrets.contains_key(&c1.commitment));
    assert!(s1.secrets.contains_key(&c2.commitment));
    assert_eq!(s1.secrets.len(), 1);
    assert!(verify_transition(&g, &s1, &d));
}

#[test]
fn foreign_nullifiers_leave_notes_and_secrets() {
    let mut g = genesis(&["a", "b"]);
    let c = add_owned_note(&mut g, [9u8; 32]);
    g.notes.push(c.clone());
    let d = BlockDelta {
        height: 1,
        new_notes: vec![note("n")],
        nullifiers: vec!["zzz".to_string(), cm_from_rho(&[9u8; 32])],
    };
    let s1 = apply_block(&g, &d).unwrap();
    let ids: Vec<String> = s1.notes.iter().map(|n| n.commitment.clone()).collect();
    assert_eq!(
        ids,
        vec!["a".to_string(), "b".to_string(), c.commitment.clone(), "n".to_string()]
    );
    assert!(s1.secrets.contains_key(&c.commitment));
    assert_eq!(s1.secrets.len(), 1);
}

#[test]
fn next_proof_matches_recomputation() {
    let g = genesis(&["a"]);
    let d = BlockDelta {
        height: 1,
        new_notes: vec![note("b")],
        nullifiers: vec![],
    };
    let s1 = apply_block(&g, &d).unwrap();
    assert_eq!(s1.proof, compute_next_proof(&g.proof, &d, &s1.notes));
    assert_eq!(
        s1.proof,
        compute_next_proof(&g.proof, &d, &[note("b"), note("a")])
    );
}

#[test]
fn verify_transition_rejects_bad_heights_and_proofs() {
    let g = genesis(&["a"]);
    let d = BlockDelta {
        height: 1,
        new_notes: vec![],
        nullifiers: vec![],
    };
    let s1 = apply_block(&g, &d).unwrap();
    assert!(verify_transition(&g, &s1, &d));

    let mut wrong_height = s1.clone();
    wrong_height.anchor_height = 2;
    assert!(!verify_transition(&g, &wrong_height, &d));

    let mut wrong_proof = s1.clone();
    wrong_proof.proof = hash_bytes(b"other");
    assert!(!verify_transition(&g, &wrong_proof, &d));

    let mut dropped = s1.clone();
    dropped.notes.clear();
    assert!(!verify_transition(&g, &dropped, &d));

    let mut reordered = s1.clone();
    reordered.notes.reverse();
    assert!(verify_transition(&g, &reordered, &d));
}

#[test]
fn end_to_end_chain() {
    let mut state = genesis(&["note_a", "note_b"]);
    let owned = add_owned_note(&mut state, [5u8; 32]);
    state.notes.push(owned.clone());
    let nf_owned = nf_from_rho(&[5u8; 32]);

    let deltas = vec![
        BlockDelta {
            height: 1,
            new_notes: vec![note("note_1")],
            nullifiers: vec![],
        },
        BlockDelta {
            height: 2,
            new_notes: vec![note("note_2")],
            nullifiers: vec![nf_owned],
        },
        BlockDelta {
            height: 3,
            new_notes: vec![note("note_3")],
            nullifiers: vec![],
        },
    ];

    let mut states = vec![state.clone()];
    for d in &deltas {
        let next = apply_block(&state, d).unwrap();
        assert!(verify_transition(&state, &next, d));
        state = next;
        states.push(state.clone());
    }

    let mut after_first = vec![
        "note_a".to_string(),
        "note_b".to_string(),
        owned.commitment.clone(),
        "note_1".to_string(),
    ];
    after_first.sort();
    assert_eq!(sorted_ids(&states[1]), after_first);
    assert!(states[1].secrets.contains_key(&owned.commitment));

    let mut after_spend = vec![
        "note_a".to_string(),
        "note_b".to_string(),
        "note_1".to_string(),
        "note_2".to_string(),
    ];
    after_spend.sort();
    assert_eq!(sorted_ids(&states[2]), after_spend);
    assert!(!states[2].secrets.contains_key(&owned.commitment));
    assert_eq!(states[2].secrets.len(), 0);

    assert!(verify_chain(&states, &deltas));
    assert!(!verify_chain(&states[..3], &deltas));

    for i in 0..deltas.len() {
        let mut flipped = deltas.clone();
        flipped[i].new_notes[0] = note("forged");
        assert!(!verify_chain(&states, &flipped));
    }
}

#[test]
fn chain_length_mismatch_is_rejected() {
    let g = genesis(&[]);
    let d = BlockDelta {
        height: 1,
        new_notes: vec![],
        nullifiers: vec![],
    };
    let s1 = apply_block(&g, &d).unwrap();
    assert!(!verify_chain(&[], &[]));
    assert!(!verify_chain(&[], &[d.clone()]));
    assert!(!verify_chain(&[g.clone(), s1.clone(), s1.clone()], &[d.clone()]));
    assert!(verify_chain(&[g, s1], &[d]));
}

#[test]
fn secret_map_insert_replaces_existing_key() {
    let mut m = SecretMap::new();
    assert_eq!(m.len(), 0);
    m.insert("k".to_string(), [1u8; 32]);
    m.insert("j".to_string(), [2u8; 32]);
    m.insert("k".to_string(), [3u8; 32]);
    assert_eq!(m.len(), 2);
    assert_eq!(m.get(&"k".to_string()), Some(&[3u8; 32]));
    assert_eq!(m.get(&"j".to_string()), Some(&[2u8; 32]));
    assert_eq!(m.get(&"z".to_string()), None);
    assert_eq!(m.key_at(0), "k");
    assert_eq!(m.secret_at(1), &[2u8; 32]);
    let w = m.without(&vec!["k".to_string()]);
    assert_eq!(w.len(), 1);
    assert!(!w.contains_key(&"k".to_string()));
    assert!(w.contains_key(&"j".to_string()));
}

#[test]
fn delta_encoding_escapes_control_characters() {
    let d = BlockDelta {
        height: 18446744073709551615,
        new_notes: vec![],
        nullifiers: vec!["\u{1}\t\n\r\u{8}\u{c}\u{1f}/\u{e9}\u{7f}".to_string()],
    };
    assert_eq!(
        encode_delta(&d),
        "{\"height\":18446744073709551615,\"new_notes\":[],\"nullifiers\":[\"\\u0001\\t\\n\\r\\b\\f\\u001f/\u{e9}\u{7f}\"]}"
    );
}

use channel_ledger::{ChannelMetadata, Contract, LedgerError};

fn accounts(i: usize) -> String {
    ["alice", "bob", "charlie", "danny", "eugene", "fargo"][i].to_string()
}

fn test_metadata() -> ChannelMetadata {
    ChannelMetadata {
        title_template: "Test Channel #{}".to_string(),
        description_template: "Test Description".to_string(),
        media: "https://example.com/image.jpg".to_string(),
        animation_url: None,
        reference: "https://example.com/ref".to_string(),
        reference_hash: None,
    }
}

fn sha256(bytes: &[u8]) -> Vec<u8> {
    near_sdk::env::sha256(bytes)
}

/// The root and the one-sibling proof of a two-leaf tree that holds `leaf`.
fn two_leaf_tree(leaf: &str, other: &str) -> (Vec<u8>, Vec<Vec<u8>>) {
    let a = sha256(leaf.as_bytes());
    let b = sha256(other.as_bytes());
    let joined = if a <= b {
        [a.as_slice(), b.as_slice()].concat()
    } else {
        [b.as_slice(), a.as_slice()].concat()
    };
    (sha256(&joined), vec![b])
}

#[test]
fn test_new() {
    let contract = Contract::new(accounts(1));
    assert_eq!(contract.owner_id(), &accounts(1));
}

#[test]
fn test_create_channel() {
    let mut contract = Contract::new(accounts(1));
    let metadata = test_metadata();
    let created = contract.create_channel(
        &accounts(1),
        "test_channel".to_string(),
        vec![1, 2, 3],
        metadata,
    );
    assert_eq!(created, Ok(()));

    let channel = contract.get_channel_info("test_channel".to_string()).unwrap();
    assert_eq!(channel.total_supply, 0);
    assert_eq!(channel.next_token_number, 1);
    assert_eq!(channel.metadata.title_template, "Test Channel #{}");
    assert_eq!(channel.merkle_root, vec![1, 2, 3]);
}

#[test]
fn test_mint_and_transfer() {
    let mut contract = Contract::new(accounts(1));
    contract
        .create_channel(&accounts(1), "test_channel".to_string(), vec![1, 2, 3], test_metadata())
        .unwrap();

    let token_id = contract.nft_mint("test_channel".to_string(), None, accounts(2)).unwrap();

    let owner_tokens = contract.nft_tokens_for_owner(accounts(2), None, None);
    assert_eq!(owner_tokens.len(), 1);
    assert_eq!(owner_tokens[0].token_id, token_id);

    let moved = contract.nft_transfer(&accounts(2), accounts(3), token_id.clone());
    assert_eq!(moved, Ok(()));

    let new_owner_tokens = contract.nft_tokens_for_owner(accounts(3), None, None);
    assert_eq!(new_owner_tokens.len(), 1);
    assert_eq!(new_owner_tokens[0].token_id, token_id);
    assert_eq!(contract.nft_tokens_for_owner(accounts(2), None, None).len(), 0);
}

#[test]
fn test_burn() {
    let mut contract = Contract::new(accounts(1));
    contract
        .create_channel(&accounts(1), "test_channel".to_string(), vec![1, 2, 3], test_metadata())
        .unwrap();
    let token_id = contract.nft_mint("test_channel".to_string(), None, accounts(2)).unwrap();

    let burned = contract.nft_burn(&accounts(2), token_id.clone());
    assert_eq!(burned, Ok(()));

    assert!(!contract.is_minted(token_id));
    let owner_tokens = contract.nft_tokens_for_owner(accounts(2), None, None);
    assert_eq!(owner_tokens.len(), 0);
}

#[test]
fn test_create_channel_not_owner() {
    let mut contract = Contract::new(accounts(1));
    let created = contract.create_channel(
        &accounts(2),
        "test_channel".to_string(),
        vec![1, 2, 3],
        test_metadata(),
    );
    assert_eq!(created, Err(LedgerError::Unauthorized));
    assert!(contract.get_channel_info("test_channel".to_string()).is_none());
}

#[test]
fn test_transfer_not_owner() {
    let mut contract = Contract::new(accounts(1));
    contract
        .create_channel(&accounts(1), "test_channel".to_string(), vec![1, 2, 3], test_metadata())
        .unwrap();
    let token_id = contract.nft_mint("test_channel".to_string(), None, accounts(2)).unwrap();

    let moved = contract.nft_transfer(&accounts(3), accounts(4), token_id.clone());
    assert_eq!(moved, Err(LedgerError::NotOwner));
    assert_eq!(contract.nft_supply_for_owner(accounts(2)), 1);
    assert_eq!(contract.nft_supply_for_owner(accounts(4)), 0);
}

#[test]
fn first_mint_needs_no_proof_and_advances_the_counter() {
    let mut contract = Contract::new(accounts(0));
    let root = vec![7u8; 32];
    contract.create_channel(&accounts(0), "drop1".to_string(), root, test_metadata()).unwrap();

    let token_id = contract.nft_mint("drop1".to_string(), None, accounts(2)).unwrap();
    assert_eq!(token_id, "drop1:1");
    assert_eq!(contract.get_next_token_number("drop1".to_string()), Some(2));
    assert!(contract.is_minted("drop1:1".to_string()));
    let info = contract.get_channel_info("drop1".to_string()).unwrap();
    assert_eq!(info.total_supply, 1);
    assert_eq!(info.merkle_root, vec![7u8; 32]);
}

#[test]
fn first_mint_ignores_a_proof_that_comes_with_it() {
    let mut contract = Contract::new(accounts(0));
    contract.create_channel(&accounts(0), "drop1".to_string(), vec![1], test_metadata()).unwrap();
    let token_id =
        contract.nft_mint("drop1".to_string(), Some(vec![vec![9u8; 32]]), accounts(2)).unwrap();
    assert_eq!(token_id, "drop1:1");
}

#[test]
fn transfer_by_a_stranger_changes_nothing() {
    let mut contract = Contract::new(accounts(0));
    contract.create_channel(&accounts(0), "drop1".to_string(), vec![1], test_metadata()).unwrap();
    contract.nft_mint("drop1".to_string(), None, accounts(2)).unwrap();

    let moved = contract.nft_transfer(&accounts(3), accounts(4), "drop1:1".to_string());
    assert_eq!(moved, Err(LedgerError::NotOwner));

    assert!(contract.is_minted("drop1:1".to_string()));
    let held = contract.nft_tokens_for_owner(accounts(2), None, None);
    assert_eq!(held.len(), 1);
    assert_eq!(held[0].token_id, "drop1:1");
    assert_eq!(contract.nft_supply_for_owner(accounts(3)), 0);
    assert_eq!(contract.nft_supply_for_owner(accounts(4)), 0);
    assert_eq!(contract.get_next_token_number("drop1".to_string()), Some(2));
}

#[test]
fn second_mint_needs_a_proof_for_its_own_identifier() {
    let (root, proof) = two_leaf_tree("drop1:2", "drop1:9");
    let mut contract = Contract::new(accounts(0));
    contract.create_channel(&accounts(0), "drop1".to_string(), root, test_metadata()).unwrap();
    assert_eq!(contract.nft_mint("drop1".to_string(), None, accounts(2)).unwrap(), "drop1:1");

    let second = contract.nft_mint("drop1".to_string(), Some(proof.clone()), accounts(3));
    assert_eq!(second, Ok("drop1:2".to_string()));
    assert_eq!(contract.get_next_token_number("drop1".to_string()), Some(3));

    // The same proof is a proof for "drop1:2" only: the next token is "drop1:3".
    let third = contract.nft_mint("drop1".to_string(), Some(proof), accounts(3));
    assert_eq!(third, Err(LedgerError::InvalidProof));
    assert_eq!(contract.get_next_token_number("drop1".to_string()), Some(3));
    assert!(!contract.is_minted("drop1:3".to_string()));
}

#[test]
fn one_root_admits_each_token_under_its_own_proof() {
    // a tree of the two leaves "drop1:2" and "drop1:3"
    let (root, proof_of_2) = two_leaf_tree("drop1:2", "drop1:3");
    let (same_root, proof_of_3) = two_leaf_tree("drop1:3", "drop1:2");
    assert_eq!(root, same_root);
    let mut contract = Contract::new(accounts(0));
    contract.create_channel(&accounts(0), "drop1".to_string(), root, test_metadata()).unwrap();
    assert_eq!(contract.nft_mint("drop1".to_string(), None, accounts(2)).unwrap(), "drop1:1");
    assert_eq!(
        contract.nft_mint("drop1".to_string(), Some(proof_of_2.clone()), accounts(2)),
        Ok("drop1:2".to_string())
    );
    // the proof of "drop1:2" does not mint "drop1:2" a second time
    assert_eq!(
        contract.nft_mint("drop1".to_string(), Some(proof_of_2), accounts(2)),
        Err(LedgerError::InvalidProof)
    );
    assert_eq!(
        contract.nft_mint("drop1".to_string(), Some(proof_of_3), accounts(2)),
        Ok("drop1:3".to_string())
    );
    assert_eq!(contract.get_next_token_number("drop1".to_string()), Some(4));
    assert_eq!(contract.get_channel_info("drop1".to_string()).unwrap().total_supply, 3);
}

#[test]
fn third_mint_is_numbered_three_after_a_root_rotation() {
    let (root2, proof2) = two_leaf_tree("drop1:2", "x");
    let (root3, proof3) = two_leaf_tree("drop1:3", "y");
    let mut contract = Contract::new(accounts(0));
    contract.create_channel(&accounts(0), "drop1".to_string(), root2, test_metadata()).unwrap();
    contract.nft_mint("drop1".to_string(), None, accounts(2)).unwrap();
    contract.nft_mint("drop1".to_string(), Some(proof2), accounts(2)).unwrap();

    assert_eq!(
        contract.update_merkle_root(&accounts(0), "drop1".to_string(), root3.clone()),
        Ok(())
    );
    assert_eq!(contract.get_channel_info("drop1".to_string()).unwrap().merkle_root, root3);
    let third = contract.nft_mint("drop1".to_string(), Some(proof3), accounts(4));
    assert_eq!(third, Ok("drop1:3".to_string()));
    assert_eq!(contract.nft_supply_for_owner(accounts(2)), 2);
    assert_eq!(contract.nft_supply_for_owner(accounts(4)), 1);
}

#[test]
fn mint_without_proof_after_the_first_is_refused() {
    let mut contract = Contract::new(accounts(0));
    contract.create_channel(&accounts(0), "drop1".to_string(), vec![1], test_metadata()).unwrap();
    contract.nft_mint("drop1".to_string(), None, accounts(2)).unwrap();
    let second = contract.nft_mint("drop1".to_string(), None, accounts(2));
    assert_eq!(second, Err(LedgerError::ProofRequired));
    assert_eq!(contract.get_next_token_number("drop1".to_string()), Some(2));
}

#[test]
fn mint_with_a_wrong_proof_is_refused() {
    let (root, _) = two_leaf_tree("drop1:2", "drop1:9");
    let mut contract = Contract::new(accounts(0));
    contract.create_channel(&accounts(0), "drop1".to_string(), root, test_metadata()).unwrap();
    contract.nft_mint("drop1".to_string(), None, accounts(2)).unwrap();
    let second = contract.nft_mint("drop1".to_string(), Some(vec![vec![0u8; 32]]), accounts(2));
    assert_eq!(second, Err(LedgerError::InvalidProof));
    let empty = contract.nft_mint("drop1".to_string(), Some(vec![]), accounts(2));
    assert_eq!(empty, Err(LedgerError::InvalidProof));
    assert_eq!(contract.get_channel_info("drop1".to_string()).unwrap().total_supply, 1);
}

#[test]
fn mint_in_an_unknown_channel_is_refused() {
    let mut contract = Contract::new(accounts(0));
    let minted = contract.nft_mint("nowhere".to_string(), None, accounts(2));
    assert_eq!(minted, Err(LedgerError::ChannelNotFound));
}

#[test]
fn burn_lowers_the_supply_and_keeps_the_counter() {
    let (root, proof) = two_leaf_tree("drop1:2", "z");
    let mut contract = Contract::new(accounts(0));
    contract.create_channel(&accounts(0), "drop1".to_string(), root, test_metadata()).unwrap();
    contract.nft_mint("drop1".to_string(), None, accounts(2)).unwrap();
    contract.nft_mint("drop1".to_string(), Some(proof), accounts(2)).unwrap();
    assert_eq!(contract.get_channel_info("drop1".to_string()).unwrap().total_supply, 2);

    assert_eq!(contract.nft_burn(&accounts(2), "drop1:1".to_string()), Ok(()));

    assert!(!contract.is_minted("drop1:1".to_string()));
    assert!(contract.is_minted("drop1:2".to_string()));
    let held = contract.nft_tokens_for_owner(accounts(2), None, None);
    assert_eq!(held.len(), 1);
    assert_eq!(held[0].token_id, "drop1:2");
    let info = contract.get_channel_info("drop1".to_string()).unwrap();
    assert_eq!(info.total_supply, 1);
    assert_eq!(info.next_token_number, 3);
}

#[test]
fn burned_number_is_not_given_out_again() {
    let mut contract = Contract::new(accounts(0));
    contract.create_channel(&accounts(0), "c".to_string(), vec![], test_metadata()).unwrap();
    assert_eq!(contract.nft_mint("c".to_string(), None, accounts(2)), Ok("c:1".to_string()));
    assert_eq!(contract.nft_burn(&accounts(2), "c:1".to_string()), Ok(()));
    assert_eq!(contract.get_next_token_number("c".to_string()), Some(2));
    // The channel is past its first token: the next mint is number two and needs a proof.
    assert_eq!(
        contract.nft_mint("c".to_string(), None, accounts(2)),
        Err(LedgerError::ProofRequired)
    );
    let (root, proof) = two_leaf_tree("c:2", "c:1");
    contract.update_merkle_root(&accounts(0), "c".to_string(), root).unwrap();
    assert_eq!(
        contract.nft_mint("c".to_string(), Some(proof), accounts(2)),
        Ok("c:2".to_string())
    );
    assert!(!contract.is_minted("c:1".to_string()));
}

#[test]
fn burning_the_last_token_removes_the_owner() {
    let mut contract = Contract::new(accounts(0));
    contract.create_channel(&accounts(0), "c".to_string(), vec![], test_metadata()).unwrap();
    contract.nft_mint("c".to_string(), None, accounts(2)).unwrap();
    contract.nft_burn(&accounts(2), "c:1".to_string()).unwrap();
    assert_eq!(contract.nft_supply_for_owner(accounts(2)), 0);
    assert_eq!(contract.nft_burn(&accounts(2), "c:1".to_string()), Err(LedgerError::TokenNotFound));
}

#[test]
fn transfer_to_oneself_is_refused_whoever_owns_the_token() {
    let mut contract = Contract::new(accounts(0));
    contract.create_channel(&accounts(0), "c".to_string(), vec![], test_metadata()).unwrap();
    contract.nft_mint("c".to_string(), None, accounts(2)).unwrap();
    // by the owner
    assert_eq!(
        contract.nft_transfer(&accounts(2), accounts(2), "c:1".to_string()),
        Err(LedgerError::SameAccount)
    );
    // by somebody else
    assert_eq!(
        contract.nft_transfer(&accounts(3), accounts(3), "c:1".to_string()),
        Err(LedgerError::SameAccount)
    );
    // of a token that does not exist
    assert_eq!(
        contract.nft_transfer(&accounts(3), accounts(3), "c:77".to_string()),
        Err(LedgerError::SameAccount)
    );
    assert_eq!(contract.nft_supply_for_owner(accounts(2)), 1);
}

#[test]
fn malformed_token_ids_are_refused_by_transfer_and_burn() {
    let mut contract = Contract::new(accounts(0));
    contract.create_channel(&accounts(0), "c".to_string(), vec![], test_metadata()).unwrap();
    contract.nft_mint("c".to_string(), None, accounts(2)).unwrap();
    for bad in ["c", "c:", "c:x", "c:1:2", "c:-1", "c:1 ", "c:18446744073709551616", ""] {
        assert_eq!(
            contract.nft_transfer(&accounts(2), accounts(3), bad.to_string()),
            Err(LedgerError::InvalidTokenId),
            "{}",
            bad
        );
        assert_eq!(
            contract.nft_burn(&accounts(2), bad.to_string()),
            Err(LedgerError::InvalidTokenId),
            "{}",
            bad
        );
        assert!(contract.nft_token(bad.to_string()).is_none());
        assert!(!contract.is_minted(bad.to_string()));
    }
    assert!(contract.is_minted("c:1".to_string()));
}

#[test]
fn burn_errors_in_order() {
    let mut contract = Contract::new(accounts(0));
    contract.create_channel(&accounts(0), "c".to_string(), vec![], test_metadata()).unwrap();
    contract.nft_mint("c".to_string(), None, accounts(2)).unwrap();
    assert_eq!(contract.nft_burn(&accounts(3), "c:2".to_string()), Err(LedgerError::TokenNotFound));
    assert_eq!(contract.nft_burn(&accounts(3), "d:1".to_string()), Err(LedgerError::TokenNotFound));
    assert_eq!(contract.nft_burn(&accounts(3), "c:1".to_string()), Err(LedgerError::NotOwner));
    assert!(contract.is_minted("c:1".to_string()));
    assert_eq!(contract.get_channel_info("c".to_string()).unwrap().total_supply, 1);
}

#[test]
fn duplicate_channel_is_refused_and_keeps_the_first() {
    let mut contract = Contract::new(accounts(0));
    contract.create_channel(&accounts(0), "c".to_string(), vec![1], test_metadata()).unwrap();
    contract.nft_mint("c".to_string(), None, accounts(2)).unwrap();
    let again = contract.create_channel(&accounts(0), "c".to_string(), vec![2], test_metadata());
    assert_eq!(again, Err(LedgerError::DuplicateChannel));
    let info = contract.get_channel_info("c".to_string()).unwrap();
    assert_eq!(info.merkle_root, vec![1]);
    assert_eq!(info.next_token_number, 2);
    // the authority check comes first
    let stranger = contract.create_channel(&accounts(1), "c".to_string(), vec![2], test_metadata());
    assert_eq!(stranger, Err(LedgerError::Unauthorized));
}

#[test]
fn update_channel_changes_what_is_given() {
    let mut contract = Contract::new(accounts(0));
    contract.create_channel(&accounts(0), "c".to_string(), vec![1], test_metadata()).unwrap();

    assert_eq!(
        contract.update_channel(&accounts(1), "c".to_string(), Some(vec![2]), None),
        Err(LedgerError::Unauthorized)
    );
    assert_eq!(
        contract.update_channel(&accounts(0), "d".to_string(), Some(vec![2]), None),
        Err(LedgerError::ChannelNotFound)
    );
    assert_eq!(
        contract.update_merkle_root(&accounts(1), "c".to_string(), vec![2]),
        Err(LedgerError::Unauthorized)
    );
    assert_eq!(
        contract.update_merkle_root(&accounts(0), "d".to_string(), vec![2]),
        Err(LedgerError::ChannelNotFound)
    );
    assert_eq!(contract.get_channel_info("c".to_string()).unwrap().merkle_root, vec![1]);

    assert_eq!(contract.update_channel(&accounts(0), "c".to_string(), Some(vec![2]), None), Ok(()));
    let info = contract.get_channel_info("c".to_string()).unwrap();
    assert_eq!(info.merkle_root, vec![2]);
    assert_eq!(info.metadata.title_template, "Test Channel #{}");

    let mut other = test_metadata();
    other.title_template = "Other {}".to_string();
    other.animation_url = Some("https://example.com/a.mp4".to_string());
    other.reference_hash = Some(vec![1, 2, 3]);
    assert_eq!(contract.update_channel(&accounts(0), "c".to_string(), None, Some(other)), Ok(()));
    let info = contract.get_channel_info("c".to_string()).unwrap();
    assert_eq!(info.merkle_root, vec![2]);
    assert_eq!(info.metadata.title_template, "Other {}");
    assert_eq!(info.metadata.animation_url, Some("https://example.com/a.mp4".to_string()));
    assert_eq!(info.metadata.reference_hash, Some(vec![1, 2, 3]));
    assert_eq!(info.next_token_number, 1);

    assert_eq!(contract.update_channel(&accounts(0), "c".to_string(), None, None), Ok(()));
    assert_eq!(contract.get_channel_info("c".to_string()).unwrap().merkle_root, vec![2]);
}

#[test]
fn token_record_is_derived_from_the_channel() {
    let mut contract = Contract::new(accounts(0));
    contract.create_channel(&accounts(0), "c".to_string(), vec![1], test_metadata()).unwrap();
    let token = contract.nft_token("c:12".to_string()).unwrap();
    assert_eq!(token.token_id, "c:12");
    assert_eq!(token.metadata.title, "Test Channel #12");
    assert_eq!(token.metadata.description, "Test Description");
    assert_eq!(token.metadata.media, "https://example.com/image.jpg");
    assert_eq!(token.metadata.animation_url, None);
    assert_eq!(token.metadata.reference, "https://example.com/ref/12");
    assert_eq!(token.metadata.reference_hash, None);
    // a number text may carry a plus sign or leading zeros
    let token = contract.nft_token("c:+007".to_string()).unwrap();
    assert_eq!(token.token_id, "c:+007");
    assert_eq!(token.metadata.title, "Test Channel #7");
    assert!(contract.nft_token("d:1".to_string()).is_none());
}

#[test]
fn tokens_for_owner_pages_in_arrival_order() {
    let mut contract = Contract::new(accounts(0));
    for id in ["a", "b", "c", "d"] {
        contract.create_channel(&accounts(0), id.to_string(), vec![], test_metadata()).unwrap();
        contract.nft_mint(id.to_string(), None, accounts(2)).unwrap();
    }
    let ids = |tokens: Vec<channel_ledger::JsonToken>| -> Vec<String> {
        tokens.into_iter().map(|t| t.token_id).collect()
    };
    assert_eq!(ids(contract.nft_tokens_for_owner(accounts(2), None, None)), ["a:1", "b:1", "c:1", "d:1"]);
    assert_eq!(ids(contract.nft_tokens_for_owner(accounts(2), Some(1), Some(2))), ["b:1", "c:1"]);
    assert_eq!(ids(contract.nft_tokens_for_owner(accounts(2), Some(3), Some(5))), ["d:1"]);
    assert_eq!(ids(contract.nft_tokens_for_owner(accounts(2), Some(4), None)).len(), 0);
    assert_eq!(ids(contract.nft_tokens_for_owner(accounts(2), Some(u128::MAX), None)).len(), 0);
    assert_eq!(ids(contract.nft_tokens_for_owner(accounts(2), None, Some(0))).len(), 0);
    assert_eq!(ids(contract.nft_tokens_for_owner(accounts(2), None, Some(u64::MAX))).len(), 4);
    assert_eq!(ids(contract.nft_tokens_for_owner(accounts(5), None, None)).len(), 0);

    contract.nft_transfer(&accounts(2), accounts(3), "b:1".to_string()).unwrap();
    assert_eq!(ids(contract.nft_tokens_for_owner(accounts(2), None, None)), ["a:1", "c:1", "d:1"]);
    contract.nft_transfer(&accounts(3), accounts(2), "b:1".to_string()).unwrap();
    assert_eq!(ids(contract.nft_tokens_for_owner(accounts(2), None, None)), ["a:1", "c:1", "d:1", "b:1"]);
    assert_eq!(contract.nft_supply_for_owner(accounts(3)), 0);
}

#[test]
fn default_page_holds_fifty_tokens() {
    let mut contract = Contract::new(accounts(0));
    for i in 0..60 {
        let id = format!("ch{}", i);
        contract.create_channel(&accounts(0), id.clone(), vec![], test_metadata()).unwrap();
        contract.nft_mint(id, None, accounts(2)).unwrap();
    }
    assert_eq!(contract.nft_supply_for_owner(accounts(2)), 60);
    let first = contract.nft_tokens_for_owner(accounts(2), None, None);
    assert_eq!(first.len(), 50);
    assert_eq!(first[49].token_id, "ch49:1");
    let rest = contract.nft_tokens_for_owner(accounts(2), Some(50), None);
    assert_eq!(rest.len(), 10);
    assert_eq!(rest[0].token_id, "ch50:1");
}

#[test]
fn every_minted_token_has_exactly_one_owner() {
    let mut contract = Contract::new(accounts(0));
    for id in ["a", "b", "c"] {
        contract.create_channel(&accounts(0), id.to_string(), vec![], test_metadata()).unwrap();
    }
    contract.nft_mint("a".to_string(), None, accounts(1)).unwrap();
    contract.nft_mint("b".to_string(), None, accounts(2)).unwrap();
    contract.nft_mint("c".to_string(), None, accounts(1)).unwrap();
    contract.nft_transfer(&accounts(1), accounts(2), "a:1".to_string()).unwrap();
    contract.nft_burn(&accounts(2), "b:1".to_string()).unwrap();

    for token in ["a:1", "b:1", "c:1"] {
        let mut holders = 0;
        for i in 0..6 {
            let held = contract.nft_tokens_for_owner(accounts(i), None, None);
            holders += held.iter().filter(|t| t.token_id == token).count();
        }
        let expected = if contract.is_minted(token.to_string()) { 1 } else { 0 };
        assert_eq!(holders, expected, "{}", token);
    }
    assert!(!contract.is_minted("b:1".to_string()));
}

#[test]
fn channel_with_a_colon_mints_tokens_that_no_identifier_names() {
    let mut contract = Contract::new(accounts(0));
    contract.create_channel(&accounts(0), "a:b".to_string(), vec![], test_metadata()).unwrap();
    let token = contract.nft_mint("a:b".to_string(), None, accounts(2)).unwrap();
    assert_eq!(token, "a:b:1");
    assert!(contract.is_minted("a:b:1".to_string()));
    assert_eq!(contract.nft_supply_for_owner(accounts(2)), 1);
    assert!(contract.nft_token("a:b:1".to_string()).is_none());
    assert_eq!(contract.nft_tokens_for_owner(accounts(2), None, None).len(), 0);
    assert_eq!(
        contract.nft_burn(&accounts(2), "a:b:1".to_string()),
        Err(LedgerError::InvalidTokenId)
    );
}

#[test]
fn contract_metadata_is_the_initial_one() {
    let contract = Contract::new(accounts(0));
    let metadata = contract.nft_metadata();
    assert_eq!(metadata.spec, "nft-2.1.0");
    assert_eq!(metadata.name, "ShardDog");
    assert_eq!(metadata.symbol, "SHARDDOG");
    assert_eq!(
        metadata.icon,
        Some("https://arweave.net/U8NfqCM4-OIqbCkA8fXT1a5LVkd5eNb1jO5A-8Q4oEY".to_string())
    );
    assert_eq!(metadata.base_uri, None);
    assert_eq!(metadata.reference, None);
    assert_eq!(metadata.reference_hash, None);
}

#[test]
fn contract_checks_proofs_against_the_bytes_of_the_identifier() {
    let contract = Contract::new(accounts(0));
    let (root, proof) = two_leaf_tree("drop1:2", "drop1:9");
    assert!(contract.verify_merkle_proof(&root, "drop1:2", &proof));
    assert!(!contract.verify_merkle_proof(&root, "drop1:3", &proof));
    assert!(!contract.verify_merkle_proof(&root, "drop1:2", &vec![]));
    let leaf_digest = sha256("drop1:2".as_bytes());
    assert!(contract.verify_merkle_proof(&leaf_digest, "drop1:2", &vec![]));
}

#[test]
fn parts_of_the_ledger_can_be_read() {
    let mut contract = Contract::new(accounts(0));
    contract.create_channel(&accounts(0), "c".to_string(), vec![5], test_metadata()).unwrap();
    contract.nft_mint("c".to_string(), None, accounts(2)).unwrap();
    assert_eq!(contract.channels().get(&"c".to_string()).unwrap().minted_tokens, vec![1]);
    assert!(contract.minted_tokens().contains(&"c:1".to_string()));
    assert_eq!(contract.minted_tokens().len(), 1);
    assert!(contract.owners().holds(&accounts(2), &"c:1".to_string()));
    assert!(!contract.owners().holds(&accounts(0), &"c:1".to_string()));
}

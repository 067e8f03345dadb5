//! Tests for the stated properties of the registry: sequential identifier
//! allocation, the owner-index consistency scenario, error behaviour, and
//! the base-URI round trip.

use nft_registry::Address;
use nft_registry::Error;
use nft_registry::NFTContract;
use nft_registry::TokenId;

#[test]
fn test_collection_ids_are_sequential() {
    let mut contract = NFTContract::new();
    let creator = Address { id: 1 };

    for expected in 0u32..5 {
        let id = contract
            .create_collection(
                creator,
                true,
                format!("Collection {}", expected),
                String::from("COL"),
                None,
            )
            .unwrap();
        assert_eq!(id, expected);
    }
    assert_eq!(contract.total_collections(), 5);
}

#[test]
fn test_token_ids_are_sequential_per_collection() {
    let mut contract = NFTContract::new();
    let creator = Address { id: 1 };
    let holder = Address { id: 2 };

    let col_a = contract
        .create_collection(creator, true, String::from("A"), String::from("A"), None)
        .unwrap();
    let col_b = contract
        .create_collection(creator, true, String::from("B"), String::from("B"), None)
        .unwrap();

    for expected in 0u32..4 {
        let id = contract.mint_nft(creator, true, col_a, holder).unwrap();
        assert_eq!(id, expected);
    }
    // A separate collection keeps its own counter.
    let id_b = contract.mint_nft(creator, true, col_b, holder).unwrap();
    assert_eq!(id_b, 0);

    assert_eq!(contract.total_tokens_in_collection(col_a), 4);
    assert_eq!(contract.total_tokens_in_collection(col_b), 1);
}

#[test]
fn test_owner_index_scenario_two_collections() {
    let mut contract = NFTContract::new();
    let user1 = Address { id: 1 };
    let user2 = Address { id: 2 };
    let user3 = Address { id: 3 };

    let col_a = contract
        .create_collection(user1, true, String::from("A"), String::from("A"), None)
        .unwrap();
    let col_b = contract
        .create_collection(user2, true, String::from("B"), String::from("B"), None)
        .unwrap();

    let tok_a = contract.mint_nft(user1, true, col_a, user3).unwrap();
    let tok_b = contract.mint_nft(user2, true, col_b, user3).unwrap();

    let owned = contract.tokens_of(user3);
    assert_eq!(owned.len(), 2);
    assert_eq!(owned[0], TokenId { collection_id: col_a, token_id: tok_a });
    assert_eq!(owned[1], TokenId { collection_id: col_b, token_id: tok_b });

    contract.transfer(user3, true, user1, col_a, tok_a).unwrap();

    let owned_after = contract.tokens_of(user3);
    assert_eq!(owned_after.len(), 1);
    assert_eq!(owned_after[0], TokenId { collection_id: col_b, token_id: tok_b });

    let user1_tokens = contract.tokens_of(user1);
    assert_eq!(user1_tokens.len(), 1);
    assert_eq!(user1_tokens[0], TokenId { collection_id: col_a, token_id: tok_a });
}

#[test]
fn test_mint_after_failed_mint_starts_at_zero() {
    let mut contract = NFTContract::new();
    let creator = Address { id: 1 };
    let recipient = Address { id: 2 };

    // A failed mint allocates no token identifier.
    assert_eq!(contract.mint_nft(creator, true, 7, recipient), Err(Error::CollectionNotFound));

    let collection_id = contract
        .create_collection(creator, true, String::from("C"), String::from("C"), None)
        .unwrap();
    let token_id = contract.mint_nft(creator, true, collection_id, recipient).unwrap();
    assert_eq!(token_id, 0);
    assert_eq!(contract.total_tokens_in_collection(collection_id), 1);
}

#[test]
fn test_mint_without_base_uri_yields_empty_uri() {
    let mut contract = NFTContract::new();
    let creator = Address { id: 1 };
    let recipient = Address { id: 2 };

    let collection_id = contract
        .create_collection(creator, true, String::from("Plain"), String::from("PLN"), None)
        .unwrap();
    let token_id = contract.mint_nft(creator, true, collection_id, recipient).unwrap();

    let token = contract.get_token(collection_id, token_id).unwrap();
    assert_eq!(token.uri, String::new());
}

#[test]
fn test_authorization_denied_leaves_state_unchanged() {
    let mut contract = NFTContract::new();
    let creator = Address { id: 1 };
    let recipient = Address { id: 2 };

    let denied =
        contract.create_collection(creator, false, String::from("X"), String::from("X"), None);
    assert_eq!(denied, Err(Error::AuthorizationDenied));
    assert_eq!(contract.total_collections(), 0);

    let collection_id = contract
        .create_collection(creator, true, String::from("X"), String::from("X"), None)
        .unwrap();

    let denied_mint = contract.mint_nft(creator, false, collection_id, recipient);
    assert_eq!(denied_mint, Err(Error::AuthorizationDenied));
    assert_eq!(contract.total_tokens_in_collection(collection_id), 0);

    let token_id = contract.mint_nft(creator, true, collection_id, recipient).unwrap();
    let denied_transfer = contract.transfer(recipient, false, creator, collection_id, token_id);
    assert_eq!(denied_transfer, Err(Error::AuthorizationDenied));
    assert_eq!(contract.owner_of(collection_id, token_id).unwrap(), recipient);
}

#[test]
fn test_transfer_nonexistent_token() {
    let mut contract = NFTContract::new();
    let creator = Address { id: 1 };
    let somebody = Address { id: 2 };

    // No collection at all.
    assert_eq!(contract.transfer(creator, true, somebody, 0, 0), Err(Error::TokenNotFound));

    // A collection exists but the token does not.
    let collection_id = contract
        .create_collection(creator, true, String::from("C"), String::from("C"), None)
        .unwrap();
    assert_eq!(
        contract.transfer(creator, true, somebody, collection_id, 5),
        Err(Error::TokenNotFound)
    );
}

#[test]
fn test_transfer_to_self_keeps_one_entry() {
    let mut contract = NFTContract::new();
    let creator = Address { id: 1 };
    let holder = Address { id: 2 };

    let collection_id = contract
        .create_collection(creator, true, String::from("C"), String::from("C"), None)
        .unwrap();
    let token_id = contract.mint_nft(creator, true, collection_id, holder).unwrap();

    contract.transfer(holder, true, holder, collection_id, token_id).unwrap();

    assert_eq!(contract.owner_of(collection_id, token_id).unwrap(), holder);
    let owned = contract.tokens_of(holder);
    assert_eq!(owned.len(), 1);
    assert_eq!(owned[0], TokenId { collection_id, token_id });
}

#[test]
fn test_reads_of_unknown_keys_are_absent_not_errors() {
    let contract = NFTContract::new();
    let nobody = Address { id: 9 };

    assert_eq!(contract.get_collection(3), None);
    assert_eq!(contract.get_token(3, 4), None);
    assert_eq!(contract.owner_of(3, 4), None);
    assert_eq!(contract.tokens_of(nobody).len(), 0);
    assert_eq!(contract.total_collections(), 0);
    assert_eq!(contract.total_tokens_in_collection(3), 0);
}

#[test]
fn test_transfer_back_and_forth() {
    let mut contract = NFTContract::new();
    let creator = Address { id: 1 };
    let first = Address { id: 2 };
    let second = Address { id: 3 };

    let collection_id = contract
        .create_collection(creator, true, String::from("C"), String::from("C"), None)
        .unwrap();
    let token_id = contract.mint_nft(creator, true, collection_id, first).unwrap();

    contract.transfer(first, true, second, collection_id, token_id).unwrap();
    contract.transfer(second, true, first, collection_id, token_id).unwrap();

    assert_eq!(contract.owner_of(collection_id, token_id).unwrap(), first);
    assert_eq!(contract.tokens_of(first).len(), 1);
    assert_eq!(contract.tokens_of(second).len(), 0);
}

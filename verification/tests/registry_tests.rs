use nft_registry::Address;
use nft_registry::Error;
use nft_registry::NFTContract;
use nft_registry::TokenId;

#[test]
fn test_create_collection() {
    let mut contract = NFTContract::new();

    let creator = Address { id: 1 };
    let name = String::from("My NFT Collection");
    let symbol = String::from("MNC");
    let base_uri = Some(String::from("https://api.mynft.com/metadata/"));

    let collection_id = contract
        .create_collection(creator, true, name.clone(), symbol.clone(), base_uri.clone())
        .unwrap();
    assert_eq!(collection_id, 0);

    let collection = contract.get_collection(collection_id).unwrap();
    assert_eq!(collection.owner, creator);
    assert_eq!(collection.name, name);
    assert_eq!(collection.symbol, symbol);
    assert_eq!(collection.base_uri, base_uri);

    assert_eq!(contract.total_collections(), 1);
}

#[test]
fn test_create_multiple_collections() {
    let mut contract = NFTContract::new();

    let creator1 = Address { id: 1 };
    let creator2 = Address { id: 2 };

    let collection_id1 = contract
        .create_collection(
            creator1,
            true,
            String::from("Collection 1"),
            String::from("COL1"),
            None,
        )
        .unwrap();

    let collection_id2 = contract
        .create_collection(
            creator2,
            true,
            String::from("Collection 2"),
            String::from("COL2"),
            Some(String::from("https://example.com/")),
        )
        .unwrap();

    assert_eq!(collection_id1, 0);
    assert_eq!(collection_id2, 1);
    assert_eq!(contract.total_collections(), 2);
}

#[test]
fn test_mint_nft() {
    let mut contract = NFTContract::new();

    let creator = Address { id: 1 };
    let minter = Address { id: 2 };
    let recipient = Address { id: 3 };

    let collection_id = contract
        .create_collection(
            creator,
            true,
            String::from("Test Collection"),
            String::from("TEST"),
            Some(String::from("https://api.test.com/")),
        )
        .unwrap();

    let token_id = contract.mint_nft(minter, true, collection_id, recipient).unwrap();

    assert_eq!(token_id, 0);

    let token = contract.get_token(collection_id, token_id).unwrap();
    assert_eq!(token.owner, recipient);
    assert_eq!(token.uri, String::from("https://api.test.com/"));

    assert_eq!(contract.owner_of(collection_id, token_id).unwrap(), recipient);

    let owned_tokens = contract.tokens_of(recipient);
    assert_eq!(owned_tokens.len(), 1);
    assert_eq!(owned_tokens[0], TokenId { collection_id, token_id });

    assert_eq!(contract.total_tokens_in_collection(collection_id), 1);
}

#[test]
fn test_mint_nft_with_base_uri() {
    let mut contract = NFTContract::new();

    let creator = Address { id: 1 };
    let recipient = Address { id: 2 };

    let collection_id = contract
        .create_collection(
            creator,
            true,
            String::from("Test Collection"),
            String::from("TEST"),
            Some(String::from("https://api.test.com/metadata/")),
        )
        .unwrap();

    let token_id = contract.mint_nft(creator, true, collection_id, recipient).unwrap();

    let token = contract.get_token(collection_id, token_id).unwrap();
    assert_eq!(token.owner, recipient);
    assert_eq!(token.uri, String::from("https://api.test.com/metadata/"));
}

#[test]
fn test_transfer_nft() {
    let mut contract = NFTContract::new();

    let creator = Address { id: 1 };
    let original_owner = Address { id: 2 };
    let new_owner = Address { id: 3 };

    let collection_id = contract
        .create_collection(
            creator,
            true,
            String::from("Test Collection"),
            String::from("TEST"),
            None,
        )
        .unwrap();

    let token_id = contract.mint_nft(creator, true, collection_id, original_owner).unwrap();

    contract.transfer(original_owner, true, new_owner, collection_id, token_id).unwrap();

    let token = contract.get_token(collection_id, token_id).unwrap();
    assert_eq!(token.owner, new_owner);
    assert_eq!(contract.owner_of(collection_id, token_id).unwrap(), new_owner);

    let original_tokens = contract.tokens_of(original_owner);
    let new_tokens = contract.tokens_of(new_owner);

    assert_eq!(original_tokens.len(), 0);
    assert_eq!(new_tokens.len(), 1);
    assert_eq!(new_tokens[0], TokenId { collection_id, token_id });
}

#[test]
fn test_multiple_nfts_in_collection() {
    let mut contract = NFTContract::new();

    let creator = Address { id: 1 };
    let owner1 = Address { id: 2 };
    let owner2 = Address { id: 3 };

    let collection_id = contract
        .create_collection(
            creator,
            true,
            String::from("Multi NFT Collection"),
            String::from("MULTI"),
            None,
        )
        .unwrap();

    let token_id1 = contract.mint_nft(creator, true, collection_id, owner1).unwrap();
    let token_id2 = contract.mint_nft(creator, true, collection_id, owner2).unwrap();
    let token_id3 = contract.mint_nft(creator, true, collection_id, owner1).unwrap();

    assert_eq!(token_id1, 0);
    assert_eq!(token_id2, 1);
    assert_eq!(token_id3, 2);

    assert_eq!(contract.total_tokens_in_collection(collection_id), 3);

    let owner1_tokens = contract.tokens_of(owner1);
    let owner2_tokens = contract.tokens_of(owner2);

    assert_eq!(owner1_tokens.len(), 2);
    assert_eq!(owner2_tokens.len(), 1);
}

#[test]
fn test_mint_in_nonexistent_collection() {
    let mut contract = NFTContract::new();

    let minter = Address { id: 1 };
    let recipient = Address { id: 2 };

    let result = contract.mint_nft(minter, true, 999, recipient);
    assert_eq!(result, Err(Error::CollectionNotFound));
    assert_eq!(contract.total_tokens_in_collection(999), 0);
    assert_eq!(contract.tokens_of(recipient).len(), 0);
}

#[test]
fn test_transfer_not_owner() {
    let mut contract = NFTContract::new();

    let creator = Address { id: 1 };
    let owner = Address { id: 2 };
    let not_owner = Address { id: 3 };
    let recipient = Address { id: 4 };

    let collection_id = contract
        .create_collection(
            creator,
            true,
            String::from("Test Collection"),
            String::from("TEST"),
            None,
        )
        .unwrap();

    let token_id = contract.mint_nft(creator, true, collection_id, owner).unwrap();

    let result = contract.transfer(not_owner, true, recipient, collection_id, token_id);
    assert_eq!(result, Err(Error::NotTokenOwner));

    // The token's owner and both parties' index entries are untouched.
    assert_eq!(contract.owner_of(collection_id, token_id).unwrap(), owner);
    assert_eq!(contract.tokens_of(owner).len(), 1);
    assert_eq!(contract.tokens_of(not_owner).len(), 0);
    assert_eq!(contract.tokens_of(recipient).len(), 0);
}

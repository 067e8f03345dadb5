//! The value types of the registry: identities, records, identifiers and
//! the error taxonomy.

use vstd::prelude::*;

verus! {

/// An external principal able to authorize operations, analogous to an
/// account. The host's signature machinery identifies principals; the
/// registry only needs a value it can compare for equality.
#[derive(Clone, Copy, Debug, PartialEq, Eq, Structural)]
pub struct Address {
    pub id: u64,
}

/// The compound identifier of a token: the collection it was minted into
/// and its sequential number within that collection.
#[derive(Clone, Copy, Debug, PartialEq, Eq, Structural)]
pub struct TokenId {
    pub collection_id: u32,
    pub token_id: u32,
}

/// A named group of tokens. Created once and immutable thereafter.
#[derive(Clone, Debug, PartialEq, Eq)]
pub struct Collection {
    pub owner: Address,
    pub name: String,
    pub symbol: String,
    pub base_uri: Option<String>,
}

/// One token. The owner is the only mutable attribute.
#[derive(Clone, Debug, PartialEq, Eq)]
pub struct Token {
    pub owner: Address,
    pub uri: String,
}

/// Why a mutating operation was refused. Every error aborts the whole
/// operation before any state change.
#[derive(Clone, Copy, Debug, PartialEq, Eq, Structural)]
pub enum Error {
    /// The caller did not supply proof of authorization.
    AuthorizationDenied,
    /// A mint referenced a collection that does not exist.
    CollectionNotFound,
    /// A transfer referenced a token that does not exist.
    TokenNotFound,
    /// A transfer was attempted by an identity that does not own the token.
    NotTokenOwner,
    /// An identifier counter reached the end of its representable range.
    CounterOverflow,
}

} // verus!

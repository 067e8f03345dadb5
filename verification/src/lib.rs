//! A minimal registry for collections of non-fungible tokens.
//!
//! Collections are created with sequential identifiers, tokens are minted
//! into collections with per-collection sequential identifiers, and transfers
//! move tokens between owners. An owner index, a mapping from each owner to
//! the ordered list of tokens it holds, is kept consistent with per-token
//! ownership under every mutation; that consistency is the central invariant
//! of the library and is stated and proved here.
//!
//! Signature checking and the host's persistence and call boundary are
//! external collaborators: the registry takes the outcome of the host's
//! authorization check as a plain argument and owns its state directly.

pub mod owner_index;
pub mod registry;
pub mod types;

pub use owner_index::OwnerIndex;
pub use registry::NFTContract;
pub use types::Address;
pub use types::Collection;
pub use types::Error;
pub use types::Token;
pub use types::TokenId;

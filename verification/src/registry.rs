//! The registry facade: collection creation, minting, transfer and the read
//! accessors, over the entity store (collection and token records with their
//! counters) and the owner index.
//!
//! Identifiers are allocated by position: collection `c` is the record at
//! position `c`, and token `(c, i)` the record at position `i` of collection
//! `c`'s list, so identifiers are sequential from 0 and are never reused.
//! Counter overflow is made explicit: an allocation that would pass
//! `u32::MAX` is refused with `Error::CounterOverflow` rather than wrapping.
//!
//! Authorization is an external capability: each mutating operation takes
//! the outcome of the host's signature check for the acting identity as a
//! boolean and refuses the call when it is false, before any state change.

use vstd::prelude::*;

use crate::owner_index::lemma_push_contains;
use crate::owner_index::lemma_push_no_duplicates;
use crate::owner_index::lemma_remove_all_contains;
use crate::owner_index::lemma_remove_all_no_duplicates;
use crate::owner_index::remove_all;
use crate::owner_index::OwnerIndex;
use crate::types::Address;
use crate::types::Collection;
use crate::types::Error;
use crate::types::Token;
use crate::types::TokenId;

verus! {

/// The registry: every collection, every token, and the owner index.
pub struct NFTContract {
    /// Collection records; the collection with identifier `c` is at
    /// position `c`, so the global counter is the length.
    pub collections: Vec<Collection>,
    /// Token records per collection: the token `(c, i)` is at position `i`
    /// of `tokens[c]`, so each per-collection counter is a length.
    pub tokens: Vec<Vec<Token>>,
    /// The derived owner index.
    pub owner_index: OwnerIndex,
}

/// The view a token gets at mint time: the collection's base URI if
/// present, the empty string otherwise.
pub open spec fn mint_uri(base_uri: Option<String>) -> Seq<char> {
    match base_uri {
        Some(b) => b@,
        None => Seq::empty(),
    }
}

impl NFTContract {
    /// The collection records, in identifier order.
    pub open spec fn cols(self) -> Seq<Collection> {
        self.collections@
    }

    /// The token records, per collection, in identifier order.
    pub open spec fn toks(self) -> Seq<Seq<Token>> {
        Seq::new(self.tokens@.len(), |c: int| self.tokens@[c]@)
    }

    /// The tokens the owner index records for `o`, in receipt order.
    pub open spec fn owned(self, o: Address) -> Seq<TokenId> {
        self.owner_index.owned_by(o)
    }

    /// How many collections have been created.
    pub open spec fn collection_count(self) -> int {
        self.cols().len() as int
    }

    /// Whether a collection with identifier `c` exists.
    pub open spec fn collection_exists(self, c: int) -> bool {
        0 <= c < self.cols().len()
    }

    /// How many tokens were minted into collection `c`; 0 when the
    /// collection was never created.
    pub open spec fn token_count(self, c: int) -> int {
        if 0 <= c < self.toks().len() {
            self.toks()[c].len() as int
        } else {
            0
        }
    }

    /// Whether the token `(c, i)` exists.
    pub open spec fn token_exists(self, c: int, i: int) -> bool {
        &&& 0 <= c < self.toks().len()
        &&& 0 <= i < self.toks()[c].len()
    }

    /// The record of token `(c, i)`.
    pub open spec fn spec_token(self, c: int, i: int) -> Token {
        self.toks()[c][i]
    }

    /// What it means for one recorded token identifier to be sound: it
    /// names an existing token whose current owner is `o`.
    pub open spec fn id_sound(self, t: TokenId, o: Address) -> bool {
        &&& self.token_exists(t.collection_id as int, t.token_id as int)
        &&& self.spec_token(t.collection_id as int, t.token_id as int).owner == o
    }

    /// Well-formedness. The shape clauses tie the token table to the
    /// collection table and bound the counters; the index clauses say the
    /// owner index and per-token ownership agree: every recorded identifier
    /// is sound for its owner, no owner's list repeats an identifier, and
    /// every token is recorded under its owner.
    pub open spec fn wf(self) -> bool {
        &&& self.tokens@.len() == self.collections@.len()
        &&& self.collections@.len() <= u32::MAX as int
        &&& (forall|c: int|
            0 <= c < self.toks().len() ==> (#[trigger] self.toks()[c]).len() <= u32::MAX as int)
        &&& (forall|o: Address, n: int|
            0 <= n < self.owned(o).len() ==> self.id_sound(#[trigger] self.owned(o)[n], o))
        &&& (forall|o: Address| (#[trigger] self.owned(o)).no_duplicates())
        &&& (forall|c: int, i: int|
            #[trigger] self.token_exists(c, i) ==> self.owned(
                self.spec_token(c, i).owner,
            ).contains((TokenId { collection_id: c as u32, token_id: i as u32 })))
    }

    /// A fresh registry: no collections, no tokens, every owner's list
    /// empty.
    pub fn new() -> (r: NFTContract)
        ensures
            r.wf(),
            r.collection_count() == 0,
            r.toks().len() == 0,
            forall|o: Address| r.owned(o) == Seq::<TokenId>::empty(),
    {
        NFTContract { collections: Vec::new(), tokens: Vec::new(), owner_index: OwnerIndex::new() }
    }

    /// Create a new collection and return its identifier.
    ///
    /// `authorized` is the outcome of the host's signature check for
    /// `creator`. The identifier returned is the number of collections
    /// created before the call, so identifiers are 0, 1, 2, ... in call
    /// order and the total collection count equals the number of
    /// successful calls.
    pub fn create_collection(
        &mut self,
        creator: Address,
        authorized: bool,
        name: String,
        symbol: String,
        base_uri: Option<String>,
    ) -> (r: Result<u32, Error>)
        requires
            old(self).wf(),
        ensures
            final(self).wf(),
            !authorized ==> r == Err::<u32, Error>(Error::AuthorizationDenied) && *final(self)
                == *old(self),
            authorized && old(self).collection_count() == u32::MAX as int ==> r == Err::<
                u32,
                Error,
            >(Error::CounterOverflow) && *final(self) == *old(self),
            authorized && old(self).collection_count() < u32::MAX as int ==> {
                &&& r == Ok::<u32, Error>(old(self).collection_count() as u32)
                &&& final(self).cols() == old(self).cols().push(
                    (Collection { owner: creator, name, symbol, base_uri }),
                )
                &&& final(self).toks() == old(self).toks().push(Seq::<Token>::empty())
                &&& forall|o: Address| final(self).owned(o) == old(self).owned(o)
            },
    {
        if !authorized {
            return Err(Error::AuthorizationDenied);
        }
        if self.collections.len() >= u32::MAX as usize {
            return Err(Error::CounterOverflow);
        }
        let id: u32 = self.collections.len() as u32;
        self.collections.push(Collection { owner: creator, name, symbol, base_uri });
        self.tokens.push(Vec::new());
        proof {
            let pre = *old(self);
            let post = *self;
            assert(post.toks() =~~= pre.toks().push(Seq::<Token>::empty()));
            assert forall|o: Address| post.owned(o) == pre.owned(o) by {}
            assert forall|o: Address| (#[trigger] post.owned(o)).no_duplicates() by {
                assert(post.owned(o) == pre.owned(o));
                assert(pre.owned(o).no_duplicates());
            }
            assert forall|o: Address, n: int|
                0 <= n < post.owned(o).len() implies post.id_sound(
                #[trigger] post.owned(o)[n],
                o,
            ) by {
                assert(pre.id_sound(pre.owned(o)[n], o));
            }
            assert forall|c: int, i: int| #[trigger]
                post.token_exists(c, i) implies post.owned(post.spec_token(c, i).owner).contains(
                (TokenId { collection_id: c as u32, token_id: i as u32 }),
            ) by {
                assert(pre.token_exists(c, i));
            }
        }
        Ok(id)
    }

    /// Mint a token into an existing collection and return its identifier
    /// within that collection.
    ///
    /// `authorized` is the outcome of the host's signature check for
    /// `minter`. Any authorized caller may mint into any existing
    /// collection; there is deliberately no collection-ownership check.
    /// The token's URI is the collection's base URI when present and the
    /// empty string otherwise; the identifier returned is the number of
    /// tokens minted into the collection before the call.
    pub fn mint_nft(
        &mut self,
        minter: Address,
        authorized: bool,
        collection_id: u32,
        to: Address,
    ) -> (r: Result<u32, Error>)
        requires
            old(self).wf(),
        ensures
            final(self).wf(),
            !authorized ==> r == Err::<u32, Error>(Error::AuthorizationDenied) && *final(self)
                == *old(self),
            authorized && !old(self).collection_exists(collection_id as int) ==> r == Err::<
                u32,
                Error,
            >(Error::CollectionNotFound) && *final(self) == *old(self),
            authorized && old(self).collection_exists(collection_id as int) && old(
                self,
            ).token_count(collection_id as int) == u32::MAX as int ==> r == Err::<u32, Error>(
                Error::CounterOverflow,
            ) && *final(self) == *old(self),
            authorized && old(self).collection_exists(collection_id as int) && old(
                self,
            ).token_count(collection_id as int) < u32::MAX as int ==> {
                let c = collection_id as int;
                let i = old(self).token_count(c);
                let tid = TokenId { collection_id, token_id: i as u32 };
                &&& r == Ok::<u32, Error>(i as u32)
                &&& final(self).cols() == old(self).cols()
                &&& final(self).toks().len() == old(self).toks().len()
                &&& (forall|c2: int|
                    0 <= c2 < old(self).toks().len() && c2 != c ==> final(self).toks()[c2] == old(
                        self,
                    ).toks()[c2])
                &&& final(self).toks()[c].len() == i + 1
                &&& (forall|j: int| 0 <= j < i ==> final(self).toks()[c][j] == old(self).toks()[c][j])
                &&& final(self).spec_token(c, i).owner == to
                &&& final(self).spec_token(c, i).uri@ == mint_uri(old(self).cols()[c].base_uri)
                &&& final(self).owned(to) == old(self).owned(to).push(tid)
                &&& (forall|o: Address| o != to ==> final(self).owned(o) == old(self).owned(o))
            },
    {
        if !authorized {
            return Err(Error::AuthorizationDenied);
        }
        let cid: usize = collection_id as usize;
        if cid >= self.collections.len() {
            return Err(Error::CollectionNotFound);
        }
        if self.tokens[cid].len() >= u32::MAX as usize {
            return Err(Error::CounterOverflow);
        }
        let token_id: u32 = self.tokens[cid].len() as u32;
        let uri: String = match &self.collections[cid].base_uri {
            Some(b) => b.clone(),
            None => String::new(),
        };
        let row = &mut self.tokens[cid];
        row.push(Token { owner: to, uri });
        let tid = TokenId { collection_id, token_id };
        self.owner_index.add(to, tid);
        proof {
            let pre = *old(self);
            let post = *self;
            let c = cid as int;
            let i = pre.token_count(c);
            assert(post.toks() =~~= pre.toks().update(c, pre.toks()[c].push(post.spec_token(c, i))));
            assert forall|o: Address, n: int|
                0 <= n < post.owned(o).len() implies post.id_sound(
                #[trigger] post.owned(o)[n],
                o,
            ) by {
                if o == to && n == pre.owned(to).len() {
                } else {
                    assert(post.owned(o)[n] == pre.owned(o)[n]);
                    assert(pre.id_sound(pre.owned(o)[n], o));
                }
            }
            assert forall|o: Address| (#[trigger] post.owned(o)).no_duplicates() by {
                if o == to {
                    assert(pre.owned(to).no_duplicates());
                    assert(!pre.owned(to).contains(tid)) by {
                        if pre.owned(to).contains(tid) {
                            let n = choose|n: int|
                                0 <= n < pre.owned(to).len() && pre.owned(to)[n] == tid;
                            assert(pre.id_sound(pre.owned(to)[n], to));
                        }
                    }
                    lemma_push_no_duplicates(pre.owned(to), tid);
                    assert(post.owned(to) == pre.owned(to).push(tid));
                } else {
                    assert(post.owned(o) == pre.owned(o));
                    assert(pre.owned(o).no_duplicates());
                }
            }
            assert forall|c2: int, i2: int| #[trigger]
                post.token_exists(c2, i2) implies post.owned(
                post.spec_token(c2, i2).owner,
            ).contains((TokenId { collection_id: c2 as u32, token_id: i2 as u32 })) by {
                let tid2 = TokenId { collection_id: c2 as u32, token_id: i2 as u32 };
                if c2 == c && i2 == i {
                    assert(post.owned(to)[pre.owned(to).len() as int] == tid);
                } else {
                    assert(pre.token_exists(c2, i2));
                    let o2 = pre.spec_token(c2, i2).owner;
                    assert(pre.owned(o2).contains(tid2));
                    if o2 == to {
                        lemma_push_contains(pre.owned(to), tid, tid2);
                    }
                }
            }
        }
        Ok(token_id)
    }

    /// Transfer the token `(collection_id, token_id)` from its current
    /// owner `from` to `to`.
    ///
    /// `authorized` is the outcome of the host's signature check for
    /// `from`. The token must exist and `from` must be its current owner;
    /// a refused call leaves the registry exactly as it was, in particular
    /// the token's owner and both parties' index entries. On success the
    /// identifier leaves `from`'s list and joins the end of `to`'s.
    pub fn transfer(
        &mut self,
        from: Address,
        authorized: bool,
        to: Address,
        collection_id: u32,
        token_id: u32,
    ) -> (r: Result<(), Error>)
        requires
            old(self).wf(),
        ensures
            final(self).wf(),
            !authorized ==> r == Err::<(), Error>(Error::AuthorizationDenied) && *final(self) == *old(
                self,
            ),
            authorized && !old(self).token_exists(collection_id as int, token_id as int) ==> r
                == Err::<(), Error>(Error::TokenNotFound) && *final(self) == *old(self),
            authorized && old(self).token_exists(collection_id as int, token_id as int) && old(
                self,
            ).spec_token(collection_id as int, token_id as int).owner != from ==> r == Err::<
                (),
                Error,
            >(Error::NotTokenOwner) && *final(self) == *old(self),
            authorized && old(self).token_exists(collection_id as int, token_id as int) && old(
                self,
            ).spec_token(collection_id as int, token_id as int).owner == from ==> {
                let c = collection_id as int;
                let i = token_id as int;
                let tid = TokenId { collection_id, token_id };
                &&& r == Ok::<(), Error>(())
                &&& final(self).cols() == old(self).cols()
                &&& final(self).toks().len() == old(self).toks().len()
                &&& (forall|c2: int|
                    0 <= c2 < old(self).toks().len() && c2 != c ==> final(self).toks()[c2] == old(
                        self,
                    ).toks()[c2])
                &&& final(self).toks()[c].len() == old(self).toks()[c].len()
                &&& (forall|j: int|
                    0 <= j < old(self).toks()[c].len() && j != i ==> final(self).toks()[c][j] == old(
                        self,
                    ).toks()[c][j])
                &&& final(self).spec_token(c, i).owner == to
                &&& final(self).spec_token(c, i).uri == old(self).spec_token(c, i).uri
                &&& (from != to ==> final(self).owned(from) == remove_all(
                    old(self).owned(from),
                    tid,
                ))
                &&& (from != to ==> final(self).owned(to) == old(self).owned(to).push(tid))
                &&& (from == to ==> final(self).owned(from) == remove_all(
                    old(self).owned(from),
                    tid,
                ).push(tid))
                &&& (forall|o: Address|
                    o != from && o != to ==> final(self).owned(o) == old(self).owned(o))
            },
    {
        if !authorized {
            return Err(Error::AuthorizationDenied);
        }
        let cid: usize = collection_id as usize;
        let tix: usize = token_id as usize;
        if cid >= self.tokens.len() {
            return Err(Error::TokenNotFound);
        }
        if tix >= self.tokens[cid].len() {
            return Err(Error::TokenNotFound);
        }
        if self.tokens[cid][tix].owner != from {
            return Err(Error::NotTokenOwner);
        }
        let row = &mut self.tokens[cid];
        let tok = &mut row[tix];
        tok.owner = to;
        let tid = TokenId { collection_id, token_id };
        self.owner_index.remove(from, tid);
        self.owner_index.add(to, tid);
        proof {
            let pre = *old(self);
            let post = *self;
            let c = cid as int;
            let i = tix as int;
            assert(post.toks() =~~= pre.toks().update(c, pre.toks()[c].update(i, post.spec_token(c, i))));
            assert(pre.owned(from).no_duplicates());
            lemma_remove_all_no_duplicates(pre.owned(from), tid);
            assert(!remove_all(pre.owned(from), tid).contains(tid)) by {
                lemma_remove_all_contains(pre.owned(from), tid, tid);
            }
            assert forall|o: Address, n: int|
                0 <= n < post.owned(o).len() implies post.id_sound(
                #[trigger] post.owned(o)[n],
                o,
            ) by {
                let t = post.owned(o)[n];
                if o == to && n == post.owned(to).len() - 1 {
                    assert(t == tid);
                } else {
                    if o == from || o == to {
                        assert(post.owned(o)[n] != tid) by {
                            if from == to {
                                assert(remove_all(pre.owned(from), tid).no_duplicates());
                                lemma_push_no_duplicates(remove_all(pre.owned(from), tid), tid);
                            } else if o == to {
                                if pre.owned(to).contains(tid) {
                                    let m = choose|m: int|
                                        0 <= m < pre.owned(to).len() && pre.owned(to)[m] == tid;
                                    assert(pre.id_sound(pre.owned(to)[m], to));
                                }
                                assert(post.owned(to)[n] == pre.owned(to)[n]);
                            }
                        }
                        assert(pre.owned(o).contains(t)) by {
                            if o == from {
                                if from == to {
                                    assert(remove_all(pre.owned(from), tid).contains(t)) by {
                                        assert(remove_all(pre.owned(from), tid).push(tid)[n] == t);
                                    }
                                }
                                lemma_remove_all_contains(pre.owned(from), tid, t);
                            } else {
                                assert(pre.owned(to)[n] == t);
                            }
                        }
                        let m = choose|m: int| 0 <= m < pre.owned(o).len() && pre.owned(o)[m] == t;
                        assert(pre.id_sound(pre.owned(o)[m], o));
                    } else {
                        assert(post.owned(o)[n] == pre.owned(o)[n]);
                        assert(pre.id_sound(pre.owned(o)[n], o));
                        assert(post.owned(o)[n] != tid) by {
                            if pre.owned(o)[n] == tid {
                                assert(pre.spec_token(c, i).owner == o);
                            }
                        }
                    }
                }
            }
            assert forall|o: Address| (#[trigger] post.owned(o)).no_duplicates() by {
                if from == to && o == from {
                    lemma_push_no_duplicates(remove_all(pre.owned(from), tid), tid);
                    assert(post.owned(o) == remove_all(pre.owned(from), tid).push(tid));
                } else if o == from {
                    assert(post.owned(o) == remove_all(pre.owned(from), tid));
                } else if o == to {
                    assert(pre.owned(to).no_duplicates());
                    assert(!pre.owned(to).contains(tid)) by {
                        if pre.owned(to).contains(tid) {
                            let m = choose|m: int|
                                0 <= m < pre.owned(to).len() && pre.owned(to)[m] == tid;
                            assert(pre.id_sound(pre.owned(to)[m], to));
                        }
                    }
                    lemma_push_no_duplicates(pre.owned(to), tid);
                    assert(post.owned(to) == pre.owned(to).push(tid));
                } else {
                    assert(post.owned(o) == pre.owned(o));
                    assert(pre.owned(o).no_duplicates());
                }
            }
            assert forall|c2: int, i2: int| #[trigger]
                post.token_exists(c2, i2) implies post.owned(
                post.spec_token(c2, i2).owner,
            ).contains((TokenId { collection_id: c2 as u32, token_id: i2 as u32 })) by {
                let tid2 = TokenId { collection_id: c2 as u32, token_id: i2 as u32 };
                assert(pre.token_exists(c2, i2));
                if c2 == c && i2 == i {
                    assert(post.owned(to).last() == tid);
                    assert(post.owned(to).contains(tid)) by {
                        assert(post.owned(to)[post.owned(to).len() - 1] == tid);
                    }
                } else {
                    let o2 = pre.spec_token(c2, i2).owner;
                    assert(post.spec_token(c2, i2) == pre.spec_token(c2, i2));
                    assert(pre.owned(o2).contains(tid2));
                    assert(tid2 != tid) by {
                        if c2 != c {
                            assert(c2 as u32 != c as u32);
                        } else {
                            assert(i2 as u32 != i as u32);
                        }
                    }
                    if o2 == from {
                        lemma_remove_all_contains(pre.owned(from), tid, tid2);
                        if from == to {
                            lemma_push_contains(remove_all(pre.owned(from), tid), tid, tid2);
                        }
                    } else if o2 == to {
                        lemma_push_contains(pre.owned(to), tid, tid2);
                    }
                }
            }
        }
        Ok(())
    }

    /// The record of a collection, or `None` when no such collection
    /// exists.
    pub fn get_collection(&self, collection_id: u32) -> (r: Option<Collection>)
        ensures
            r == if self.collection_exists(collection_id as int) {
                Some(self.cols()[collection_id as int])
            } else {
                None::<Collection>
            },
    {
        let cid: usize = collection_id as usize;
        if cid >= self.collections.len() {
            return None;
        }
        let c = &self.collections[cid];
        let base_uri: Option<String> = match &c.base_uri {
            Some(b) => Some(b.clone()),
            None => None,
        };
        Some(Collection { owner: c.owner, name: c.name.clone(), symbol: c.symbol.clone(), base_uri })
    }

    /// The record of a token, or `None` when no such token exists.
    pub fn get_token(&self, collection_id: u32, token_id: u32) -> (r: Option<Token>)
        ensures
            r == if self.token_exists(collection_id as int, token_id as int) {
                Some(self.spec_token(collection_id as int, token_id as int))
            } else {
                None::<Token>
            },
    {
        let cid: usize = collection_id as usize;
        let tix: usize = token_id as usize;
        if cid >= self.tokens.len() {
            return None;
        }
        if tix >= self.tokens[cid].len() {
            return None;
        }
        let t = &self.tokens[cid][tix];
        Some(Token { owner: t.owner, uri: t.uri.clone() })
    }

    /// The current owner of a token, or `None` when no such token exists.
    pub fn owner_of(&self, collection_id: u32, token_id: u32) -> (r: Option<Address>)
        ensures
            r == if self.token_exists(collection_id as int, token_id as int) {
                Some(self.spec_token(collection_id as int, token_id as int).owner)
            } else {
                None::<Address>
            },
    {
        let cid: usize = collection_id as usize;
        let tix: usize = token_id as usize;
        if cid >= self.tokens.len() {
            return None;
        }
        if tix >= self.tokens[cid].len() {
            return None;
        }
        Some(self.tokens[cid][tix].owner)
    }

    /// All tokens currently recorded for `owner`, in receipt order; empty
    /// for an owner with no tokens.
    pub fn tokens_of(&self, owner: Address) -> (r: Vec<TokenId>)
        ensures
            r@ == self.owned(owner),
    {
        self.owner_index.tokens_of(owner)
    }

    /// The total number of collections created.
    pub fn total_collections(&self) -> (r: u32)
        requires
            self.wf(),
        ensures
            r as int == self.collection_count(),
    {
        self.collections.len() as u32
    }

    /// The number of tokens minted into a collection; 0 when the
    /// collection was never created.
    pub fn total_tokens_in_collection(&self, collection_id: u32) -> (r: u32)
        requires
            self.wf(),
        ensures
            r as int == self.token_count(collection_id as int),
    {
        let cid: usize = collection_id as usize;
        if cid >= self.tokens.len() {
            return 0;
        }
        self.tokens[cid].len() as u32
    }
}

/// Owner-index consistency: in a well-formed registry, every existing token
/// is recorded exactly once in its current owner's list, and in no other
/// identity's list.
pub proof fn lemma_owner_index_consistent(s: NFTContract, c: int, i: int, other: Address)
    requires
        s.wf(),
        s.token_exists(c, i),
    ensures
        ({
            let o = s.spec_token(c, i).owner;
            let tid = TokenId { collection_id: c as u32, token_id: i as u32 };
            &&& s.owned(o).contains(tid)
            &&& (forall|n1: int, n2: int|
                0 <= n1 < s.owned(o).len() && 0 <= n2 < s.owned(o).len() && s.owned(o)[n1] == tid
                    && s.owned(o)[n2] == tid ==> n1 == n2)
            &&& (other != o ==> !s.owned(other).contains(tid))
        }),
{
    let o = s.spec_token(c, i).owner;
    let tid = TokenId { collection_id: c as u32, token_id: i as u32 };
    assert(s.owned(o).contains(tid));
    assert(s.owned(o).no_duplicates());
    if other != o && s.owned(other).contains(tid) {
        let n = choose|n: int| 0 <= n < s.owned(other).len() && s.owned(other)[n] == tid;
        assert(s.id_sound(s.owned(other)[n], other));
        assert(s.spec_token(c, i).owner == other);
    }
}

/// Sequential identifier allocation: when a counter starts at 0 and each
/// call returns the counter and increments it, the values returned are
/// exactly 0, 1, 2, ... in call order, and the final counter equals the
/// number of calls. `counts[k]` is the counter before call `k`, `ids[k]`
/// what call `k` returned.
pub proof fn lemma_ids_sequential(counts: Seq<int>, ids: Seq<int>)
    requires
        counts.len() == ids.len() + 1,
        counts[0] == 0,
        forall|k: int|
            0 <= k < ids.len() ==> #[trigger] ids[k] == counts[k] && counts[k + 1] == counts[k] + 1,
    ensures
        forall|k: int| 0 <= k < ids.len() ==> #[trigger] ids[k] == k,
        counts.last() == ids.len(),
    decreases ids.len(),
{
    if ids.len() > 0 {
        let n = ids.len() - 1;
        assert(ids[n] == counts[n] && counts[n + 1] == counts[n] + 1);
        assert forall|k: int|
            0 <= k < n implies #[trigger] ids.drop_last()[k] == counts.drop_last()[k]
            && counts.drop_last()[k + 1] == counts.drop_last()[k] + 1 by {
            assert(ids[k] == counts[k] && counts[k + 1] == counts[k] + 1);
            assert(ids.drop_last()[k] == ids[k]);
            assert(counts.drop_last()[k] == counts[k]);
            assert(counts.drop_last()[k + 1] == counts[k + 1]);
        }
        lemma_ids_sequential(counts.drop_last(), ids.drop_last());
        assert(counts.drop_last().last() == counts[n]);
        assert(counts[n] == n);
        assert forall|k: int| 0 <= k < ids.len() implies #[trigger] ids[k] == k by {
            if k < n {
                assert(ids.drop_last()[k] == k);
                assert(ids.drop_last()[k] == ids[k]);
            } else {
                assert(ids[n] == counts[n]);
            }
        }
        assert(counts.last() == counts[n + 1]);
    }
}

/// Collection identifiers come in call order: over any run of successful
/// `create_collection` calls starting from an empty registry, the
/// identifiers returned are exactly 0, 1, 2, ... and the total collection
/// count afterwards equals the number of calls. `states[k]` is the registry
/// before call `k`, `ids[k]` what call `k` returned; the hypotheses are
/// exactly what `create_collection` ensures of a successful call.
pub proof fn lemma_collection_ids_in_call_order(states: Seq<NFTContract>, ids: Seq<u32>)
    requires
        states.len() == ids.len() + 1,
        states[0].collection_count() == 0,
        forall|k: int|
            0 <= k < ids.len() ==> (#[trigger] ids[k]) as int == states[k].collection_count()
                && states[k + 1].collection_count() == states[k].collection_count() + 1,
    ensures
        forall|k: int| 0 <= k < ids.len() ==> (#[trigger] ids[k]) as int == k,
        states.last().collection_count() == ids.len(),
{
    let counts = Seq::new(states.len(), |k: int| states[k].collection_count());
    let raw = Seq::new(ids.len(), |k: int| ids[k] as int);
    assert forall|k: int|
        0 <= k < raw.len() implies #[trigger] raw[k] == counts[k] && counts[k + 1] == counts[k]
        + 1 by {
        assert(ids[k] as int == states[k].collection_count());
    }
    lemma_ids_sequential(counts, raw);
    assert forall|k: int| 0 <= k < ids.len() implies (#[trigger] ids[k]) as int == k by {
        assert(raw[k] == k);
    }
    assert(counts.last() == states.last().collection_count());
}

/// Token identifiers come in call order within one collection: over any
/// run of successful `mint_nft` calls against collection `c`, starting when
/// the collection's token count is 0, the identifiers returned are exactly
/// 0, 1, 2, ... and the collection's token count afterwards equals the
/// number of mints. The hypotheses are exactly what `mint_nft` ensures of a
/// successful call into collection `c`.
pub proof fn lemma_token_ids_in_call_order(states: Seq<NFTContract>, ids: Seq<u32>, c: int)
    requires
        states.len() == ids.len() + 1,
        states[0].token_count(c) == 0,
        forall|k: int|
            0 <= k < ids.len() ==> (#[trigger] ids[k]) as int == states[k].token_count(c)
                && states[k + 1].token_count(c) == states[k].token_count(c) + 1,
    ensures
        forall|k: int| 0 <= k < ids.len() ==> (#[trigger] ids[k]) as int == k,
        states.last().token_count(c) == ids.len(),
{
    let counts = Seq::new(states.len(), |k: int| states[k].token_count(c));
    let raw = Seq::new(ids.len(), |k: int| ids[k] as int);
    assert forall|k: int|
        0 <= k < raw.len() implies #[trigger] raw[k] == counts[k] && counts[k + 1] == counts[k]
        + 1 by {
        assert(ids[k] as int == states[k].token_count(c));
    }
    lemma_ids_sequential(counts, raw);
    assert forall|k: int| 0 <= k < ids.len() implies (#[trigger] ids[k]) as int == k by {
        assert(raw[k] == k);
    }
    assert(counts.last() == states.last().token_count(c));
}

} // verus!

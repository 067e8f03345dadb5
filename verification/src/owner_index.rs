//! The owner index: a mapping from each owner to the ordered list of token
//! identifiers it holds, stored as a list of per-owner entries.
//!
//! The index is a derived structure; the registry keeps it consistent with
//! per-token ownership. This module only promises what each operation does
//! to the per-owner lists; the consistency invariant itself lives with the
//! registry.

use vstd::prelude::*;

use crate::types::Address;
use crate::types::TokenId;

verus! {

/// One owner's entry: the tokens it holds, in the order they were received.
pub struct OwnerEntry {
    pub owner: Address,
    pub tokens: Vec<TokenId>,
}

/// The whole index. The first entry for an owner is the authoritative one;
/// the operations below never create a second entry for the same owner.
pub struct OwnerIndex {
    pub entries: Vec<OwnerEntry>,
}

/// The list of tokens that `owner`'s first entry holds, or the empty
/// sequence when no entry exists.
pub open spec fn lookup(entries: Seq<OwnerEntry>, owner: Address) -> Seq<TokenId>
    decreases entries.len(),
{
    if entries.len() == 0 {
        Seq::empty()
    } else if entries[0].owner == owner {
        entries[0].tokens@
    } else {
        lookup(entries.drop_first(), owner)
    }
}

/// `s` with every occurrence of `t` filtered out, order otherwise kept.
pub open spec fn remove_all(s: Seq<TokenId>, t: TokenId) -> Seq<TokenId>
    decreases s.len(),
{
    if s.len() == 0 {
        Seq::empty()
    } else if s.last() == t {
        remove_all(s.drop_last(), t)
    } else {
        remove_all(s.drop_last(), t).push(s.last())
    }
}

/// A sequence contains an element after a push exactly when it contained it
/// before or the element is the pushed one.
pub(crate) proof fn lemma_push_contains(s: Seq<TokenId>, x: TokenId, y: TokenId)
    ensures
        s.push(x).contains(y) <==> (s.contains(y) || y == x),
{
    if s.contains(y) {
        let n = choose|n: int| 0 <= n < s.len() && s[n] == y;
        assert(s.push(x)[n] == y);
    }
    if y == x {
        assert(s.push(x)[s.len() as int] == y);
    }
    if s.push(x).contains(y) && y != x {
        let n = choose|n: int| 0 <= n < s.push(x).len() && s.push(x)[n] == y;
        assert(s[n] == y);
    }
}

/// Filtering keeps exactly the elements other than the filtered one.
pub(crate) proof fn lemma_remove_all_contains(s: Seq<TokenId>, t: TokenId, x: TokenId)
    ensures
        remove_all(s, t).contains(x) <==> (s.contains(x) && x != t),
    decreases s.len(),
{
    if s.len() == 0 {
    } else {
        lemma_remove_all_contains(s.drop_last(), t, x);
        assert(s.contains(x) <==> (s.drop_last().contains(x) || s.last() == x)) by {
            if s.contains(x) {
                let n = choose|n: int| 0 <= n < s.len() && s[n] == x;
                if n < s.len() - 1 {
                    assert(s.drop_last()[n] == x);
                }
            }
            if s.drop_last().contains(x) {
                let n = choose|n: int| 0 <= n < s.drop_last().len() && s.drop_last()[n] == x;
                assert(s[n] == x);
            }
        }
        if s.last() != t {
            lemma_push_contains(remove_all(s.drop_last(), t), s.last(), x);
        }
    }
}

/// Pushing a fresh element onto a duplicate-free sequence keeps it
/// duplicate-free.
pub(crate) proof fn lemma_push_no_duplicates(s: Seq<TokenId>, x: TokenId)
    requires
        s.no_duplicates(),
        !s.contains(x),
    ensures
        s.push(x).no_duplicates(),
{
    assert forall|i: int, j: int|
        0 <= i < s.push(x).len() && 0 <= j < s.push(x).len() && i != j implies s.push(x)[i]
        != s.push(x)[j] by {
        if i < s.len() && j < s.len() {
        } else if i < s.len() {
            assert(s.contains(s[i])) by {
                assert(s[i] == s[i]);
            }
        } else if j < s.len() {
            assert(s.contains(s[j])) by {
                assert(s[j] == s[j]);
            }
        }
    }
}

/// Filtering a duplicate-free sequence leaves it duplicate-free.
pub(crate) proof fn lemma_remove_all_no_duplicates(s: Seq<TokenId>, t: TokenId)
    requires
        s.no_duplicates(),
    ensures
        remove_all(s, t).no_duplicates(),
    decreases s.len(),
{
    if s.len() == 0 {
    } else {
        assert(s.drop_last().no_duplicates());
        lemma_remove_all_no_duplicates(s.drop_last(), t);
        if s.last() != t {
            assert(!remove_all(s.drop_last(), t).contains(s.last())) by {
                lemma_remove_all_contains(s.drop_last(), t, s.last());
                if s.drop_last().contains(s.last()) {
                    let n = choose|n: int|
                        0 <= n < s.drop_last().len() && s.drop_last()[n] == s.last();
                    assert(s[n] == s[s.len() - 1]);
                }
            }
            lemma_push_no_duplicates(remove_all(s.drop_last(), t), s.last());
        }
    }
}

/// When the first entry for `owner` stands at position `k`, the lookup
/// returns that entry's list.
proof fn lemma_lookup_first_match(entries: Seq<OwnerEntry>, owner: Address, k: int)
    requires
        0 <= k < entries.len(),
        entries[k].owner == owner,
        forall|j: int| 0 <= j < k ==> entries[j].owner != owner,
    ensures
        lookup(entries, owner) == entries[k].tokens@,
    decreases k,
{
    if k == 0 {
    } else {
        assert(entries[0].owner != owner);
        assert forall|j: int| 0 <= j < k - 1 implies entries.drop_first()[j].owner != owner by {
            assert(entries.drop_first()[j] == entries[j + 1]);
        }
        assert(entries.drop_first()[k - 1] == entries[k]);
        lemma_lookup_first_match(entries.drop_first(), owner, k - 1);
    }
}

/// When no entry is for `owner`, the lookup returns the empty sequence.
proof fn lemma_lookup_absent(entries: Seq<OwnerEntry>, owner: Address)
    requires
        forall|j: int| 0 <= j < entries.len() ==> entries[j].owner != owner,
    ensures
        lookup(entries, owner) == Seq::<TokenId>::empty(),
    decreases entries.len(),
{
    if entries.len() == 0 {
    } else {
        assert(entries[0].owner != owner);
        assert forall|j: int| 0 <= j < entries.drop_first().len() implies entries.drop_first()[j].owner
            != owner by {
            assert(entries.drop_first()[j] == entries[j + 1]);
        }
        lemma_lookup_absent(entries.drop_first(), owner);
    }
}

/// Replacing an entry in place, without changing which owner it is for,
/// leaves every other owner's lookup unchanged.
proof fn lemma_lookup_update_other(entries: Seq<OwnerEntry>, k: int, e: OwnerEntry, o: Address)
    requires
        0 <= k < entries.len(),
        e.owner == entries[k].owner,
        o != e.owner,
    ensures
        lookup(entries.update(k, e), o) == lookup(entries, o),
    decreases entries.len(),
{
    let upd = entries.update(k, e);
    if k == 0 {
        assert(upd[0].owner != o);
        assert(entries[0].owner != o);
        assert(upd.drop_first() =~= entries.drop_first());
    } else {
        assert(upd[0] == entries[0]);
        if entries[0].owner == o {
        } else {
            assert(upd.drop_first() =~= entries.drop_first().update(k - 1, e));
            assert(entries.drop_first()[k - 1] == entries[k]);
            lemma_lookup_update_other(entries.drop_first(), k - 1, e, o);
        }
    }
}

/// What appending a new entry does to each owner's lookup.
proof fn lemma_lookup_push(entries: Seq<OwnerEntry>, e: OwnerEntry, o: Address)
    ensures
        o != e.owner ==> lookup(entries.push(e), o) == lookup(entries, o),
        (o == e.owner && forall|j: int| 0 <= j < entries.len() ==> entries[j].owner != o)
            ==> lookup(entries.push(e), o) == e.tokens@,
    decreases entries.len(),
{
    let p = entries.push(e);
    if entries.len() == 0 {
        assert(p[0] == e);
        if o != e.owner {
            assert(p.drop_first() =~= Seq::<OwnerEntry>::empty());
            assert(lookup(p, o) == lookup(p.drop_first(), o));
            assert(lookup(p.drop_first(), o) == Seq::<TokenId>::empty());
            assert(lookup(entries, o) == Seq::<TokenId>::empty());
        } else {
            assert(lookup(p, o) == e.tokens@);
        }
    } else {
        assert(p[0] == entries[0]);
        if entries[0].owner == o {
            assert(lookup(p, o) == p[0].tokens@);
            assert(lookup(entries, o) == entries[0].tokens@);
        } else {
            assert(p.drop_first() =~= entries.drop_first().push(e));
            assert forall|j: int| 0 <= j < entries.drop_first().len() implies entries.drop_first()[j]
                == entries[j + 1] by {}
            lemma_lookup_push(entries.drop_first(), e, o);
            assert(lookup(p, o) == lookup(p.drop_first(), o));
            assert(lookup(entries, o) == lookup(entries.drop_first(), o));
            if o != e.owner {
                assert(lookup(entries.drop_first().push(e), o) == lookup(entries.drop_first(), o));
            }
        }
    }
}

impl OwnerIndex {
    /// The list of tokens the index records for `owner`; empty when the
    /// owner has no entry.
    pub open spec fn owned_by(self, owner: Address) -> Seq<TokenId> {
        lookup(self.entries@, owner)
    }

    /// An empty index: every owner's list is empty.
    pub fn new() -> (r: OwnerIndex)
        ensures
            r.entries@.len() == 0,
            forall|o: Address| r.owned_by(o) == Seq::<TokenId>::empty(),
    {
        OwnerIndex { entries: Vec::new() }
    }

    /// Position of the first entry for `owner`, if one exists, together
    /// with what that means for the lookup.
    fn find(&self, owner: Address) -> (r: Option<usize>)
        ensures
            match r {
                Some(k) => {
                    &&& k < self.entries@.len()
                    &&& self.entries@[k as int].owner == owner
                    &&& forall|j: int| 0 <= j < k ==> self.entries@[j].owner != owner
                    &&& self.owned_by(owner) == self.entries@[k as int].tokens@
                },
                None => {
                    &&& forall|j: int| 0 <= j < self.entries@.len() ==> self.entries@[j].owner
                        != owner
                    &&& self.owned_by(owner) == Seq::<TokenId>::empty()
                },
            },
    {
        let n: usize = self.entries.len();
        let mut k: usize = 0;
        while k < n
            invariant
                n == self.entries@.len(),
                k <= n,
                forall|j: int| 0 <= j < k ==> self.entries@[j].owner != owner,
            decreases n - k,
        {
            if self.entries[k].owner == owner {
                proof {
                    lemma_lookup_first_match(self.entries@, owner, k as int);
                }
                return Some(k);
            }
            k += 1;
        }
        proof {
            lemma_lookup_absent(self.entries@, owner);
        }
        None
    }

    /// The tokens recorded for `owner`, as a fresh vector in list order.
    pub fn tokens_of(&self, owner: Address) -> (r: Vec<TokenId>)
        ensures
            r@ == self.owned_by(owner),
    {
        match self.find(owner) {
            None => Vec::new(),
            Some(k) => {
                let list = &self.entries[k].tokens;
                let mut out: Vec<TokenId> = Vec::new();
                let n: usize = list.len();
                let mut j: usize = 0;
                while j < n
                    invariant
                        n == list@.len(),
                        j <= n,
                        out@ == list@.take(j as int),
                    decreases n - j,
                {
                    out.push(list[j]);
                    proof {
                        assert(list@.take(j as int + 1) =~= list@.take(j as int).push(
                            list@[j as int],
                        ));
                    }
                    j += 1;
                }
                proof {
                    assert(list@.take(n as int) =~= list@);
                }
                out
            },
        }
    }

    /// Append `t` to `owner`'s list, creating the entry if need be. No
    /// other owner's list changes.
    pub fn add(&mut self, owner: Address, t: TokenId)
        ensures
            final(self).owned_by(owner) == old(self).owned_by(owner).push(t),
            forall|o: Address| o != owner ==> final(self).owned_by(o) == old(self).owned_by(o),
    {
        let found = self.find(owner);
        match found {
            Some(k) => {
                let e = &mut self.entries[k];
                e.tokens.push(t);
                proof {
                    assert(self.entries@ =~= old(self).entries@.update(
                        k as int,
                        self.entries@[k as int],
                    ));
                    lemma_lookup_first_match(self.entries@, owner, k as int);
                    assert forall|o: Address| o != owner implies self.owned_by(o) == old(
                        self,
                    ).owned_by(o) by {
                        lemma_lookup_update_other(
                            old(self).entries@,
                            k as int,
                            self.entries@[k as int],
                            o,
                        );
                    }
                }
            },
            None => {
                let mut list: Vec<TokenId> = Vec::new();
                list.push(t);
                let e = OwnerEntry { owner, tokens: list };
                self.entries.push(e);
                proof {
                    lemma_lookup_push(old(self).entries@, e, owner);
                    assert(self.owned_by(owner) =~= old(self).owned_by(owner).push(t));
                    assert forall|o: Address| o != owner implies self.owned_by(o) == old(
                        self,
                    ).owned_by(o) by {
                        lemma_lookup_push(old(self).entries@, e, o);
                    }
                }
            },
        }
    }

    /// Filter every occurrence of `t` out of `owner`'s list; a no-op when
    /// the owner has no entry. No other owner's list changes.
    pub fn remove(&mut self, owner: Address, t: TokenId)
        ensures
            final(self).owned_by(owner) == remove_all(old(self).owned_by(owner), t),
            forall|o: Address| o != owner ==> final(self).owned_by(o) == old(self).owned_by(o),
    {
        let found = self.find(owner);
        match found {
            None => {
            },
            Some(k) => {
                let mut kept: Vec<TokenId> = Vec::new();
                let n: usize = self.entries[k].tokens.len();
                let mut j: usize = 0;
                while j < n
                    invariant
                        self == old(self),
                        k < self.entries@.len(),
                        n == self.entries@[k as int].tokens@.len(),
                        j <= n,
                        kept@ == remove_all(self.entries@[k as int].tokens@.take(j as int), t),
                    decreases n - j,
                {
                    let x = self.entries[k].tokens[j];
                    if x != t {
                        kept.push(x);
                    }
                    proof {
                        let full = self.entries@[k as int].tokens@;
                        assert(full.take(j as int + 1).drop_last() =~= full.take(j as int));
                        assert(full.take(j as int + 1).last() == full[j as int]);
                    }
                    j += 1;
                }
                proof {
                    assert(self.entries@[k as int].tokens@.take(n as int) =~= self.entries@[k as int].tokens@);
                }
                let e = &mut self.entries[k];
                e.tokens = kept;
                proof {
                    assert(self.entries@ =~= old(self).entries@.update(
                        k as int,
                        self.entries@[k as int],
                    ));
                    lemma_lookup_first_match(self.entries@, owner, k as int);
                    assert forall|o: Address| o != owner implies self.owned_by(o) == old(
                        self,
                    ).owned_by(o) by {
                        lemma_lookup_update_other(
                            old(self).entries@,
                            k as int,
                            self.entries@[k as int],
                            o,
                        );
                    }
                }
            },
        }
    }
}

} // verus!

//! Enumeration of all token ids and of the token ids of each owner.
//!
//! Both lists take insertion at the end and removal of any element by
//! swap-and-pop: the last element moves into the freed slot, so order is
//! not preserved across removals, only membership. On the global list
//! both are O(1); an owner's list is first found by a scan over every
//! owner that has held a token, after which they are O(1) too.
use vstd::prelude::*;

use crate::address::Address;
use crate::uint256::{IdMap, Uint256};

verus! {

/// An `owner`'s token query was out of bounds for `index`.
///
/// An `owner` equal to the null address marks a global query.
#[derive(Clone, Copy, Debug, PartialEq, Eq, Structural)]
pub struct ERC721OutOfBoundsIndex {
    pub owner: Address,
    pub index: usize,
}

/// Batch minting is not allowed while tokens are enumerated.
#[derive(Clone, Copy, Debug, PartialEq, Eq, Structural)]
pub struct ERC721EnumerableForbiddenBatchMint {}

/// An enumeration error.
#[derive(Clone, Copy, Debug, PartialEq, Eq, Structural)]
pub enum Error {
    /// A token query was out of bounds for its index.
    OutOfBoundsIndex(ERC721OutOfBoundsIndex),
    /// Batch minting is not allowed.
    EnumerableForbiddenBatchMint(ERC721EnumerableForbiddenBatchMint),
}

/// The error for an out-of-bounds query of `owner`'s list at `index`.
pub open spec fn out_of_bounds(owner: Address, index: usize) -> Error {
    Error::OutOfBoundsIndex(ERC721OutOfBoundsIndex { owner, index })
}

/// `s` with its element at `i` replaced by its last element, then
/// shortened by one: the swap-and-pop removal of position `i`.
pub open spec fn swap_remove(s: Seq<Uint256>, i: int) -> Seq<Uint256> {
    s.update(i, s.last()).drop_last()
}

/// What a query of the global list at `index` yields.
pub open spec fn token_by_index_spec(tokens: Seq<Uint256>, index: usize) -> Result<Uint256, Error> {
    if index < tokens.len() {
        Ok(tokens[index as int])
    } else {
        Err(out_of_bounds(Address::null(), index))
    }
}

/// What a query of `owner`'s list at `index` yields: an empty slot,
/// past the end or holding the reserved id zero, is out of bounds.
pub open spec fn token_of_owner_by_index_spec(
    owned: Seq<Uint256>,
    owner: Address,
    index: usize,
) -> Result<Uint256, Error> {
    if index < owned.len() && owned[index as int] != Uint256::spec_zero() {
        Ok(owned[index as int])
    } else {
        Err(out_of_bounds(owner, index))
    }
}

/// The interface of the enumeration extension.
pub trait IErc721Enumerable {
    /// All live token ids, in enumeration order.
    spec fn tokens(&self) -> Seq<Uint256>;

    /// The token ids that `owner` holds, in enumeration order.
    spec fn tokens_of(&self, owner: Address) -> Seq<Uint256>;

    /// The internal indexes agree with the two lists.
    spec fn well_formed(&self) -> bool;

    /// Returns a token id owned by `owner` at `index` of its list.
    fn token_of_owner_by_index(&self, owner: Address, index: usize) -> (r: Result<Uint256, Error>)
        requires
            self.well_formed(),
        ensures
            r == token_of_owner_by_index_spec(self.tokens_of(owner), owner, index),
    ;

    /// Returns the number of live tokens.
    fn total_supply(&self) -> (r: usize)
        ensures
            r == self.tokens().len(),
    ;

    /// Returns the token id at `index` of the global list.
    fn token_by_index(&self, index: usize) -> (r: Result<Uint256, Error>)
        ensures
            r == token_by_index_spec(self.tokens(), index),
    ;
}

/// State of the enumeration extension.
///
/// The owners that have held a token sit in `owners`; the list of the
/// owner at slot `s` is `owned_tokens[s]`. `owned_tokens_index` maps each
/// owned token to its position in its owner's list, `all_tokens_index`
/// each live token to its position in `all_tokens`.
#[derive(Debug)]
pub struct Erc721Enumerable {
    owners: Vec<Address>,
    owned_tokens: Vec<Vec<Uint256>>,
    owned_tokens_index: IdMap,
    all_tokens: Vec<Uint256>,
    all_tokens_index: IdMap,
}

/// Whether `owner` has a slot in `owners`.
spec fn has_slot(owners: Seq<Address>, owner: Address) -> bool {
    exists|s: int| 0 <= s < owners.len() && owners[s] == owner
}

/// The slot of `owner` in `owners`, where it has one.
spec fn slot_of(owners: Seq<Address>, owner: Address) -> int {
    choose|s: int| 0 <= s < owners.len() && owners[s] == owner
}

impl IErc721Enumerable for Erc721Enumerable {
    closed spec fn tokens(&self) -> Seq<Uint256> {
        self.all_tokens@
    }

    closed spec fn tokens_of(&self, owner: Address) -> Seq<Uint256> {
        if has_slot(self.owners@, owner) {
            self.owned_tokens@[slot_of(self.owners@, owner)]@
        } else {
            Seq::empty()
        }
    }

    closed spec fn well_formed(&self) -> bool {
        &&& self.owners_distinct()
        &&& self.owned_indexed()
        &&& self.owned_keys_live()
        &&& self.owned_unique()
        &&& self.all_indexed()
    }

    fn token_of_owner_by_index(&self, owner: Address, index: usize) -> (r: Result<Uint256, Error>) {
        match self.find_slot(owner) {
            Some(s) => {
                proof {
                    self.lemma_tokens_of_slot(s as int);
                }
                let owned = &self.owned_tokens[s];
                if index < owned.len() && !owned[index].is_zero() {
                    Ok(owned[index])
                } else {
                    Err(Error::OutOfBoundsIndex(ERC721OutOfBoundsIndex { owner, index }))
                }
            },
            None => Err(Error::OutOfBoundsIndex(ERC721OutOfBoundsIndex { owner, index })),
        }
    }

    fn total_supply(&self) -> (r: usize) {
        self.all_tokens.len()
    }

    fn token_by_index(&self, index: usize) -> (r: Result<Uint256, Error>) {
        if index < self.all_tokens.len() {
            Ok(self.all_tokens[index])
        } else {
            Err(Error::OutOfBoundsIndex(ERC721OutOfBoundsIndex { owner: Address::zero(), index }))
        }
    }
}

impl Erc721Enumerable {
    /// One list per owner, and no owner twice.
    closed spec fn owners_distinct(&self) -> bool {
        &&& self.owners@.len() == self.owned_tokens@.len()
        &&& forall|s1: int, s2: int|
            0 <= s1 < self.owners@.len() && 0 <= s2 < self.owners@.len() && s1 != s2
                ==> self.owners@[s1] != self.owners@[s2]
    }

    /// Each owned token is indexed by its position in its owner's list.
    closed spec fn owned_indexed(&self) -> bool {
        forall|s: int, i: int|
            0 <= s < self.owned_tokens@.len() && 0 <= i < self.owned_tokens@[s]@.len()
                ==> #[trigger] self.owned_tokens_index@.contains_key(self.owned_tokens@[s]@[i])
                && self.owned_tokens_index@[self.owned_tokens@[s]@[i]] == i
    }

    /// Every indexed token stands at its indexed position in some
    /// owner's list.
    closed spec fn owned_keys_live(&self) -> bool {
        forall|k: Uint256| #[trigger]
            self.owned_tokens_index@.contains_key(k) ==> exists|s: int|
                0 <= s < self.owned_tokens@.len() && self.owned_tokens_index@[k]
                    < self.owned_tokens@[s]@.len() && #[trigger] self.owned_tokens@[s]@[self.owned_tokens_index@[k] as int] == k
    }

    /// A token stands at one place only among all owners' lists.
    closed spec fn owned_unique(&self) -> bool {
        forall|s1: int, i1: int, s2: int, i2: int|
            #![trigger self.owned_tokens@[s1]@[i1], self.owned_tokens@[s2]@[i2]]
            0 <= s1 < self.owned_tokens@.len() && 0 <= i1 < self.owned_tokens@[s1]@.len() && 0
                <= s2 < self.owned_tokens@.len() && 0 <= i2 < self.owned_tokens@[s2]@.len()
                && self.owned_tokens@[s1]@[i1] == self.owned_tokens@[s2]@[i2] ==> s1 == s2 && i1
                == i2
    }

    /// Each live token is indexed by its position in the global list,
    /// every indexed token stands at its indexed position, and the list
    /// holds no token twice.
    closed spec fn all_indexed(&self) -> bool {
        &&& forall|i: int|
            0 <= i < self.all_tokens@.len() ==> #[trigger] self.all_tokens_index@.contains_key(
                self.all_tokens@[i],
            ) && self.all_tokens_index@[self.all_tokens@[i]] == i
        &&& forall|k: Uint256| #[trigger]
            self.all_tokens_index@.contains_key(k) ==> self.all_tokens_index@[k]
                < self.all_tokens@.len() && self.all_tokens@[self.all_tokens_index@[k] as int] == k
        &&& self.all_tokens@.no_duplicates()
    }

    /// An empty registry: no tokens, and every owner's list is empty.
    pub fn new() -> (r: Erc721Enumerable)
        ensures
            r.well_formed(),
            r.tokens() == Seq::<Uint256>::empty(),
            forall|o: Address| #[trigger] r.tokens_of(o) == Seq::<Uint256>::empty(),
    {
        Erc721Enumerable {
            owners: Vec::new(),
            owned_tokens: Vec::new(),
            owned_tokens_index: IdMap::new(),
            all_tokens: Vec::new(),
            all_tokens_index: IdMap::new(),
        }
    }

    /// Whether `token_id` is in some owner's list.
    pub open spec fn is_owned(&self, token_id: Uint256) -> bool {
        exists|o: Address| #[trigger] self.tokens_of(o).contains(token_id)
    }

    /// The list of the owner at slot `s` is that owner's view.
    proof fn lemma_tokens_of_slot(&self, s: int)
        requires
            self.owners_distinct(),
            0 <= s < self.owners@.len(),
        ensures
            self.tokens_of(self.owners@[s]) == self.owned_tokens@[s]@,
    {
        assert(has_slot(self.owners@, self.owners@[s]));
        let c = slot_of(self.owners@, self.owners@[s]);
        assert(self.owners@[c] == self.owners@[s]);
    }

    /// `owned_keys_live` depends on the owners' lists and their index only.
    proof fn lemma_owned_keys_live_same(a: &Erc721Enumerable, b: &Erc721Enumerable)
        requires
            a.owned_keys_live(),
            a.owned_tokens@ == b.owned_tokens@,
            a.owned_tokens_index@ == b.owned_tokens_index@,
        ensures
            b.owned_keys_live(),
    {
        assert forall|k: Uint256| #[trigger] b.owned_tokens_index@.contains_key(k) implies exists|
            s: int,
        |
            0 <= s < b.owned_tokens@.len() && b.owned_tokens_index@[k] < b.owned_tokens@[s]@.len()
                && #[trigger] b.owned_tokens@[s]@[b.owned_tokens_index@[k] as int] == k by {
            assert(a.owned_tokens_index@.contains_key(k));
            let s0 = choose|s: int|
                0 <= s < a.owned_tokens@.len() && a.owned_tokens_index@[k]
                    < a.owned_tokens@[s]@.len() && #[trigger] a.owned_tokens@[s]@[a.owned_tokens_index@[k] as int] == k;
            assert(b.owned_tokens@[s0]@[b.owned_tokens_index@[k] as int] == k);
        }
    }

    /// Establishes `owned_indexed` from its body stated directly.
    proof fn lemma_owned_indexed(&self)
        requires
            forall|s: int, i: int|
                0 <= s < self.owned_tokens@.len() && 0 <= i < self.owned_tokens@[s]@.len()
                    ==> #[trigger] self.owned_tokens_index@.contains_key(self.owned_tokens@[s]@[i])
                    && self.owned_tokens_index@[self.owned_tokens@[s]@[i]] == i,
        ensures
            self.owned_indexed(),
    {
    }

    /// No slot of any owner's list holds a token that no owner holds.
    proof fn lemma_not_owned(&self, token_id: Uint256)
        requires
            self.well_formed(),
            !self.is_owned(token_id),
        ensures
            forall|s: int, i: int|
                0 <= s < self.owned_tokens@.len() && 0 <= i < self.owned_tokens@[s]@.len()
                    ==> #[trigger] self.owned_tokens@[s]@[i] != token_id,
    {
        assert forall|s: int, i: int|
            0 <= s < self.owned_tokens@.len() && 0 <= i < self.owned_tokens@[s]@.len()
                implies #[trigger] self.owned_tokens@[s]@[i] != token_id by {
            self.lemma_tokens_of_slot(s);
            if self.owned_tokens@[s]@[i] == token_id {
                assert(self.tokens_of(self.owners@[s]).contains(token_id));
            }
        }
    }

    /// Records `token_id` at the end of `to`'s list, at position
    /// `balance - 1`, where `balance` is `to`'s balance after it
    /// received the token.
    pub fn _add_token_to_owner_enumeration(&mut self, to: Address, token_id: Uint256, balance: usize)
        requires
            old(self).well_formed(),
            balance == old(self).tokens_of(to).len() + 1,
            !old(self).is_owned(token_id),
        ensures
            final(self).well_formed(),
            final(self).tokens_of(to) == old(self).tokens_of(to).push(token_id),
            forall|o: Address|
                o != to ==> #[trigger] final(self).tokens_of(o) == old(self).tokens_of(o),
            final(self).tokens() == old(self).tokens(),
    {
        proof {
            self.lemma_not_owned(token_id);
        }
        let length: usize = balance - 1;
        let ghost slot: int;
        match self.find_slot(to) {
            Some(s) => {
                proof {
                    self.lemma_tokens_of_slot(s as int);
                    slot = s as int;
                }
                self.owned_tokens[s].push(token_id);
            },
            None => {
                proof {
                    slot = self.owners@.len() as int;
                }
                let mut list: Vec<Uint256> = Vec::new();
                list.push(token_id);
                self.owners.push(to);
                self.owned_tokens.push(list);
            },
        }
        self.owned_tokens_index.insert(token_id, length);
        proof {
            assert(self.owners@[slot] == to);
            assert forall|s1: int, s2: int|
                0 <= s1 < self.owners@.len() && 0 <= s2 < self.owners@.len() && s1 != s2
                    implies self.owners@[s1] != self.owners@[s2] by {
                if s1 == slot && slot == old(self).owners@.len() {
                    assert(old(self).owners@[s2] == self.owners@[s2]);
                    if self.owners@[s2] == to {
                        assert(has_slot(old(self).owners@, to));
                    }
                } else if s2 == slot && slot == old(self).owners@.len() {
                    assert(old(self).owners@[s1] == self.owners@[s1]);
                    if self.owners@[s1] == to {
                        assert(has_slot(old(self).owners@, to));
                    }
                }
            }
            assert(self.owners_distinct());
            assert forall|s: int, i: int|
                0 <= s < self.owned_tokens@.len() && 0 <= i < self.owned_tokens@[s]@.len()
                    implies #[trigger] self.owned_tokens_index@.contains_key(
                    self.owned_tokens@[s]@[i],
                ) && self.owned_tokens_index@[self.owned_tokens@[s]@[i]] == i by {
                if !(s == slot && i == length) {
                    assert(self.owned_tokens@[s]@[i] == old(self).owned_tokens@[s]@[i]);
                    assert(old(self).owned_tokens_index@.contains_key(
                        old(self).owned_tokens@[s]@[i],
                    ));
                    assert(old(self).owned_tokens@[s]@[i] != token_id);
                }
            }
            assert(self.owned_indexed());
            assert forall|s1: int, i1: int, s2: int, i2: int|
                0 <= s1 < self.owned_tokens@.len() && 0 <= i1 < self.owned_tokens@[s1]@.len()
                    && 0 <= s2 < self.owned_tokens@.len() && 0 <= i2
                    < self.owned_tokens@[s2]@.len() && #[trigger] self.owned_tokens@[s1]@[i1]
                    == #[trigger] self.owned_tokens@[s2]@[i2] implies s1 == s2 && i1 == i2 by {
                let new1 = s1 == slot && i1 == length;
                let new2 = s2 == slot && i2 == length;
                if !new1 {
                    assert(self.owned_tokens@[s1]@[i1] == old(self).owned_tokens@[s1]@[i1]);
                }
                if !new2 {
                    assert(self.owned_tokens@[s2]@[i2] == old(self).owned_tokens@[s2]@[i2]);
                }
            }
            assert(self.owned_unique());
            assert(self.all_indexed());
            assert forall|k: Uint256| #[trigger] self.owned_tokens_index@.contains_key(k) implies exists|
                s: int,
            |
                0 <= s < self.owned_tokens@.len() && self.owned_tokens_index@[k]
                    < self.owned_tokens@[s]@.len() && #[trigger] self.owned_tokens@[s]@[self.owned_tokens_index@[k] as int]
                    == k by {
                if k == token_id {
                    assert(self.owned_tokens@[slot]@[length as int] == token_id);
                } else {
                    assert(old(self).owned_tokens_index@.contains_key(k));
                    let s0 = choose|s: int|
                        0 <= s < old(self).owned_tokens@.len() && old(self).owned_tokens_index@[k]
                            < old(self).owned_tokens@[s]@.len() && #[trigger] old(self).owned_tokens@[s]@[old(self).owned_tokens_index@[k] as int]
                            == k;
                    assert(self.owned_tokens@[s0]@[self.owned_tokens_index@[k] as int] == k);
                }
            }
            assert(self.owned_keys_live());
            self.lemma_tokens_of_slot(slot);
            assert(self.tokens_of(to) =~= old(self).tokens_of(to).push(token_id));
            assert forall|o: Address| o != to implies #[trigger] self.tokens_of(o)
                == old(self).tokens_of(o) by {
                if has_slot(old(self).owners@, o) {
                    let so = slot_of(old(self).owners@, o);
                    old(self).lemma_tokens_of_slot(so);
                    self.lemma_tokens_of_slot(so);
                } else {
                    if has_slot(self.owners@, o) {
                        let so = slot_of(self.owners@, o);
                        assert(old(self).owners@[so] == o);
                    }
                }
            }
        }
    }

    /// Removes `token_id` from `from`'s list by swap-and-pop, where
    /// `balance` is `from`'s balance before the token leaves: the token
    /// at position `balance - 1` moves into the freed slot.
    pub fn _remove_token_from_owner_enumeration(
        &mut self,
        from: Address,
        token_id: Uint256,
        balance: usize,
    )
        requires
            old(self).well_formed(),
            old(self).tokens_of(from).contains(token_id),
            balance == old(self).tokens_of(from).len(),
        ensures
            final(self).well_formed(),
            final(self).tokens_of(from) == swap_remove(
                old(self).tokens_of(from),
                old(self).tokens_of(from).index_of(token_id),
            ),
            forall|o: Address|
                o != from ==> #[trigger] final(self).tokens_of(o) == old(self).tokens_of(o),
            final(self).tokens() == old(self).tokens(),
    {
        let ghost pos = self.tokens_of(from).index_of(token_id);
        let slot = match self.find_slot(from) {
            Some(s) => s,
            None => {
                return ;
            },
        };
        proof {
            self.lemma_tokens_of_slot(slot as int);
            assert(self.owned_tokens_index@.contains_key(self.owned_tokens@[slot as int]@[pos]));
        }
        let ghost old_list = self.owned_tokens@[slot as int]@;
        let last_token_index: usize = balance - 1;
        let token_index: usize = match self.owned_tokens_index.get(&token_id) {
            Some(i) => i,
            None => 0,
        };
        assert(token_index == pos);
        let ghost last_token_id = old_list[last_token_index as int];
        if token_index != last_token_index {
            let last_token_id = self.owned_tokens[slot][last_token_index];
            self.owned_tokens[slot].set(token_index, last_token_id);
            self.owned_tokens_index.insert(last_token_id, token_index);
        }
        self.owned_tokens_index.remove(&token_id);
        self.owned_tokens[slot].pop();
        proof {
            let sl = slot as int;
            assert(self.owned_tokens@[sl]@ =~= swap_remove(old_list, pos));
            assert(self.owners_distinct());
            assert forall|s: int, i: int|
                0 <= s < self.owned_tokens@.len() && 0 <= i < self.owned_tokens@[s]@.len()
                    implies #[trigger] self.owned_tokens_index@.contains_key(
                    self.owned_tokens@[s]@[i],
                ) && self.owned_tokens_index@[self.owned_tokens@[s]@[i]] == i by {
                if s == sl && i == pos {
                    assert(last_token_id != token_id);
                } else {
                    let v = old(self).owned_tokens@[s]@[i];
                    assert(self.owned_tokens@[s]@[i] == v);
                    assert(old(self).owned_tokens_index@.contains_key(v));
                    assert(v != token_id);
                    assert(v != last_token_id);
                }
            }
            self.lemma_owned_indexed();
            assert forall|s1: int, i1: int, s2: int, i2: int|
                0 <= s1 < self.owned_tokens@.len() && 0 <= i1 < self.owned_tokens@[s1]@.len()
                    && 0 <= s2 < self.owned_tokens@.len() && 0 <= i2
                    < self.owned_tokens@[s2]@.len() && #[trigger] self.owned_tokens@[s1]@[i1]
                    == #[trigger] self.owned_tokens@[s2]@[i2] implies s1 == s2 && i1 == i2 by {
                let j1 = if s1 == sl && i1 == pos {
                    last_token_index as int
                } else {
                    i1
                };
                let j2 = if s2 == sl && i2 == pos {
                    last_token_index as int
                } else {
                    i2
                };
                assert(self.owned_tokens@[s1]@[i1] == old(self).owned_tokens@[s1]@[j1]);
                assert(self.owned_tokens@[s2]@[i2] == old(self).owned_tokens@[s2]@[j2]);
            }
            assert(self.owned_unique());
            assert(self.all_indexed());
            assert forall|k: Uint256| #[trigger] self.owned_tokens_index@.contains_key(k) implies exists|
                s: int,
            |
                0 <= s < self.owned_tokens@.len() && self.owned_tokens_index@[k]
                    < self.owned_tokens@[s]@.len() && #[trigger] self.owned_tokens@[s]@[self.owned_tokens_index@[k] as int]
                    == k by {
                if k == last_token_id && pos != last_token_index {
                    assert(self.owned_tokens@[sl]@[pos] == k);
                } else {
                    assert(old(self).owned_tokens_index@.contains_key(k));
                    let s0 = choose|s: int|
                        0 <= s < old(self).owned_tokens@.len() && old(self).owned_tokens_index@[k]
                            < old(self).owned_tokens@[s]@.len() && #[trigger] old(self).owned_tokens@[s]@[old(self).owned_tokens_index@[k] as int]
                            == k;
                    let j = old(self).owned_tokens_index@[k] as int;
                    if s0 == sl {
                        assert(j != pos);
                        assert(j != last_token_index);
                    }
                    assert(self.owned_tokens@[s0]@[self.owned_tokens_index@[k] as int] == k);
                }
            }
            assert(self.owned_keys_live());
            self.lemma_tokens_of_slot(sl);
            assert forall|o: Address| o != from implies #[trigger] self.tokens_of(o)
                == old(self).tokens_of(o) by {
                if has_slot(old(self).owners@, o) {
                    let so = slot_of(old(self).owners@, o);
                    old(self).lemma_tokens_of_slot(so);
                    self.lemma_tokens_of_slot(so);
                }
            }
        }
    }

    /// Appends `token_id` to the global list and records its position.
    pub fn _add_token_to_all_tokens_enumeration(&mut self, token_id: Uint256)
        requires
            old(self).well_formed(),
            !old(self).tokens().contains(token_id),
            old(self).tokens().len() < usize::MAX,
        ensures
            final(self).well_formed(),
            final(self).tokens() == old(self).tokens().push(token_id),
            forall|o: Address| #[trigger] final(self).tokens_of(o) == old(self).tokens_of(o),
    {
        let index = self.total_supply();
        self.all_tokens_index.insert(token_id, index);
        self.all_tokens.push(token_id);
        proof {
            assert forall|i: int| 0 <= i < self.all_tokens@.len() implies #[trigger]
                self.all_tokens_index@.contains_key(self.all_tokens@[i])
                && self.all_tokens_index@[self.all_tokens@[i]] == i by {
                if i < index {
                    assert(old(self).all_tokens@[i] != token_id);
                    assert(old(self).all_tokens_index@.contains_key(old(self).all_tokens@[i]));
                }
            }
            assert forall|k: Uint256| #[trigger] self.all_tokens_index@.contains_key(k) implies
                self.all_tokens_index@[k] < self.all_tokens@.len()
                && self.all_tokens@[self.all_tokens_index@[k] as int] == k by {
                if k != token_id {
                    assert(old(self).all_tokens_index@.contains_key(k));
                }
            }
            assert(self.all_tokens@.no_duplicates());
            assert(self.all_indexed());
        }
    }

    /// Removes `token_id` from the global list by swap-and-pop: the last
    /// token moves into its slot and the list shrinks by one.
    pub fn _remove_token_from_all_tokens_enumeration(&mut self, token_id: Uint256)
        requires
            old(self).well_formed(),
            old(self).tokens().contains(token_id),
        ensures
            final(self).well_formed(),
            final(self).tokens() == swap_remove(
                old(self).tokens(),
                old(self).tokens().index_of(token_id),
            ),
            forall|o: Address| #[trigger] final(self).tokens_of(o) == old(self).tokens_of(o),
    {
        let ghost pos = self.tokens().index_of(token_id);
        let ghost old_tokens = self.all_tokens@;
        proof {
            assert(self.all_tokens_index@.contains_key(self.all_tokens@[pos]));
        }
        let last_token_index: usize = self.all_tokens.len() - 1;
        let token_index: usize = match self.all_tokens_index.get(&token_id) {
            Some(i) => i,
            None => 0,
        };
        assert(token_index == pos);
        let last_token_id = self.all_tokens[last_token_index];
        self.all_tokens.set(token_index, last_token_id);
        self.all_tokens_index.insert(last_token_id, token_index);
        self.all_tokens_index.remove(&token_id);
        self.all_tokens.pop();
        proof {
            let n = self.all_tokens@.len();
            let last = last_token_index as int;
            assert(self.all_tokens@ =~= swap_remove(old_tokens, pos));
            assert forall|i: int| 0 <= i < n implies #[trigger]
                self.all_tokens_index@.contains_key(self.all_tokens@[i])
                && self.all_tokens_index@[self.all_tokens@[i]] == i by {
                if i != pos {
                    assert(old_tokens[i] != token_id);
                    assert(old_tokens[i] != last_token_id);
                    assert(old(self).all_tokens_index@.contains_key(old_tokens[i]));
                } else {
                    assert(last_token_id != token_id);
                }
            }
            assert forall|k: Uint256| #[trigger] self.all_tokens_index@.contains_key(k) implies
                self.all_tokens_index@[k] < n && self.all_tokens@[self.all_tokens_index@[k] as int]
                == k by {
                if k != last_token_id {
                    let j = old(self).all_tokens_index@[k] as int;
                    assert(old_tokens[j] == k);
                    assert(j != pos);
                    assert(j != last);
                }
            }
            assert forall|i: int, j: int| 0 <= i < n && 0 <= j < n && i != j implies
                self.all_tokens@[i] != self.all_tokens@[j] by {
                if i == pos {
                    assert(old_tokens[last] != old_tokens[j]);
                } else if j == pos {
                    assert(old_tokens[last] != old_tokens[i]);
                }
            }
            assert(self.all_indexed());
            Self::lemma_owned_keys_live_same(old(self), self);
        }
    }

    /// Whether `token_id` is live.
    pub fn contains_token(&self, token_id: Uint256) -> (r: bool)
        requires
            self.well_formed(),
        ensures
            r == self.tokens().contains(token_id),
    {
        proof {
            if self.tokens().contains(token_id) {
                let k = self.tokens().index_of(token_id);
                assert(self.all_tokens_index@.contains_key(self.all_tokens@[k]));
            }
        }
        match self.all_tokens_index.get(&token_id) {
            Some(i) => {
                proof {
                    assert(self.all_tokens@[i as int] == token_id);
                }
                true
            },
            None => false,
        }
    }

    /// The number of tokens in `owner`'s list.
    pub fn owned_count(&self, owner: Address) -> (r: usize)
        requires
            self.well_formed(),
        ensures
            r == self.tokens_of(owner).len(),
    {
        match self.find_slot(owner) {
            Some(s) => {
                proof {
                    self.lemma_tokens_of_slot(s as int);
                }
                self.owned_tokens[s].len()
            },
            None => 0,
        }
    }

    /// Whether `token_id` is in `owner`'s list.
    pub fn owns_token(&self, owner: Address, token_id: Uint256) -> (r: bool)
        requires
            self.well_formed(),
        ensures
            r == self.tokens_of(owner).contains(token_id),
    {
        match self.find_slot(owner) {
            Some(s) => {
                proof {
                    self.lemma_tokens_of_slot(s as int);
                }
                self.slot_holds(s, token_id)
            },
            None => false,
        }
    }

    /// Whether `token_id` is in any owner's list.
    pub fn is_owned_by_anyone(&self, token_id: Uint256) -> (r: bool)
        requires
            self.well_formed(),
        ensures
            r == self.is_owned(token_id),
    {
        let mut s: usize = 0;
        while s < self.owned_tokens.len()
            invariant
                self.well_formed(),
                s <= self.owned_tokens@.len(),
                forall|j: int| 0 <= j < s ==> !(#[trigger] self.owned_tokens@[j]@).contains(token_id),
            decreases self.owned_tokens@.len() - s,
        {
            if self.slot_holds(s, token_id) {
                proof {
                    self.lemma_tokens_of_slot(s as int);
                    assert(self.tokens_of(self.owners@[s as int]).contains(token_id));
                }
                return true;
            }
            s = s + 1;
        }
        proof {
            assert forall|o: Address| !(#[trigger] self.tokens_of(o)).contains(token_id) by {
                if has_slot(self.owners@, o) {
                    let so = slot_of(self.owners@, o);
                    self.lemma_tokens_of_slot(so);
                    assert(!self.owned_tokens@[so]@.contains(token_id));
                }
            }
        }
        false
    }

    /// Whether the list at slot `s` holds `token_id`, looked up through
    /// the position index.
    fn slot_holds(&self, s: usize, token_id: Uint256) -> (r: bool)
        requires
            self.well_formed(),
            s < self.owned_tokens@.len(),
        ensures
            r == self.owned_tokens@[s as int]@.contains(token_id),
    {
        let list = &self.owned_tokens[s];
        proof {
            if list@.contains(token_id) {
                let k = list@.index_of(token_id);
                assert(self.owned_tokens_index@.contains_key(self.owned_tokens@[s as int]@[k]));
            }
        }
        match self.owned_tokens_index.get(&token_id) {
            Some(i) => i < list.len() && list[i] == token_id,
            None => false,
        }
    }

    /// Checks whether `amount` tokens may be minted in one call: only
    /// zero may, since each minted token must pass the enumeration hooks
    /// one by one.
    pub fn _check_increase_balance(amount: u128) -> (r: Result<(), Error>)
        ensures
            amount == 0 ==> r == Ok::<(), Error>(()),
            amount > 0 ==> r == Err::<(), Error>(
                Error::EnumerableForbiddenBatchMint(ERC721EnumerableForbiddenBatchMint {}),
            ),
    {
        if amount > 0 {
            Err(Error::EnumerableForbiddenBatchMint(ERC721EnumerableForbiddenBatchMint {}))
        } else {
            Ok(())
        }
    }

    /// Looks up the slot of `owner`.
    fn find_slot(&self, owner: Address) -> (r: Option<usize>)
        requires
            self.well_formed(),
        ensures
            match r {
                Some(s) => s < self.owners@.len() && self.owners@[s as int] == owner,
                None => !has_slot(self.owners@, owner),
            },
    {
        let mut s: usize = 0;
        while s < self.owners.len()
            invariant
                s <= self.owners@.len(),
                forall|j: int| 0 <= j < s ==> self.owners@[j] != owner,
            decreases self.owners@.len() - s,
        {
            if self.owners[s] == owner {
                return Some(s);
            }
            s = s + 1;
        }
        None
    }
}

/// In a well-formed registry every live token is retrievable through
/// `token_by_index` at exactly one index, and no other token is.
pub proof fn lemma_global_membership(e: &Erc721Enumerable, t: Uint256)
    requires
        e.well_formed(),
    ensures
        e.tokens().contains(t) <==> exists|i: usize| #[trigger]
            token_by_index_spec(e.tokens(), i) == Ok::<Uint256, Error>(t),
        forall|i: usize, j: usize|
            #[trigger] token_by_index_spec(e.tokens(), i) == Ok::<Uint256, Error>(t)
                && #[trigger] token_by_index_spec(e.tokens(), j) == Ok::<Uint256, Error>(t) ==> i
                == j,
{
    let s = e.tokens();
    assert(s.no_duplicates());
    vstd::std_specs::vec::axiom_spec_len(&e.all_tokens);
    assert(s.len() <= usize::MAX);
    if s.contains(t) {
        let k = s.index_of(t);
        assert(token_by_index_spec(s, k as usize) == Ok::<Uint256, Error>(t));
    }
}

/// Adding a token that is not live makes the supply grow by one, and
/// the live tokens become the old ones plus the new one, each once.
pub proof fn lemma_add_step(before: Seq<Uint256>, t: Uint256)
    requires
        before.no_duplicates(),
        !before.contains(t),
    ensures
        before.push(t).len() == before.len() + 1,
        before.push(t).to_set() == before.to_set().insert(t),
        before.push(t).no_duplicates(),
{
    let after = before.push(t);
    assert(after.to_set() =~= before.to_set().insert(t)) by {
        assert forall|x: Uint256| after.to_set().contains(x) implies before.to_set().insert(
            t,
        ).contains(x) by {
            let k = choose|k: int| 0 <= k < after.len() && after[k] == x;
            if k < before.len() {
                assert(before[k] == x);
            }
        }
        assert forall|x: Uint256| before.to_set().insert(t).contains(x) implies after.to_set().contains(
            x,
        ) by {
            if x == t {
                assert(after[before.len() as int] == t);
            } else {
                let k = choose|k: int| 0 <= k < before.len() && before[k] == x;
                assert(after[k] == x);
            }
        }
    }
}

/// Removing a live token by swap-and-pop makes the supply shrink by one;
/// every other live token stays retrievable at some index, and the
/// removed one at none.
pub proof fn lemma_remove_step(before: Seq<Uint256>, t: Uint256)
    requires
        before.len() <= usize::MAX,
        before.no_duplicates(),
        before.contains(t),
    ensures
        swap_remove(before, before.index_of(t)).len() == before.len() - 1,
        swap_remove(before, before.index_of(t)).to_set() == before.to_set().remove(t),
        swap_remove(before, before.index_of(t)).no_duplicates(),
        forall|u: Uint256|
            u != t && before.contains(u) ==> exists|i: usize| #[trigger]
                token_by_index_spec(swap_remove(before, before.index_of(t)), i) == Ok::<
                    Uint256,
                    Error,
                >(u),
        forall|i: usize|
            #[trigger] token_by_index_spec(swap_remove(before, before.index_of(t)), i) != Ok::<
                Uint256,
                Error,
            >(t),
{
    let p = before.index_of(t);
    let n = before.len() - 1;
    let after = swap_remove(before, p);
    assert(before[p] == t);
    assert forall|k: int| 0 <= k < after.len() implies after[k] != t && (#[trigger] after[k]
        == before[k] || (k == p && after[k] == before[n])) by {
        if k == p {
            assert(before[n] != t || n == p);
        } else {
            assert(before[k] != before[p]);
        }
    }
    assert forall|k1: int, k2: int| 0 <= k1 < after.len() && 0 <= k2 < after.len() && k1 != k2
        implies after[k1] != after[k2] by {
        if k1 == p {
            assert(before[n] != before[k2]);
        } else if k2 == p {
            assert(before[n] != before[k1]);
        }
    }
    assert forall|u: Uint256| u != t && before.contains(u) implies exists|i: usize| #[trigger]
        token_by_index_spec(after, i) == Ok::<Uint256, Error>(u) by {
        let k = choose|k: int| 0 <= k < before.len() && before[k] == u;
        if k == n {
            assert(token_by_index_spec(after, p as usize) == Ok::<Uint256, Error>(u));
        } else {
            assert(token_by_index_spec(after, k as usize) == Ok::<Uint256, Error>(u));
        }
    }
    assert(after.to_set() =~= before.to_set().remove(t)) by {
        assert forall|x: Uint256| after.to_set().contains(x) implies before.to_set().remove(
            t,
        ).contains(x) by {
            let k = choose|k: int| 0 <= k < after.len() && after[k] == x;
            if k == p {
                assert(before[n] == x);
            } else {
                assert(before[k] == x);
            }
        }
        assert forall|x: Uint256| before.to_set().remove(t).contains(x) implies after.to_set().contains(
            x,
        ) by {
            let k = choose|k: int| 0 <= k < before.len() && before[k] == x;
            if k == n {
                assert(after[p] == x);
            } else {
                assert(after[k] == x);
            }
        }
    }
}

/// A token in `a`'s list is never retrievable through the list of any
/// other owner `b`.
pub proof fn lemma_owner_isolation(e: &Erc721Enumerable, a: Address, b: Address, t: Uint256)
    requires
        e.well_formed(),
        a != b,
        e.tokens_of(a).contains(t),
    ensures
        !e.tokens_of(b).contains(t),
        forall|i: usize|
            #[trigger] token_of_owner_by_index_spec(e.tokens_of(b), b, i) != Ok::<Uint256, Error>(t),
{
    let sa = slot_of(e.owners@, a);
    e.lemma_tokens_of_slot(sa);
    let ka = choose|k: int| 0 <= k < e.tokens_of(a).len() && e.tokens_of(a)[k] == t;
    if has_slot(e.owners@, b) {
        let sb = slot_of(e.owners@, b);
        e.lemma_tokens_of_slot(sb);
        if e.tokens_of(b).contains(t) {
            let kb = choose|k: int| 0 <= k < e.tokens_of(b).len() && e.tokens_of(b)[k] == t;
            assert(e.owned_tokens@[sa]@[ka] == e.owned_tokens@[sb]@[kb]);
        }
    }
    assert forall|i: usize| #[trigger]
        token_of_owner_by_index_spec(e.tokens_of(b), b, i) != Ok::<Uint256, Error>(t) by {
        if i < e.tokens_of(b).len() && e.tokens_of(b)[i as int] == t {
            assert(e.tokens_of(b).contains(t));
        }
    }
}

/// A query of the global list at the supply itself always fails, with
/// the null owner and that index.
pub proof fn lemma_global_boundary(e: &Erc721Enumerable)
    ensures
        e.tokens().len() <= usize::MAX ==> token_by_index_spec(e.tokens(), e.tokens().len() as usize)
            == Err::<Uint256, Error>(out_of_bounds(Address::null(), e.tokens().len() as usize)),
{
}

/// One step of the global list's history, as the two global hooks make
/// it: adding `t` while it is not live, or removing `t` by swap-and-pop
/// while it is.
pub open spec fn global_step(before: Seq<Uint256>, after: Seq<Uint256>, is_add: bool, t: Uint256) -> bool {
    if is_add {
        !before.contains(t) && after == before.push(t)
    } else {
        before.contains(t) && after == swap_remove(before, before.index_of(t))
    }
}

/// How many of the steps are additions.
pub open spec fn count_adds(adds: Seq<bool>) -> nat
    decreases adds.len(),
{
    if adds.len() == 0 {
        0
    } else {
        count_adds(adds.drop_last()) + if adds.last() {
            1nat
        } else {
            0nat
        }
    }
}

/// The ids added and not removed since, after the steps `adds`/`ids`.
pub open spec fn live_ids(adds: Seq<bool>, ids: Seq<Uint256>) -> Set<Uint256>
    decreases adds.len(),
{
    if adds.len() == 0 || ids.len() != adds.len() {
        Set::empty()
    } else if adds.last() {
        live_ids(adds.drop_last(), ids.drop_last()).insert(ids.last())
    } else {
        live_ids(adds.drop_last(), ids.drop_last()).remove(ids.last())
    }
}

/// Over any history of the global list that starts empty, the supply is
/// the number of additions minus the number of removals, the list holds
/// exactly the ids added and not removed since, and each of them at one
/// index only.
pub proof fn lemma_global_history(states: Seq<Seq<Uint256>>, adds: Seq<bool>, ids: Seq<Uint256>)
    requires
        adds.len() == ids.len(),
        states.len() == adds.len() + 1,
        states[0] == Seq::<Uint256>::empty(),
        forall|k: int| 0 <= k < states.len() ==> #[trigger] states[k].len() <= usize::MAX,
        forall|k: int|
            0 <= k < adds.len() ==> #[trigger] global_step(states[k], states[k + 1], adds[k], ids[k]),
    ensures
        states.last().len() == count_adds(adds) - (adds.len() - count_adds(adds)),
        states.last().to_set() == live_ids(adds, ids),
        states.last().no_duplicates(),
    decreases adds.len(),
{
    let m = adds.len();
    if m == 0 {
        assert(states.last().to_set() =~= Set::<Uint256>::empty());
    } else {
        let prev = states.drop_last();
        let pa = adds.drop_last();
        let pi = ids.drop_last();
        assert forall|k: int| 0 <= k < pa.len() implies #[trigger] global_step(
            prev[k],
            prev[k + 1],
            pa[k],
            pi[k],
        ) by {
            assert(global_step(states[k], states[k + 1], adds[k], ids[k]));
        }
        assert forall|k: int| 0 <= k < prev.len() implies #[trigger] prev[k].len() <= usize::MAX by {
            assert(states[k].len() <= usize::MAX);
        }
        lemma_global_history(prev, pa, pi);
        let before = states[m - 1];
        let t = ids[m - 1];
        assert(global_step(states[m - 1], states[m as int], adds[m - 1], ids[m - 1]));
        assert(prev.last() == before);
        if adds.last() {
            lemma_add_step(before, t);
        } else {
            lemma_remove_step(before, t);
        }
    }
}

} // verus!

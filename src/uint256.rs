//! 256-bit unsigned integers, and maps keyed by them.
use vstd::prelude::*;
use std::collections::HashMap;

verus! {

broadcast use vstd::std_specs::hash::group_hash_axioms;

/// 2^128, the weight of the high half.
pub open spec fn half_base() -> nat {
    0x1_0000_0000_0000_0000_0000_0000_0000_0000nat
}

/// A 256-bit unsigned integer, as its high and low 128-bit halves.
#[derive(Clone, Copy, Debug, PartialEq, Eq, Structural)]
pub struct Uint256 {
    pub high: u128,
    pub low: u128,
}

impl Uint256 {
    /// The number this value stands for.
    pub open spec fn value(self) -> nat {
        self.high as nat * half_base() + self.low as nat
    }

    /// Zero.
    pub open spec fn spec_zero() -> Uint256 {
        Uint256 { high: 0, low: 0 }
    }

    /// Returns zero.
    pub fn zero() -> (r: Uint256)
        ensures
            r == Uint256::spec_zero(),
            r.value() == 0,
    {
        Uint256 { high: 0, low: 0 }
    }

    /// The value `v`, which fits in the low half.
    pub fn from_u128(v: u128) -> (r: Uint256)
        ensures
            r.value() == v,
            r.high == 0 && r.low == v,
    {
        Uint256 { high: 0, low: v }
    }

    /// Whether this value is zero.
    pub fn is_zero(&self) -> (r: bool)
        ensures
            r == (*self == Uint256::spec_zero()),
            r == (self.value() == 0),
    {
        proof {
            lemma_value_order(Uint256::spec_zero(), *self);
        }
        self.high == 0 && self.low == 0
    }

    /// Whether this value is less than `other`.
    pub fn lt(&self, other: &Uint256) -> (r: bool)
        ensures
            r == (self.value() < other.value()),
    {
        proof {
            lemma_value_order(*self, *other);
        }
        self.high < other.high || (self.high == other.high && self.low < other.low)
    }
}

/// Values compare by their high halves first, then by their low halves;
/// equal values have equal halves.
pub proof fn lemma_value_order(a: Uint256, b: Uint256)
    ensures
        a.value() < b.value() <==> (a.high < b.high || (a.high == b.high && a.low < b.low)),
        a.value() == b.value() <==> a == b,
{
    let p = half_base() as int;
    let (ah, al, bh, bl) = (a.high as int, a.low as int, b.high as int, b.low as int);
    assert(0 <= al < p && 0 <= bl < p);
    if ah < bh {
        assert(ah * p + al < bh * p + bl) by (nonlinear_arith)
            requires
                ah < bh,
                0 <= al < p,
                0 <= bl,
                p > 0,
        {
            assert(ah * p + p <= bh * p);
        }
    } else if ah > bh {
        assert(bh * p + bl < ah * p + al) by (nonlinear_arith)
            requires
                bh < ah,
                0 <= bl < p,
                0 <= al,
                p > 0,
        {
            assert(bh * p + p <= ah * p);
        }
    }
}

/// A map from 256-bit keys to positions, held in two levels keyed by
/// the high and then the low half of each key.
#[derive(Debug)]
pub struct IdMap {
    m: HashMap<u128, HashMap<u128, usize>>,
}

impl View for IdMap {
    type V = Map<Uint256, usize>;

    closed spec fn view(&self) -> Map<Uint256, usize> {
        Map::new(
            |k: Uint256| self.m@.contains_key(k.high) && self.m@[k.high]@.contains_key(k.low),
            |k: Uint256| self.m@[k.high]@[k.low],
        )
    }
}

impl IdMap {
    /// An empty map.
    pub fn new() -> (r: IdMap)
        ensures
            r@ == Map::<Uint256, usize>::empty(),
    {
        let r = IdMap { m: HashMap::new() };
        assert(r@ =~= Map::<Uint256, usize>::empty());
        r
    }

    /// The position stored for `k`, if any.
    pub fn get(&self, k: &Uint256) -> (r: Option<usize>)
        ensures
            match r {
                Some(v) => self@.contains_key(*k) && v == self@[*k],
                None => !self@.contains_key(*k),
            },
    {
        match self.m.get(&k.high) {
            Some(inner) => match inner.get(&k.low) {
                Some(v) => Some(*v),
                None => None,
            },
            None => None,
        }
    }

    /// Stores `v` for `k`.
    pub fn insert(&mut self, k: Uint256, v: usize)
        ensures
            final(self)@ == old(self)@.insert(k, v),
    {
        let mut inner = match self.m.remove(&k.high) {
            Some(inner) => inner,
            None => HashMap::new(),
        };
        let ghost old_inner = inner@;
        inner.insert(k.low, v);
        self.m.insert(k.high, inner);
        assert(self@ =~= old(self)@.insert(k, v)) by {
            assert forall|j: Uint256| #[trigger] self@.contains_key(j) <==> old(self)@.insert(
                k,
                v,
            ).contains_key(j) by {
                if j.high == k.high && j.low == k.low {
                    assert(j == k);
                }
            }
            assert forall|j: Uint256| #[trigger] self@.contains_key(j) implies self@[j] == old(
                self,
            )@.insert(k, v)[j] by {
                if j.high == k.high && j.low == k.low {
                    assert(j == k);
                }
            }
        }
    }

    /// Drops the entry for `k`.
    pub fn remove(&mut self, k: &Uint256)
        ensures
            final(self)@ == old(self)@.remove(*k),
    {
        match self.m.remove(&k.high) {
            Some(mut inner) => {
                inner.remove(&k.low);
                self.m.insert(k.high, inner);
            },
            None => {},
        }
        assert(self@ =~= old(self)@.remove(*k)) by {
            assert forall|j: Uint256| #[trigger] self@.contains_key(j) <==> old(self)@.remove(
                *k,
            ).contains_key(j) by {
                if j.high == k.high && j.low == k.low {
                    assert(j == *k);
                }
            }
            assert forall|j: Uint256| #[trigger] self@.contains_key(j) implies self@[j] == old(
                self,
            )@.remove(*k)[j] by {
                if j.high == k.high && j.low == k.low {
                    assert(j == *k);
                }
            }
        }
    }
}

} // verus!

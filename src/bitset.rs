use vstd::prelude::*;

verus! {

/// Number of members a `FixedBitSet` can hold: the ids `0..BIT_SIZE`.
pub const BIT_SIZE: usize = 128;

/// Whether bit `i` of `b` is set.
pub open spec fn bit_of(b: u128, i: u128) -> bool {
    (b >> i) & 1u128 == 1u128
}

/// The members of a word: the positions of its set bits.
pub open spec fn word_set(b: u128) -> Set<nat> {
    Set::new(|i: nat| i < 128 && bit_of(b, i as u128))
}

proof fn lemma_bit_and(a: u128, b: u128, i: u128)
    requires
        i < 128,
    ensures
        bit_of(a & b, i) == (bit_of(a, i) && bit_of(b, i)),
{
    assert(((a & b) >> i) & 1u128 == 1u128 <==> (((a >> i) & 1u128 == 1u128) && ((b >> i)
        & 1u128 == 1u128))) by (bit_vector)
        requires
            i < 128,
    ;
}

proof fn lemma_bit_or(a: u128, b: u128, i: u128)
    requires
        i < 128,
    ensures
        bit_of(a | b, i) == (bit_of(a, i) || bit_of(b, i)),
{
    assert(((a | b) >> i) & 1u128 == 1u128 <==> (((a >> i) & 1u128 == 1u128) || ((b >> i)
        & 1u128 == 1u128))) by (bit_vector)
        requires
            i < 128,
    ;
}

proof fn lemma_bit_single(j: u128, i: u128)
    requires
        i < 128,
        j < 128,
    ensures
        bit_of(1u128 << j, i) == (i == j),
{
    assert((((1u128 << j) >> i) & 1u128 == 1u128) <==> (i == j)) by (bit_vector)
        requires
            i < 128,
            j < 128,
    ;
}

proof fn lemma_bit_zero_one(i: u128)
    requires
        i < 128,
    ensures
        !bit_of(0u128, i),
        bit_of(!0u128, i),
{
    assert(((0u128 >> i) & 1u128) != 1u128) by (bit_vector);
    assert(((!0u128) >> i) & 1u128 == 1u128) by (bit_vector)
        requires
            i < 128,
    ;
}

/// A set of route ids below `BIT_SIZE`, one bit each in a single word.
#[derive(Debug, Clone, Copy)]
pub struct FixedBitSet {
    buf: u128,
}

impl View for FixedBitSet {
    type V = Set<nat>;

    open spec fn view(&self) -> Set<nat> {
        word_set(self.spec_word())
    }
}

impl FixedBitSet {
    /// The word that holds the bits.
    pub closed spec fn spec_word(&self) -> u128 {
        self.buf
    }

    /// The empty set.
    pub fn zero() -> (r: FixedBitSet)
        ensures
            r@ == Set::<nat>::empty(),
    {
        let r = FixedBitSet { buf: 0 };
        assert forall|i: nat| !r@.contains(i) by {
            if i < 128 {
                lemma_bit_zero_one(i as u128);
            }
        }
        assert(r@ =~= Set::<nat>::empty());
        r
    }

    /// The full set: every id below `BIT_SIZE`.
    pub fn one() -> (r: FixedBitSet)
        ensures
            r@ == Set::new(|i: nat| i < BIT_SIZE),
    {
        let r = FixedBitSet { buf: !0u128 };
        assert forall|i: nat| r@.contains(i) <==> i < BIT_SIZE by {
            if i < 128 {
                lemma_bit_zero_one(i as u128);
            }
        }
        assert(r@ =~= Set::new(|i: nat| i < BIT_SIZE));
        r
    }

    /// Whether `index` is a member.
    pub fn contains(&self, index: usize) -> (r: bool)
        ensures
            r == self@.contains(index as nat),
    {
        if index < BIT_SIZE {
            let i = index as u128;
            (self.buf >> i) & 1u128 == 1u128
        } else {
            false
        }
    }

    /// Keeps only the members that `other` has too.
    pub fn intersect_with(&mut self, other: &FixedBitSet)
        ensures
            final(self)@ == old(self)@.intersect(other@),
    {
        let a = self.buf;
        self.buf = a & other.buf;
        proof {
            assert forall|i: nat| #[trigger] final(self)@.contains(i) <==> (old(self)@.contains(i)
                && other@.contains(i)) by {
                if i < 128 {
                    lemma_bit_and(a, other.buf, i as u128);
                }
            }
            assert(final(self)@ =~= old(self)@.intersect(other@));
        }
    }

    /// Adds the members of `other`.
    pub fn union_with(&mut self, other: &FixedBitSet)
        ensures
            final(self)@ == old(self)@.union(other@),
    {
        let a = self.buf;
        self.buf = a | other.buf;
        proof {
            assert forall|i: nat| #[trigger] final(self)@.contains(i) <==> (old(self)@.contains(i)
                || other@.contains(i)) by {
                if i < 128 {
                    lemma_bit_or(a, other.buf, i as u128);
                }
            }
            assert(final(self)@ =~= old(self)@.union(other@));
        }
    }

    /// The word that holds the bits: bit `i` is set when `i` is a member.
    pub fn get_inner(&self) -> (r: &u128)
        ensures
            *r == self.spec_word(),
            word_set(*r) == self@,
    {
        &self.buf
    }

    /// Sets bit `index` when `bit` holds; clearing is not offered, so a `false` bit
    /// leaves the set as it is.
    pub fn set(&mut self, index: usize, bit: bool)
        requires
            index < BIT_SIZE,
        ensures
            final(self)@ == (if bit {
                old(self)@.insert(index as nat)
            } else {
                old(self)@
            }),
    {
        if bit {
            let a = self.buf;
            let j = index as u128;
            self.buf = a | (1u128 << j);
            proof {
                assert forall|i: nat| #[trigger] final(self)@.contains(i) <==> (old(
                    self,
                )@.contains(i) || i == index) by {
                    if i < 128 {
                        lemma_bit_or(a, 1u128 << j, i as u128);
                        lemma_bit_single(j, i as u128);
                    }
                }
                assert(final(self)@ =~= old(self)@.insert(index as nat));
            }
        }
    }

    /// Whether the set is empty.
    pub fn is_zero(&self) -> (r: bool)
        ensures
            r == (self@ == Set::<nat>::empty()),
    {
        let mut i: usize = 0;
        while i < BIT_SIZE
            invariant
                i <= BIT_SIZE,
                forall|j: nat| j < i ==> !self@.contains(j),
            decreases BIT_SIZE - i,
        {
            if self.contains(i) {
                return false;
            }
            i = i + 1;
        }
        assert(self@ =~= Set::<nat>::empty());
        true
    }

    /// The members in ascending order.
    pub fn iter_ones(&self) -> (r: Vec<usize>)
        ensures
            forall|k: int| 0 <= k < r@.len() ==> self@.contains(#[trigger] r@[k] as nat),
            forall|i: nat| self@.contains(i) ==> exists|k: int|
                0 <= k < r@.len() && #[trigger] r@[k] as nat == i,
            forall|k1: int, k2: int| 0 <= k1 < k2 < r@.len() ==> r@[k1] < r@[k2],
    {
        let mut r: Vec<usize> = Vec::new();
        let mut i: usize = 0;
        while i < BIT_SIZE
            invariant
                i <= BIT_SIZE,
                forall|k: int| 0 <= k < r@.len() ==> self@.contains(#[trigger] r@[k] as nat),
                forall|k: int| 0 <= k < r@.len() ==> #[trigger] r@[k] < i,
                forall|j: nat| j < i && self@.contains(j) ==> exists|k: int|
                    0 <= k < r@.len() && #[trigger] r@[k] as nat == j,
                forall|k1: int, k2: int| 0 <= k1 < k2 < r@.len() ==> r@[k1] < r@[k2],
            decreases BIT_SIZE - i,
        {
            if self.contains(i) {
                let ghost prev = r@;
                r.push(i);
                proof {
                    assert forall|j: nat| j <= i && self@.contains(j) implies exists|k: int|
                        0 <= k < r@.len() && #[trigger] r@[k] as nat == j by {
                        if j < i {
                            let k = choose|k: int| 0 <= k < prev.len() && #[trigger] prev[k] as nat == j;
                            assert(r@[k] == prev[k]);
                        } else {
                            assert(r@[r@.len() - 1] as nat == j);
                        }
                    }
                }
            }
            i = i + 1;
        }
        r
    }
}

} // verus!

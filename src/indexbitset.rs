use vstd::prelude::*;

verus! {

/// The number of cells on the board.
pub const CELLS: usize = 81;

/// Whether bit `i` of `s` is set.
pub open spec fn bit128(s: u128, i: u128) -> bool {
    (s >> i) & 1u128 == 1u128
}

proof fn lemma_bit128_set(s: u128, b: u128, i: u128)
    requires
        b < 128,
        i < 128,
    ensures
        bit128(s | (1u128 << b), i) == (bit128(s, i) || i == b),
{
    assert(((s | (1u128 << b)) >> i) & 1u128 == 1u128 <==> (((s >> i) & 1u128 == 1u128) || i
        == b)) by (bit_vector)
        requires
            b < 128,
            i < 128,
    ;
}

proof fn lemma_bit128_clear(s: u128, b: u128, i: u128)
    requires
        b < 128,
        i < 128,
    ensures
        bit128(s & !(1u128 << b), i) == (bit128(s, i) && i != b),
{
    assert(((s & !(1u128 << b)) >> i) & 1u128 == 1u128 <==> (((s >> i) & 1u128 == 1u128) && i
        != b)) by (bit_vector)
        requires
            b < 128,
            i < 128,
    ;
}

proof fn lemma_bit128_or(s: u128, t: u128, i: u128)
    requires
        i < 128,
    ensures
        bit128(s | t, i) == (bit128(s, i) || bit128(t, i)),
{
    assert(((s | t) >> i) & 1u128 == 1u128 <==> (((s >> i) & 1u128 == 1u128) || ((t >> i)
        & 1u128 == 1u128))) by (bit_vector)
        requires
            i < 128,
    ;
}

proof fn lemma_bit128_test(s: u128, b: u128)
    requires
        b < 128,
    ensures
        (s & (1u128 << b) != 0) == bit128(s, b),
{
    assert((s & (1u128 << b) != 0u128) <==> ((s >> b) & 1u128 == 1u128)) by (bit_vector)
        requires
            b < 128,
    ;
}

proof fn lemma_bit128_bounds(s: u128, t: u128, b: u128)
    requires
        s < (1u128 << 81u128),
        t < (1u128 << 81u128),
        b < 81,
    ensures
        s | (1u128 << b) < (1u128 << 81u128),
        s & !(1u128 << b) < (1u128 << 81u128),
        s | t < (1u128 << 81u128),
{
    assert(s | (1u128 << b) < (1u128 << 81u128) && s & !(1u128 << b) < (1u128 << 81u128) && s
        | t < (1u128 << 81u128)) by (bit_vector)
        requires
            s < (1u128 << 81u128),
            t < (1u128 << 81u128),
            b < 81,
    ;
}

proof fn lemma_bit128_zero(i: u128)
    requires
        i < 128,
    ensures
        !bit128(0u128, i),
{
    assert((0u128 >> i) & 1u128 != 1u128) by (bit_vector);
}

/// The indexes below `n` whose bit is set in `s`.
pub open spec fn indexes_upto(s: u128, n: nat) -> Set<usize>
    decreases n,
{
    if n == 0 {
        Set::empty()
    } else if bit128(s, (n - 1) as u128) {
        indexes_upto(s, (n - 1) as nat).insert((n - 1) as usize)
    } else {
        indexes_upto(s, (n - 1) as nat)
    }
}

/// The number of bits set among the lowest `n` bits of `s`.
pub open spec fn count128(s: u128, n: nat) -> nat
    decreases n,
{
    if n == 0 {
        0
    } else if bit128(s, (n - 1) as u128) {
        count128(s, (n - 1) as nat) + 1
    } else {
        count128(s, (n - 1) as nat)
    }
}

proof fn lemma_indexes_upto(s: u128, n: nat)
    requires
        n <= 81,
    ensures
        indexes_upto(s, n).finite(),
        indexes_upto(s, n).len() == count128(s, n),
        forall|i: usize|
            #![trigger indexes_upto(s, n).contains(i)]
            indexes_upto(s, n).contains(i) <==> (i < n && bit128(s, i as u128)),
    decreases n,
{
    if n > 0 {
        lemma_indexes_upto(s, (n - 1) as nat);
    }
}

/// A set of cell indexes `0..81`, stored as a 128-bit word in which bit `i`
/// stands for index `i`.
#[derive(Debug, Copy, Clone, PartialEq, Eq, Structural, Ord, PartialOrd, Hash)]
pub struct IndexBitSet {
    state: u128,
}

impl View for IndexBitSet {
    type V = Set<usize>;

    closed spec fn view(&self) -> Set<usize> {
        indexes_upto(self.state, 81)
    }
}

impl Default for IndexBitSet {
    fn default() -> (r: IndexBitSet)
        ensures
            r.wf(),
            r@ == Set::<usize>::empty(),
    {
        let r = IndexBitSet { state: 0 };
        proof {
            r.lemma_view();
            assert forall|i: usize| !r@.contains(i) by {
                if i < 81 {
                    lemma_bit128_zero(i as u128);
                }
            }
            assert(r@ =~= Set::<usize>::empty());
            assert(0u128 < (1u128 << 81u128)) by (bit_vector);
        }
        r
    }
}

impl IndexBitSet {
    /// Only the bits of the board's cells may be set.
    pub closed spec fn wf(&self) -> bool {
        self.state < (1u128 << 81u128)
    }

    proof fn lemma_view(&self)
        ensures
            self@.finite(),
            self@.len() == count128(self.state, 81),
            forall|i: usize| #![trigger self@.contains(i)]
                self@.contains(i) <==> (i < 81 && bit128(self.state, i as u128)),
    {
        lemma_indexes_upto(self.state, 81);
    }

    /// Every member is a cell index; the set is finite.
    pub proof fn lemma_finite(&self)
        ensures
            self@.finite(),
            self@.len() <= 81,
            forall|i: usize| self@.contains(i) ==> i < 81,
    {
        lemma_indexes_upto(self.state, 81);
        let full = Set::new(|i: usize| i < 81);
        assert(full =~= Set::range(0usize, 81usize)) by {
            assert forall|i: usize| full.contains(i) == Set::range(0usize, 81usize).contains(i) by {}
        }
        vstd::set_lib::range_set_properties(0usize, 81usize);
        vstd::set_lib::lemma_len_subset(self@, full);
    }

    /// The set with `index` added.
    pub fn with_value(self, index: usize) -> (r: IndexBitSet)
        requires
            self.wf(),
            index < CELLS,
        ensures
            r.wf(),
            r@ == self@.insert(index),
    {
        let mut r = self;
        r.insert(index);
        r
    }

    /// Adds `index` to the set.
    pub fn insert(&mut self, index: usize)
        requires
            old(self).wf(),
            index < CELLS,
        ensures
            final(self).wf(),
            final(self)@ == old(self)@.insert(index),
    {
        let ghost s0 = self.state;
        let b: u128 = index as u128;
        self.state = self.state | (1u128 << b);
        proof {
            lemma_bit128_bounds(s0, 0, b);
            lemma_indexes_upto(s0, 81);
            lemma_indexes_upto(self.state, 81);
            assert forall|i: usize| #[trigger] self@.contains(i) == old(self)@.insert(index).contains(i) by {
                if i < 81 {
                    lemma_bit128_set(s0, b, i as u128);
                }
            }
            assert(self@ =~= old(self)@.insert(index));
        }
    }

    /// The set with `index` taken out.
    pub fn without_value(self, index: usize) -> (r: IndexBitSet)
        requires
            self.wf(),
            index < CELLS,
        ensures
            r.wf(),
            r@ == self@.remove(index),
    {
        let mut r = self;
        r.remove(index);
        r
    }

    /// Takes `index` out of the set.
    pub fn remove(&mut self, index: usize)
        requires
            old(self).wf(),
            index < CELLS,
        ensures
            final(self).wf(),
            final(self)@ == old(self)@.remove(index),
    {
        let ghost s0 = self.state;
        let b: u128 = index as u128;
        self.state = self.state & !(1u128 << b);
        proof {
            lemma_bit128_bounds(s0, 0, b);
            lemma_indexes_upto(s0, 81);
            lemma_indexes_upto(self.state, 81);
            assert forall|i: usize| #[trigger] self@.contains(i) == old(self)@.remove(index).contains(i) by {
                if i < 81 {
                    lemma_bit128_clear(s0, b, i as u128);
                }
            }
            assert(self@ =~= old(self)@.remove(index));
        }
    }

    /// The union of both sets.
    pub fn with_union(self, other: &IndexBitSet) -> (r: IndexBitSet)
        requires
            self.wf(),
            other.wf(),
        ensures
            r.wf(),
            r@ == self@.union(other@),
    {
        let mut r = self;
        r.union(other);
        r
    }

    /// Adds every index of `other` to the set.
    pub fn union(&mut self, other: &IndexBitSet)
        requires
            old(self).wf(),
            other.wf(),
        ensures
            final(self).wf(),
            final(self)@ == old(self)@.union(other@),
    {
        let ghost s0 = self.state;
        self.state = self.state | other.state;
        proof {
            lemma_bit128_bounds(s0, other.state, 0);
            lemma_indexes_upto(s0, 81);
            lemma_indexes_upto(other.state, 81);
            lemma_indexes_upto(self.state, 81);
            assert forall|i: usize| #[trigger] self@.contains(i) == old(self)@.union(other@).contains(i) by {
                if i < 81 {
                    lemma_bit128_or(s0, other.state, i as u128);
                }
            }
            assert(self@ =~= old(self)@.union(other@));
        }
    }

    /// Whether `index` is in the set; false for an index off the board.
    pub fn contains(&self, index: usize) -> (r: bool)
        ensures
            r == self@.contains(index),
    {
        proof {
            lemma_indexes_upto(self.state, 81);
        }
        if index >= CELLS {
            return false;
        }
        let b: u128 = index as u128;
        proof {
            lemma_bit128_test(self.state, b);
        }
        self.state & (1u128 << b) != 0
    }

    /// The number of indexes in the set.
    pub fn len(&self) -> (r: usize)
        ensures
            r == self@.len(),
    {
        let mut count: usize = 0;
        let mut i: u128 = 0;
        while i < 81
            invariant
                i <= 81,
                count == count128(self.state, i as nat),
                count <= i,
            decreases 81 - i,
        {
            proof {
                lemma_bit128_test(self.state, i);
            }
            if self.state & (1u128 << i) != 0 {
                count = count + 1;
            }
            i = i + 1;
        }
        proof {
            lemma_indexes_upto(self.state, 81);
        }
        count
    }

    /// Whether the set holds no index.
    pub fn is_empty(&self) -> (r: bool)
        requires
            self.wf(),
        ensures
            r == (self@ == Set::<usize>::empty()),
    {
        let r = self.len() == 0;
        proof {
            self.lemma_finite();
            if r {
                self@.lemma_len0_is_empty();
            } else {
                assert(self@.len() > 0);
                assert(self@ != Set::<usize>::empty());
            }
        }
        r
    }

    /// The set of the indexes among `values`.
    pub fn from_slice(values: &[u8]) -> (r: IndexBitSet)
        requires
            forall|i: int| 0 <= i < values@.len() ==> #[trigger] values@[i] < CELLS,
        ensures
            r.wf(),
            r@ == values@.map_values(|v: u8| v as usize).to_set(),
    {
        let mut r = IndexBitSet::default();
        let mut k: usize = 0;
        while k < values.len()
            invariant
                k <= values@.len(),
                r.wf(),
                r@ == values@.take(k as int).map_values(|v: u8| v as usize).to_set(),
                forall|j: int| 0 <= j < values@.len() ==> #[trigger] values@[j] < CELLS,
            decreases values@.len() - k,
        {
            r.insert(values[k] as usize);
            proof {
                let f = |v: u8| v as usize;
                assert(values@.take(k + 1).map_values(f) == values@.take(k as int).map_values(f).push(
                    values@[k as int] as usize));
                values@.take(k as int).map_values(f).lemma_push_to_set_commute(values@[k as int] as usize);
            }
            k = k + 1;
        }
        proof {
            assert(values@.take(k as int) == values@);
        }
        r
    }

    /// Walks the indexes of the set in ascending order.
    pub fn iter(&self) -> (r: IndexBitSetIter)
        requires
            self.wf(),
        ensures
            r@ == self@,
    {
        let r = IndexBitSetIter { value: *self, index: 0 };
        proof {
            assert(r@ =~= self@);
        }
        r
    }
}

/// Yields the indexes of an [`IndexBitSet`] in ascending order.
pub struct IndexBitSetIter {
    value: IndexBitSet,
    index: u8,
}

impl View for IndexBitSetIter {
    type V = Set<usize>;

    /// The indexes not handed out yet.
    closed spec fn view(&self) -> Set<usize> {
        self.value@.filter(|i: usize| i >= self.index)
    }
}

impl IndexBitSetIter {
    /// The smallest index not handed out yet, or `None` once all are.
    pub fn next(&mut self) -> (r: Option<u8>)
        ensures
            match r {
                None => old(self)@ == Set::<usize>::empty() && final(self)@ == old(self)@,
                Some(d) => old(self)@.contains(d as usize) && (forall|e: usize| #[trigger] old(self)@.contains(e) ==> d <= e)
                    && final(self)@ == old(self)@.remove(d as usize),
            },
    {
        while self.index < 81 && !self.value.contains(self.index as usize)
            invariant
                self.value == old(self).value,
                self@ == old(self)@,
                self.index >= old(self).index,
            decreases 81 - self.index,
        {
            proof {
                assert(self@ =~= self.value@.filter(|i: usize| i >= self.index + 1));
            }
            self.index = self.index + 1;
        }
        if self.index >= 81 {
            proof {
                self.value.lemma_finite();
                assert forall|i: usize| !(#[trigger] self@.contains(i)) by {
                    if self.value@.contains(i) {
                        assert(i < 81);
                    }
                }
                assert(self@ =~= Set::<usize>::empty());
            }
            return None;
        }
        let d = self.index;
        self.index = self.index + 1;
        proof {
            assert(self@ =~= old(self)@.remove(d as usize));
        }
        Some(d)
    }
}

} // verus!

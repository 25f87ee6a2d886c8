use crate::prelude::is_digit;
use vstd::prelude::*;

verus! {

/// Whether bit `i` of `s` is set.
pub open spec fn bit16(s: u16, i: u16) -> bool {
    (s >> i) & 1u16 == 1u16
}

proof fn lemma_bit16_set(s: u16, b: u16, i: u16)
    requires
        b < 16,
        i < 16,
    ensures
        bit16(s | (1u16 << b), i) == (bit16(s, i) || i == b),
{
    assert(((s | (1u16 << b)) >> i) & 1u16 == 1u16 <==> (((s >> i) & 1u16 == 1u16) || i == b))
        by (bit_vector)
        requires
            b < 16,
            i < 16,
    ;
}

proof fn lemma_bit16_clear(s: u16, b: u16, i: u16)
    requires
        b < 16,
        i < 16,
    ensures
        bit16(s & !(1u16 << b), i) == (bit16(s, i) && i != b),
{
    assert(((s & !(1u16 << b)) >> i) & 1u16 == 1u16 <==> (((s >> i) & 1u16 == 1u16) && i != b))
        by (bit_vector)
        requires
            b < 16,
            i < 16,
    ;
}

proof fn lemma_bit16_or(s: u16, t: u16, i: u16)
    requires
        i < 16,
    ensures
        bit16(s | t, i) == (bit16(s, i) || bit16(t, i)),
{
    assert(((s | t) >> i) & 1u16 == 1u16 <==> (((s >> i) & 1u16 == 1u16) || ((t >> i) & 1u16
        == 1u16))) by (bit_vector)
        requires
            i < 16,
    ;
}

proof fn lemma_bit16_test(s: u16, b: u16)
    requires
        b < 16,
    ensures
        (s & (1u16 << b) != 0) == bit16(s, b),
{
    assert((s & (1u16 << b) != 0u16) <==> ((s >> b) & 1u16 == 1u16)) by (bit_vector)
        requires
            b < 16,
    ;
}

proof fn lemma_bit16_bounds(s: u16, t: u16, b: u16)
    requires
        s < 512,
        t < 512,
        b < 9,
    ensures
        s | (1u16 << b) < 512,
        s & !(1u16 << b) < 512,
        s | t < 512,
{
    assert(s | (1u16 << b) < 512 && s & !(1u16 << b) < 512 && s | t < 512) by (bit_vector)
        requires
            s < 512,
            t < 512,
            b < 9,
    ;
}

proof fn lemma_bit16_zero(i: u16)
    requires
        i < 16,
    ensures
        !bit16(0u16, i),
{
    assert((0u16 >> i) & 1u16 != 1u16) by (bit_vector);
}

/// The digits `1..=n` whose bit is set in `s` (bit `d - 1` stands for digit `d`).
pub open spec fn digits_upto(s: u16, n: nat) -> Set<u8>
    decreases n,
{
    if n == 0 {
        Set::empty()
    } else if bit16(s, (n - 1) as u16) {
        digits_upto(s, (n - 1) as nat).insert(n as u8)
    } else {
        digits_upto(s, (n - 1) as nat)
    }
}

/// The number of bits set among the lowest `n` bits of `s`.
pub open spec fn count16(s: u16, n: nat) -> nat
    decreases n,
{
    if n == 0 {
        0
    } else if bit16(s, (n - 1) as u16) {
        count16(s, (n - 1) as nat) + 1
    } else {
        count16(s, (n - 1) as nat)
    }
}

proof fn lemma_digits_upto(s: u16, n: nat)
    requires
        n <= 9,
    ensures
        digits_upto(s, n).finite(),
        digits_upto(s, n).len() == count16(s, n),
        forall|v: u8|
            #![trigger digits_upto(s, n).contains(v)]
            digits_upto(s, n).contains(v) <==> (1 <= v <= n && bit16(s, (v - 1) as u16)),
    decreases n,
{
    if n > 0 {
        lemma_digits_upto(s, (n - 1) as nat);
    }
}

/// A set of Sudoku digits `1..=9`, stored as a 16-bit word in which bit
/// `d - 1` stands for digit `d`.
#[derive(Debug, Copy, Clone, PartialEq, Eq, Structural, Ord, PartialOrd, Hash)]
pub struct ValueBitSet {
    state: u16,
}

impl View for ValueBitSet {
    type V = Set<u8>;

    closed spec fn view(&self) -> Set<u8> {
        digits_upto(self.state, 9)
    }
}

impl Default for ValueBitSet {
    fn default() -> (r: ValueBitSet)
        ensures
            r.wf(),
            r@ == Set::<u8>::empty(),
    {
        let r = ValueBitSet { state: 0 };
        proof {
            r.lemma_view();
            assert forall|v: u8| !r@.contains(v) by {
                if 1 <= v <= 9 {
                    lemma_bit16_zero((v - 1) as u16);
                }
            }
            assert(r@ =~= Set::<u8>::empty());
        }
        r
    }
}

impl ValueBitSet {
    /// Only the nine digit bits may be set.
    pub closed spec fn wf(&self) -> bool {
        self.state < 512
    }

    proof fn lemma_view(&self)
        ensures
            self@.finite(),
            self@.len() == count16(self.state, 9),
            forall|v: u8| #![trigger self@.contains(v)]
                self@.contains(v) <==> (is_digit(v) && bit16(self.state, (v - 1) as u16)),
    {
        lemma_digits_upto(self.state, 9);
    }

    pub proof fn lemma_finite(&self)
        ensures
            self@.finite(),
            self@.len() <= 9,
            forall|v: u8| self@.contains(v) ==> is_digit(v),
    {
        lemma_digits_upto(self.state, 9);
        let full = Set::new(|v: u8| is_digit(v));
        assert(full =~= set![1u8, 2, 3, 4, 5, 6, 7, 8, 9]);
        assert(set![1u8, 2, 3, 4, 5, 6, 7, 8, 9].len() == 9);
        vstd::set_lib::lemma_len_subset(self@, full);
    }

    /// The set with `value` added.
    pub fn with_value(self, value: u8) -> (r: ValueBitSet)
        requires
            self.wf(),
            is_digit(value),
        ensures
            r.wf(),
            r@ == self@.insert(value),
    {
        let mut r = self;
        r.insert(value);
        r
    }

    /// Adds `value` to the set.
    pub fn insert(&mut self, value: u8)
        requires
            old(self).wf(),
            is_digit(value),
        ensures
            final(self).wf(),
            final(self)@ == old(self)@.insert(value),
    {
        let ghost s0 = self.state;
        let b: u16 = (value - 1) as u16;
        self.state = self.state | (1u16 << b);
        proof {
            lemma_bit16_bounds(s0, 0, b);
            lemma_digits_upto(s0, 9);
            lemma_digits_upto(self.state, 9);
            assert forall|v: u8| #[trigger] self@.contains(v) == old(self)@.insert(value).contains(v) by {
                if is_digit(v) {
                    lemma_bit16_set(s0, b, (v - 1) as u16);
                }
            }
            assert(self@ =~= old(self)@.insert(value));
        }
    }

    /// The set with `value` taken out.
    pub fn without_value(self, value: u8) -> (r: ValueBitSet)
        requires
            self.wf(),
            is_digit(value),
        ensures
            r.wf(),
            r@ == self@.remove(value),
    {
        let mut r = self;
        r.remove(value);
        r
    }

    /// Takes `value` out of the set.
    pub fn remove(&mut self, value: u8)
        requires
            old(self).wf(),
            is_digit(value),
        ensures
            final(self).wf(),
            final(self)@ == old(self)@.remove(value),
    {
        let ghost s0 = self.state;
        let b: u16 = (value - 1) as u16;
        self.state = self.state & !(1u16 << b);
        proof {
            lemma_bit16_bounds(s0, 0, b);
            lemma_digits_upto(s0, 9);
            lemma_digits_upto(self.state, 9);
            assert forall|v: u8| #[trigger] self@.contains(v) == old(self)@.remove(value).contains(v) by {
                if is_digit(v) {
                    lemma_bit16_clear(s0, b, (v - 1) as u16);
                }
            }
            assert(self@ =~= old(self)@.remove(value));
        }
    }

    /// The union of both sets.
    pub fn with_union(self, other: &ValueBitSet) -> (r: ValueBitSet)
        requires
            self.wf(),
            other.wf(),
        ensures
            r.wf(),
            r@ == self@.union(other@),
    {
        let mut r = self;
        r.union(other);
        r
    }

    /// Adds every digit of `other` to the set.
    pub fn union(&mut self, other: &ValueBitSet)
        requires
            old(self).wf(),
            other.wf(),
        ensures
            final(self).wf(),
            final(self)@ == old(self)@.union(other@),
    {
        let ghost s0 = self.state;
        self.state = self.state | other.state;
        proof {
            lemma_bit16_bounds(s0, other.state, 0);
            lemma_digits_upto(s0, 9);
            lemma_digits_upto(other.state, 9);
            lemma_digits_upto(self.state, 9);
            assert forall|v: u8| #[trigger] self@.contains(v) == old(self)@.union(other@).contains(v) by {
                if is_digit(v) {
                    lemma_bit16_or(s0, other.state, (v - 1) as u16);
                }
            }
            assert(self@ =~= old(self)@.union(other@));
        }
    }

    /// Whether `value` is in the set; false for anything but a digit.
    pub fn contains(&self, value: u8) -> (r: bool)
        ensures
            r == self@.contains(value),
    {
        proof {
            lemma_digits_upto(self.state, 9);
        }
        if value == 0 || value > 9 {
            return false;
        }
        let b: u16 = (value - 1) as u16;
        proof {
            lemma_bit16_test(self.state, b);
        }
        self.state & (1u16 << b) != 0
    }

    /// The number of digits in the set.
    pub fn len(&self) -> (r: usize)
        ensures
            r == self@.len(),
    {
        let mut count: usize = 0;
        let mut i: u16 = 0;
        while i < 9
            invariant
                i <= 9,
                count == count16(self.state, i as nat),
                count <= i,
            decreases 9 - i,
        {
            proof {
                lemma_bit16_test(self.state, i);
            }
            if self.state & (1u16 << i) != 0 {
                count = count + 1;
            }
            i = i + 1;
        }
        proof {
            lemma_digits_upto(self.state, 9);
        }
        count
    }

    /// Whether the set holds no digit.
    pub fn is_empty(&self) -> (r: bool)
        requires
            self.wf(),
        ensures
            r == (self@ == Set::<u8>::empty()),
    {
        let r = self.len() == 0;
        proof {
            self.lemma_finite();
            if r {
                self@.lemma_len0_is_empty();
            } else {
                assert(self@.len() > 0);
                assert(self@ != Set::<u8>::empty());
            }
        }
        r
    }
}

impl ValueBitSet {
    /// The set of the digits among `values`.
    pub fn from_slice(values: &[u8]) -> (r: ValueBitSet)
        requires
            forall|i: int| 0 <= i < values@.len() ==> is_digit(#[trigger] values@[i]),
        ensures
            r.wf(),
            r@ == values@.to_set(),
    {
        let mut r = ValueBitSet::default();
        let mut i: usize = 0;
        while i < values.len()
            invariant
                i <= values@.len(),
                r.wf(),
                r@ == values@.take(i as int).to_set(),
                forall|j: int| 0 <= j < values@.len() ==> is_digit(#[trigger] values@[j]),
            decreases values@.len() - i,
        {
            r.insert(values[i]);
            proof {
                assert(values@.take(i + 1) == values@.take(i as int).push(values@[i as int]));
                values@.take(i as int).lemma_push_to_set_commute(values@[i as int]);
            }
            i = i + 1;
        }
        proof {
            assert(values@.take(i as int) == values@);
        }
        r
    }

    /// Walks the digits of the set in ascending order.
    pub fn iter(&self) -> (r: ValueBitSetIter)
        requires
            self.wf(),
        ensures
            r@ == self@,
    {
        let r = ValueBitSetIter { value: *self, index: 1 };
        proof {
            self.lemma_finite();
            assert forall|v: u8| #[trigger] r@.contains(v) == self@.contains(v) by {
                if self@.contains(v) {
                    assert(is_digit(v));
                }
            }
            assert(r@ =~= self@);
        }
        r
    }
}

/// Yields the digits of a [`ValueBitSet`] in ascending order.
pub struct ValueBitSetIter {
    value: ValueBitSet,
    index: u8,
}

impl View for ValueBitSetIter {
    type V = Set<u8>;

    /// The digits not handed out yet.
    closed spec fn view(&self) -> Set<u8> {
        self.value@.filter(|v: u8| v >= self.index)
    }
}

impl ValueBitSetIter {
    /// The smallest digit not handed out yet, or `None` once all are.
    pub fn next(&mut self) -> (r: Option<u8>)
        ensures
            match r {
                None => old(self)@ == Set::<u8>::empty() && final(self)@ == old(self)@,
                Some(d) => old(self)@.contains(d) && (forall|e: u8| #[trigger] old(self)@.contains(e) ==> d <= e)
                    && final(self)@ == old(self)@.remove(d),
            },
    {
        while self.index <= 9 && !self.value.contains(self.index)
            invariant
                self.value == old(self).value,
                self@ == old(self)@,
                self.index >= old(self).index,
            decreases 10 - self.index,
        {
            proof {
                assert(self@ =~= self.value@.filter(|v: u8| v >= self.index + 1));
            }
            self.index = self.index + 1;
        }
        if self.index > 9 {
            proof {
                self.value.lemma_finite();
                assert forall|v: u8| !(#[trigger] self@.contains(v)) by {
                    if self.value@.contains(v) {
                        assert(is_digit(v));
                    }
                }
                assert(self@ =~= Set::<u8>::empty());
            }
            return None;
        }
        let d = self.index;
        self.index = self.index + 1;
        proof {
            assert(self@ =~= old(self)@.remove(d));
        }
        Some(d)
    }
}

} // verus!

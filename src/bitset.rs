use vstd::prelude::*;

verus! {

/// Whether bit `i` of `b` is set.
pub open spec fn bit(b: u16, i: u16) -> bool {
    (b >> i) & 1u16 == 1u16
}

/// The values below `n` whose bit is set in `b`.
pub open spec fn bits_below(b: u16, n: nat) -> Set<nat>
    decreases n,
{
    if n == 0 {
        Set::empty()
    } else if bit(b, (n - 1) as u16) {
        bits_below(b, (n - 1) as nat).insert((n - 1) as nat)
    } else {
        bits_below(b, (n - 1) as nat)
    }
}

/// The set of values that the sixteen bits of `b` stand for.
pub open spec fn bits_set(b: u16) -> Set<nat> {
    bits_below(b, 16)
}

proof fn lemma_bits_below(b: u16, n: nat)
    requires
        n <= 16,
    ensures
        bits_below(b, n).finite(),
        forall|v: nat| #[trigger] bits_below(b, n).contains(v) <==> (v < n && bit(b, v as u16)),
    decreases n,
{
    if n > 0 {
        lemma_bits_below(b, (n - 1) as nat);
    }
}

/// Number of set bits of `b` below `n`.
spec fn count_below(b: u16, n: nat) -> nat
    decreases n,
{
    if n == 0 {
        0
    } else {
        count_below(b, (n - 1) as nat) + ((b >> ((n - 1) as u16)) & 1u16) as nat
    }
}

proof fn lemma_count_below(b: u16, n: nat)
    requires
        n <= 16,
    ensures
        bits_below(b, n).finite(),
        bits_below(b, n).len() == count_below(b, n),
    decreases n,
{
    lemma_bits_below(b, n);
    if n > 0 {
        let i = (n - 1) as u16;
        assert((b >> i) & 1u16 == 1u16 || (b >> i) & 1u16 == 0u16) by (bit_vector);
        lemma_count_below(b, (n - 1) as nat);
        lemma_bits_below(b, (n - 1) as nat);
    }
}

proof fn lemma_contains_bit(b: u16, v: u16)
    requires
        v < 16,
    ensures
        (b & (1u16 << v) != 0) == bit(b, v),
{
    assert((b & (1u16 << v) != 0) == ((b >> v) & 1u16 == 1u16)) by (bit_vector)
        requires v < 16;
}

/// The pairwise-sum bit count of a word.
spec fn popcount(b: u16) -> u16 {
    let x1 = ((b & 0x5555) + ((b >> 1) & 0x5555)) as u16;
    let x2 = ((x1 & 0x3333) + ((x1 >> 2) & 0x3333)) as u16;
    let x3 = ((x2 & 0x0f0f) + ((x2 >> 4) & 0x0f0f)) as u16;
    ((x3 & 0x00ff) + ((x3 >> 8) & 0x00ff)) as u16
}

proof fn lemma_popcount(b: u16)
    ensures
        popcount(b) as nat == count_below(b, 16),
        b != 0 ==> count_below(b, 16) > 0,
{
    reveal_with_fuel(count_below, 17);
    let s0 = (b >> 0u16) & 1u16;
    let s1 = (b >> 1u16) & 1u16;
    let s2 = (b >> 2u16) & 1u16;
    let s3 = (b >> 3u16) & 1u16;
    let s4 = (b >> 4u16) & 1u16;
    let s5 = (b >> 5u16) & 1u16;
    let s6 = (b >> 6u16) & 1u16;
    let s7 = (b >> 7u16) & 1u16;
    let s8 = (b >> 8u16) & 1u16;
    let s9 = (b >> 9u16) & 1u16;
    let s10 = (b >> 10u16) & 1u16;
    let s11 = (b >> 11u16) & 1u16;
    let s12 = (b >> 12u16) & 1u16;
    let s13 = (b >> 13u16) & 1u16;
    let s14 = (b >> 14u16) & 1u16;
    let s15 = (b >> 15u16) & 1u16;
    assert(popcount(b) == s0 + s1 + s2 + s3 + s4 + s5 + s6 + s7 + s8 + s9 + s10 + s11 + s12 + s13
        + s14 + s15) by (bit_vector)
        requires
            s0 == (b >> 0u16) & 1u16, s1 == (b >> 1u16) & 1u16, s2 == (b >> 2u16) & 1u16,
            s3 == (b >> 3u16) & 1u16, s4 == (b >> 4u16) & 1u16, s5 == (b >> 5u16) & 1u16,
            s6 == (b >> 6u16) & 1u16, s7 == (b >> 7u16) & 1u16, s8 == (b >> 8u16) & 1u16,
            s9 == (b >> 9u16) & 1u16, s10 == (b >> 10u16) & 1u16, s11 == (b >> 11u16) & 1u16,
            s12 == (b >> 12u16) & 1u16, s13 == (b >> 13u16) & 1u16, s14 == (b >> 14u16) & 1u16,
            s15 == (b >> 15u16) & 1u16;
    assert(b != 0 ==> s0 + s1 + s2 + s3 + s4 + s5 + s6 + s7 + s8 + s9 + s10 + s11 + s12 + s13
        + s14 + s15 > 0) by (bit_vector)
        requires
            s0 == (b >> 0u16) & 1u16, s1 == (b >> 1u16) & 1u16, s2 == (b >> 2u16) & 1u16,
            s3 == (b >> 3u16) & 1u16, s4 == (b >> 4u16) & 1u16, s5 == (b >> 5u16) & 1u16,
            s6 == (b >> 6u16) & 1u16, s7 == (b >> 7u16) & 1u16, s8 == (b >> 8u16) & 1u16,
            s9 == (b >> 9u16) & 1u16, s10 == (b >> 10u16) & 1u16, s11 == (b >> 11u16) & 1u16,
            s12 == (b >> 12u16) & 1u16, s13 == (b >> 13u16) & 1u16, s14 == (b >> 14u16) & 1u16,
            s15 == (b >> 15u16) & 1u16;
}

/// A set of small values (below 16), kept as the bits of one word.
#[derive(Copy, Clone)]
pub struct BitSet {
    bits: u16,
}

impl View for BitSet {
    type V = Set<nat>;

    closed spec fn view(&self) -> Set<nat> {
        bits_set(self.bits)
    }
}

impl BitSet {
    /// The empty set.
    pub fn new() -> (s: BitSet)
        ensures
            s@ == Set::<nat>::empty(),
            s@.finite(),
    {
        let s = BitSet { bits: 0 };
        proof {
            lemma_bits_below(0, 16);
            assert forall|v: u16| v < 16 implies !bit(0, v) by {
                assert((0u16 >> v) & 1u16 == 0u16) by (bit_vector);
            }
            assert(s@ =~= Set::<nat>::empty());
        }
        s
    }

    /// Membership in the set of a word is membership of a set bit.
    pub proof fn lemma_bits(b: u16)
        ensures
            bits_set(b).finite(),
            forall|v: nat| #[trigger] bits_set(b).contains(v) <==> (v < 16 && bit(b, v as u16)),
    {
        lemma_bits_below(b, 16);
    }

    /// Every set is finite, and holds only values below 16.
    pub proof fn lemma_wf(&self)
        ensures
            self@.finite(),
            forall|v: nat| #[trigger] self@.contains(v) ==> v < 16,
    {
        lemma_bits_below(self.bits, 16);
    }

    pub fn contains(&self, value: u8) -> (r: bool)
        requires
            value < 16,
        ensures
            r == self@.contains(value as nat),
    {
        proof {
            lemma_bits_below(self.bits, 16);
            lemma_contains_bit(self.bits, value as u16);
        }
        (self.bits & (1u16 << value as u16)) != 0
    }

    pub fn is_empty(&self) -> (r: bool)
        ensures
            r == (self@ == Set::<nat>::empty()),
    {
        let b = self.bits;
        proof {
            lemma_bits_below(b, 16);
            if b != 0 {
                lemma_popcount(b);
                lemma_count_below(b, 16);
            } else {
                assert forall|v: u16| v < 16 implies !bit(b, v) by {
                    assert((0u16 >> v) & 1u16 == 0u16) by (bit_vector);
                }
                assert(self@ =~= Set::<nat>::empty());
            }
        }
        b == 0
    }

    pub fn insert(&mut self, value: u8)
        requires
            value < 16,
        ensures
            final(self)@ == old(self)@.insert(value as nat),
    {
        let ghost b = self.bits;
        let v = value as u16;
        self.bits = self.bits | (1u16 << v);
        proof {
            let nb = self.bits;
            lemma_bits_below(b, 16);
            lemma_bits_below(nb, 16);
            assert forall|i: u16| i < 16 implies bit(nb, i) == (bit(b, i) || i == v) by {
                assert(((b | (1u16 << v)) >> i) & 1u16 == 1u16 <==> ((b >> i) & 1u16 == 1u16 || i == v))
                    by (bit_vector)
                    requires i < 16, v < 16;
            }
            assert(final(self)@ =~= old(self)@.insert(value as nat));
        }
    }

    pub fn remove(&mut self, value: u8)
        requires
            value < 16,
        ensures
            final(self)@ == old(self)@.remove(value as nat),
    {
        let ghost b = self.bits;
        let v = value as u16;
        self.bits = self.bits & !(1u16 << v);
        proof {
            let nb = self.bits;
            lemma_bits_below(b, 16);
            lemma_bits_below(nb, 16);
            assert forall|i: u16| i < 16 implies bit(nb, i) == (bit(b, i) && i != v) by {
                assert(((b & !(1u16 << v)) >> i) & 1u16 == 1u16 <==> ((b >> i) & 1u16 == 1u16 && i != v))
                    by (bit_vector)
                    requires i < 16, v < 16;
            }
            assert(final(self)@ =~= old(self)@.remove(value as nat));
        }
    }

    /// Replaces the set by the values of `mask` that it does not hold:
    /// the bits become `!bits & mask`.
    pub fn flip(&mut self, mask: u16)
        ensures
            final(self)@ == bits_set(mask).difference(old(self)@),
    {
        let ghost b = self.bits;
        self.bits = !self.bits & mask;
        proof {
            let nb = self.bits;
            lemma_bits_below(b, 16);
            lemma_bits_below(nb, 16);
            lemma_bits_below(mask, 16);
            assert forall|i: u16| i < 16 implies bit(nb, i) == (bit(mask, i) && !bit(b, i)) by {
                assert(((!b & mask) >> i) & 1u16 == 1u16 <==> ((mask >> i) & 1u16 == 1u16 && !((b >> i) & 1u16 == 1u16)))
                    by (bit_vector)
                    requires i < 16;
            }
            assert(final(self)@ =~= bits_set(mask).difference(old(self)@));
        }
    }

    /// Adds every value of `set`.
    pub fn extend(&mut self, set: &BitSet)
        ensures
            final(self)@ == old(self)@.union(set@),
    {
        let ghost b = self.bits;
        let o = set.bits;
        self.bits = self.bits | set.bits;
        proof {
            let nb = self.bits;
            lemma_bits_below(b, 16);
            lemma_bits_below(nb, 16);
            lemma_bits_below(o, 16);
            assert forall|i: u16| i < 16 implies bit(nb, i) == (bit(b, i) || bit(o, i)) by {
                assert(((b | o) >> i) & 1u16 == 1u16 <==> ((b >> i) & 1u16 == 1u16 || (o >> i) & 1u16 == 1u16))
                    by (bit_vector)
                    requires i < 16;
            }
            assert(final(self)@ =~= old(self)@.union(set@));
        }
    }

    /// The number of values in the set, counted by pairwise bit sums.
    pub fn len(&self) -> (r: usize)
        ensures
            r == self@.len(),
    {
        let b = self.bits;
        let mut x: u16 = b;
        assert((x & 0x5555u16) + ((x >> 1u16) & 0x5555u16) <= 0xffff) by (bit_vector);
        x = (x & 0x5555) + ((x >> 1) & 0x5555);
        assert((x & 0x3333u16) + ((x >> 2u16) & 0x3333u16) <= 0xffff) by (bit_vector);
        x = (x & 0x3333) + ((x >> 2) & 0x3333);
        assert((x & 0x0f0fu16) + ((x >> 4u16) & 0x0f0fu16) <= 0xffff) by (bit_vector);
        x = (x & 0x0f0f) + ((x >> 4) & 0x0f0f);
        assert((x & 0x00ffu16) + ((x >> 8u16) & 0x00ffu16) <= 0xffff) by (bit_vector);
        x = (x & 0x00ff) + ((x >> 8) & 0x00ff);
        proof {
            lemma_count_below(b, 16);
            lemma_popcount(b);
            assert(x == popcount(b));
        }
        x as usize
    }
}

/// After inserting `v`, the set contains `v`, and its size grows by one
/// exactly when `v` was not there before: a value is never counted twice.
pub proof fn lemma_insert_contains_and_counts(before: BitSet, after: BitSet, v: nat)
    requires
        after@ == before@.insert(v),
    ensures
        after@.contains(v),
        after@.len() == before@.len() + if before@.contains(v) { 0nat } else { 1nat },
{
    before.lemma_wf();
}

/// After removing `v`, the set lacks `v`, and its size shrinks by one
/// exactly when `v` was there before.
pub proof fn lemma_remove_excludes_and_counts(before: BitSet, after: BitSet, v: nat)
    requires
        after@ == before@.remove(v),
    ensures
        !after@.contains(v),
        after@.len() + if before@.contains(v) { 1nat } else { 0nat } == before@.len(),
{
    before.lemma_wf();
}

} // verus!

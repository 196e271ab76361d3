//! Rules of totalistic automata: for which numbers of alive neighbors a dead cell becomes
//! alive, and for which an alive cell survives.

use vstd::prelude::*;

verus! {

/// Bit `n` of `w`.
pub open spec fn bit16(w: u16, n: int) -> bool {
    (w >> n) & 1 == 1
}

proof fn lemma_bit16_ops(w: u16, v: u16, b: u16, c: u16)
    by (bit_vector)
    requires
        b < 16,
        c < 16,
    ensures
        (0u16 >> c) & 1 == 0,
        0u16 & 0xFE00 == 0,
        (w & (1u16 << b) != 0) <==> (w >> b) & 1 == 1,
        ((w | (1u16 << b)) >> c) & 1 == 1 <==> (c == b || (w >> c) & 1 == 1),
        ((w | v) >> c) & 1 == 1 <==> ((w >> c) & 1 == 1 || (v >> c) & 1 == 1),
        (b < 9 && w & 0xFE00 == 0) ==> (w | (1u16 << b)) & 0xFE00 == 0,
        (w & 0xFE00 == 0 && v & 0xFE00 == 0) ==> (w | v) & 0xFE00 == 0,
{
}

proof fn lemma_bit16_ext(w: u16, v: u16)
    by (bit_vector)
    requires
        w & 0xFE00 == 0,
        v & 0xFE00 == 0,
        ((w >> 0) & 1 == 1) == ((v >> 0) & 1 == 1),
        ((w >> 1) & 1 == 1) == ((v >> 1) & 1 == 1),
        ((w >> 2) & 1 == 1) == ((v >> 2) & 1 == 1),
        ((w >> 3) & 1 == 1) == ((v >> 3) & 1 == 1),
        ((w >> 4) & 1 == 1) == ((v >> 4) & 1 == 1),
        ((w >> 5) & 1 == 1) == ((v >> 5) & 1 == 1),
        ((w >> 6) & 1 == 1) == ((v >> 6) & 1 == 1),
        ((w >> 7) & 1 == 1) == ((v >> 7) & 1 == 1),
        ((w >> 8) & 1 == 1) == ((v >> 8) & 1 == 1),
    ensures
        w == v,
{
}

/// Bitset encoding a rule for a 2D cellular automaton.
///
/// Each bit represents whether the associated rule applies to a cell with the
/// corresponding number of neighbors. The first / lowest bit corresponds to 0
/// neighbor, the next bit to 1 neighbor, etc. until the maximum number of Moore
/// neighbors (8).
///
/// A bitset is made from a bit representation, from a half-open or a closed range of
/// neighbor counts, from an array of exactly 9 `bool`, from a slice of at most 9 `bool`,
/// or by combining two bitsets with `|`.
#[derive(Debug, Clone, Copy, PartialEq, Eq, Structural)]
pub struct RuleBitset2(u16);

impl View for RuleBitset2 {
    type V = Set<int>;

    /// The neighbor counts to which the rule applies.
    open spec fn view(&self) -> Set<int> {
        Set::new(|n: int| self.allows(n))
    }
}

impl RuleBitset2 {
    /// The bit representation.
    pub closed spec fn bits(self) -> u16 {
        self.0
    }

    /// Whether the rule applies to a cell with `n` neighbors.
    pub open spec fn allows(self, n: int) -> bool {
        0 <= n < 9 && bit16(self.bits(), n)
    }

    /// The top 7 bits, which stand for no neighbor count, are zero.
    #[verifier::type_invariant]
    pub open spec fn wf(self) -> bool {
        self.bits() & 0xFE00 == 0
    }

    /// Whether `array` holds, for every neighbor count, whether the rule applies to it.
    pub open spec fn is_array_of(self, array: [bool; 9]) -> bool {
        forall|n: int| 0 <= n < 9 ==> #[trigger] array[n] == self.allows(n)
    }

    /// The bitset that applies wherever `self` or `other` does.
    pub closed spec fn or(self, other: Self) -> Self {
        RuleBitset2(self.0 | other.0)
    }

    /// Bitsets that apply to the same neighbor counts are equal.
    pub proof fn lemma_extensional(self, other: Self)
        requires
            self.wf(),
            other.wf(),
            forall|n: int| 0 <= n < 9 ==> self.allows(n) == other.allows(n),
        ensures
            self == other,
    {
        assert(self.allows(0) == other.allows(0));
        assert(self.allows(1) == other.allows(1));
        assert(self.allows(2) == other.allows(2));
        assert(self.allows(3) == other.allows(3));
        assert(self.allows(4) == other.allows(4));
        assert(self.allows(5) == other.allows(5));
        assert(self.allows(6) == other.allows(6));
        assert(self.allows(7) == other.allows(7));
        assert(self.allows(8) == other.allows(8));
        lemma_bit16_ext(self.0, other.0);
    }

    /// OR'ing two bitsets gives the bitset of the neighbor counts of either.
    pub proof fn lemma_or(self, other: Self)
        requires
            self.wf(),
            other.wf(),
        ensures
            self.or(other).wf(),
            self.or(other).bits() == self.bits() | other.bits(),
            forall|n: int| #[trigger] self.or(other).allows(n) == (self.allows(n) || other.allows(n)),
            self.or(other)@ == self@.union(other@),
    {
        lemma_bit16_ops(self.0, other.0, 0, 0);
        assert forall|n: int| #[trigger]
            self.or(other).allows(n) == (self.allows(n) || other.allows(n)) by {
            if 0 <= n < 9 {
                lemma_bit16_ops(self.0, other.0, 0, n as u16);
            }
        }
        assert(self.or(other)@ =~= self@.union(other@));
    }

    /// The array of an OR of two bitsets is, entry by entry, the OR of their arrays.
    pub proof fn lemma_or_arrays(
        self,
        other: Self,
        mine: [bool; 9],
        theirs: [bool; 9],
        both: [bool; 9],
        i: int,
    )
        requires
            self.wf(),
            other.wf(),
            self.is_array_of(mine),
            other.is_array_of(theirs),
            self.or(other).is_array_of(both),
            0 <= i < 9,
        ensures
            both[i] == (mine[i] || theirs[i]),
    {
        self.lemma_or(other);
        assert(self.or(other).allows(i) == (self.allows(i) || other.allows(i)));
    }

    /// A bitset made from the array of a bitset is that bitset.
    pub proof fn lemma_array_round_trip(self, array: [bool; 9], back: Self)
        requires
            self.wf(),
            back.wf(),
            self.is_array_of(array),
            back.is_array_of(array),
        ensures
            back == self,
    {
        assert forall|n: int| 0 <= n < 9 implies back.allows(n) == self.allows(n) by {
            assert(array[n] == self.allows(n));
            assert(array[n] == back.allows(n));
        }
        back.lemma_extensional(self);
    }

    /// Whether a bit representation encodes a rule: its top 7 bits are zero.
    pub fn is_valid_bits(bits: u16) -> (valid: bool)
        ensures
            valid == (bits & 0xFE00 == 0),
    {
        bits & 0xFE00u16 == 0
    }

    /// Create a rule bitset from a bit representation whose top 7 bits are zero.
    pub fn from_bits(bits: u16) -> (r: Self)
        requires
            bits & 0xFE00 == 0,
        ensures
            r.bits() == bits,
            r.wf(),
    {
        Self(bits)
    }

    /// Create a rule bitset from any bit representation, or `None` where its top 7
    /// bits are not all zero.
    pub fn checked_from_bits(bits: u16) -> (r: Option<Self>)
        ensures
            r is Some <==> bits & 0xFE00 == 0,
            r matches Some(rule) ==> rule.bits() == bits && rule.wf(),
    {
        if Self::is_valid_bits(bits) {
            Some(Self(bits))
        } else {
            None
        }
    }

    /// Create a rule bitset by OR'ing two existing bit representations.
    pub fn or_with(self, other: Self) -> (r: Self)
        ensures
            r == self.or(other),
            r.wf(),
            r.bits() == self.bits() | other.bits(),
            r@ == self@.union(other@),
    {
        proof {
            use_type_invariant(self);
            use_type_invariant(other);
            self.lemma_or(other);
        }
        Self(self.0 | other.0)
    }

    /// Convert the rule to its bit representation.
    ///
    /// The returned `u16` always has its upper 7 bits set to zero. The lower 9
    /// bits represent whether the associated rule applies to a cell with 0 to
    /// 8 neighbors.
    pub fn to_bits(&self) -> (bits: u16)
        ensures
            bits == self.bits(),
            bits & 0xFE00 == 0,
    {
        proof {
            use_type_invariant(self);
        }
        self.0
    }

    /// Whether the rule applies to a cell with `count` neighbors.
    pub fn applies(&self, count: u8) -> (r: bool)
        ensures
            r == self.allows(count as int),
    {
        if count < 9 {
            proof {
                lemma_bit16_ops(self.0, 0, count as u16, 0);
            }
            self.0 & (1u16 << count) != 0
        } else {
            false
        }
    }

    /// Convert the rule to an array of `bool`s.
    ///
    /// The `bool` at index N corresponds to the N-th bit (from lowest to
    /// highest) in the bit representation. The bits represent whether the
    /// associated rule applies to a cell with 0 to 8 neighbors.
    pub fn to_array(&self) -> (array: [bool; 9])
        ensures
            self.is_array_of(array),
    {
        let mut array = [false; 9];
        let mut n: u8 = 0;
        while n < 9
            invariant
                n <= 9,
                forall|i: int| 0 <= i < n ==> #[trigger] array[i] == self.allows(i),
            decreases 9 - n,
        {
            array[n as usize] = self.applies(n);
            n = n + 1;
        }
        array
    }

    /// Create a rule bitset that applies to the neighbor counts from `start` up to, but
    /// without, `end`, where `end` is at most 9.
    pub fn from_range(start: u8, end: u8) -> (r: Self)
        requires
            end <= 9,
        ensures
            r.wf(),
            r@ == Set::new(|n: int| start <= n < end),
    {
        let mut bits: u16 = 0;
        let mut b: u8 = start;
        proof {
            lemma_bit16_ops(0, 0, 0, 0);
            assert forall|n: int| 0 <= n < 16 implies !#[trigger] bit16(bits, n) by {
                lemma_bit16_ops(0, 0, 0, n as u16);
            }
        }
        while b < end
            invariant
                end <= 9,
                start <= b,
                b <= end || b == start,
                bits & 0xFE00 == 0,
                forall|n: int| 0 <= n < 16 ==> #[trigger] bit16(bits, n) == (start <= n < b),
            decreases end - b,
        {
            proof {
                lemma_bit16_ops(bits, 0, b as u16, 0);
                assert forall|n: int| 0 <= n < 16 implies #[trigger] bit16(
                    bits | (1u16 << b),
                    n,
                ) == (start <= n < b + 1) by {
                    lemma_bit16_ops(bits, 0, b as u16, n as u16);
                    assert(bit16(bits, n) == (start <= n < b));
                }
            }
            bits = bits | (1u16 << b);
            b = b + 1;
        }
        let r = Self(bits);
        proof {
            assert(r@ =~= Set::new(|n: int| start <= n < end));
        }
        r
    }

    /// Create a rule bitset that applies to the neighbor counts from `start` up to and
    /// including `end`, where `end` is at most 8.
    pub fn from_range_inclusive(start: u8, end: u8) -> (r: Self)
        requires
            end <= 8,
        ensures
            r.wf(),
            r@ == Set::new(|n: int| start <= n <= end),
    {
        let r = Self::from_range(start, end + 1);
        proof {
            assert(r@ =~= Set::new(|n: int| start <= n <= end));
        }
        r
    }

    /// Create a rule bitset from a slice of at most 9 `bool`, one per neighbor count from 0
    /// on; the rule applies to none of the counts that the slice does not reach.
    pub fn from_slice(value: &[bool]) -> (r: Self)
        requires
            value@.len() <= 9,
        ensures
            r.wf(),
            forall|n: int| #[trigger] r.allows(n) == (0 <= n < value@.len() && value@[n]),
    {
        let mut bits: u16 = 0;
        let mut b: usize = 0;
        proof {
            lemma_bit16_ops(0, 0, 0, 0);
            assert forall|n: int| 0 <= n < 16 implies !#[trigger] bit16(bits, n) by {
                lemma_bit16_ops(0, 0, 0, n as u16);
            }
        }
        while b < value.len()
            invariant
                value@.len() <= 9,
                b <= value@.len(),
                bits & 0xFE00 == 0,
                forall|n: int| 0 <= n < 16 ==> #[trigger] bit16(bits, n) == (n < b && value@[n]),
            decreases value@.len() - b,
        {
            if value[b] {
                let shift = b as u8;
                proof {
                    lemma_bit16_ops(bits, 0, shift as u16, 0);
                    assert forall|n: int| 0 <= n < 16 implies #[trigger] bit16(
                        bits | (1u16 << shift),
                        n,
                    ) == (n < b + 1 && value@[n]) by {
                        lemma_bit16_ops(bits, 0, shift as u16, n as u16);
                        assert(bit16(bits, n) == (n < b && value@[n]));
                    }
                }
                bits = bits | (1u16 << shift);
            }
            b = b + 1;
        }
        Self(bits)
    }

    /// Create a rule bitset from an array of exactly 9 `bool`, one per neighbor count.
    pub fn from_array(value: [bool; 9]) -> (r: Self)
        ensures
            r.wf(),
            r.is_array_of(value),
    {
        let slice = value.as_slice();
        let r = Self::from_slice(slice);
        proof {
            assert forall|n: int| 0 <= n < 9 implies #[trigger] value[n] == r.allows(n) by {
                assert(r.allows(n) == (0 <= n < slice@.len() && slice@[n]));
            }
        }
        r
    }
}

impl core::ops::BitOr for RuleBitset2 {
    type Output = Self;

    fn bitor(self, rhs: Self) -> (r: Self) {
        self.or_with(rhs)
    }
}

impl vstd::std_specs::ops::BitOrSpecImpl for RuleBitset2 {
    open spec fn obeys_bitor_spec() -> bool {
        true
    }

    open spec fn bitor_req(self, rhs: Self) -> bool {
        true
    }

    open spec fn bitor_spec(self, rhs: Self) -> Self {
        self.or(rhs)
    }
}

/// 2D cellular automaton rule.
#[derive(Debug, Clone, Copy, PartialEq, Eq, Structural)]
pub struct Rule2 {
    /// Birth rule, applied to dead cells to determine if they become alive.
    pub birth: RuleBitset2,
    /// Survive rule, applied to alive cells to determine if they remain alive.
    pub survive: RuleBitset2,
}

impl Rule2 {
    /// Whether a cell is alive in the next generation, from its state and the number of its
    /// alive neighbors: an alive cell survives where the survive rule applies to the count,
    /// a dead cell becomes alive where the birth rule does.
    pub open spec fn next_state(self, alive: bool, count: int) -> bool {
        if alive {
            self.survive.allows(count)
        } else {
            self.birth.allows(count)
        }
    }

    /// Create a CA rule from a pair of birth and survive rules.
    pub fn new(birth: RuleBitset2, survive: RuleBitset2) -> (rule: Self)
        ensures
            rule.birth == birth,
            rule.survive == survive,
    {
        Self { birth, survive }
    }

    /// The smoothing rule S4-8/B5-8/2/M.
    pub closed spec fn spec_smooth() -> Self {
        Rule2 { birth: RuleBitset2(0x1E0), survive: RuleBitset2(0x1F0) }
    }

    /// Smoothing rule S4-8/B5-8/2/M.
    pub fn smooth() -> (rule: Self)
        ensures
            rule == Self::spec_smooth(),
            rule.birth.bits() == 0x1E0,
            rule.survive.bits() == 0x1F0,
            rule.birth@ == Set::new(|n: int| 5 <= n <= 8),
            rule.survive@ == Set::new(|n: int| 4 <= n <= 8),
    {
        proof {
            lemma_smooth_bit16(0);
        }
        let rule = Rule2 {
            birth: RuleBitset2::from_bits(0x1E0u16),
            survive: RuleBitset2::from_bits(0x1F0u16),
        };
        proof {
            assert forall|n: int| #[trigger] rule.birth.allows(n) == (5 <= n <= 8) by {
                if 0 <= n < 9 {
                    lemma_smooth_bit16(n as u16);
                }
            }
            assert forall|n: int| #[trigger] rule.survive.allows(n) == (4 <= n <= 8) by {
                if 0 <= n < 9 {
                    lemma_smooth_bit16(n as u16);
                }
            }
            assert(rule.birth@ =~= Set::new(|n: int| 5 <= n <= 8));
            assert(rule.survive@ =~= Set::new(|n: int| 4 <= n <= 8));
        }
        rule
    }

    /// The smoothing rule is the rule of its two ranges of neighbor counts: every rule with
    /// that birth set and that survive set is the smoothing rule.
    pub proof fn lemma_smooth_is_its_ranges(rule: Self)
        requires
            rule.birth.wf(),
            rule.survive.wf(),
            rule.birth@ == Set::new(|n: int| 5 <= n <= 8),
            rule.survive@ == Set::new(|n: int| 4 <= n <= 8),
        ensures
            rule == Self::spec_smooth(),
            Self::spec_smooth().birth.bits() == 0x1E0,
            Self::spec_smooth().survive.bits() == 0x1F0,
    {
        let smooth = Self::spec_smooth();
        lemma_smooth_bit16(0);
        assert forall|n: int| 0 <= n < 9 implies rule.birth.allows(n) == smooth.birth.allows(
            n,
        ) by {
            lemma_smooth_bit16(n as u16);
            assert(rule.birth@.contains(n) == (5 <= n <= 8));
        }
        assert forall|n: int| 0 <= n < 9 implies rule.survive.allows(n)
            == smooth.survive.allows(n) by {
            lemma_smooth_bit16(n as u16);
            assert(rule.survive@.contains(n) == (4 <= n <= 8));
        }
        rule.birth.lemma_extensional(smooth.birth);
        rule.survive.lemma_extensional(smooth.survive);
    }

    /// Whether a cell is alive in the next generation, from its state and the number of its
    /// alive neighbors.
    pub fn next(&self, alive: bool, count: u8) -> (r: bool)
        ensures
            r == self.next_state(alive, count as int),
    {
        if alive {
            self.survive.applies(count)
        } else {
            self.birth.applies(count)
        }
    }
}

proof fn lemma_smooth_bit16(n: u16)
    by (bit_vector)
    requires
        n < 9,
    ensures
        0x1E0u16 & 0xFE00 == 0,
        0x1F0u16 & 0xFE00 == 0,
        (0x1E0u16 >> n) & 1 == 1 <==> (5 <= n <= 8),
        (0x1F0u16 >> n) & 1 == 1 <==> (4 <= n <= 8),
{
}

/// Bit `n` of `w`.
pub open spec fn bit32(w: u32, n: int) -> bool {
    (w >> n) & 1 == 1
}

proof fn lemma_bit32_ops(w: u32, v: u32, b: u32, c: u32)
    by (bit_vector)
    requires
        b < 32,
        c < 32,
    ensures
        (0u32 >> c) & 1 == 0,
        0u32 & 0xF800_0000 == 0,
        (w & (1u32 << b) != 0) <==> (w >> b) & 1 == 1,
        ((w | (1u32 << b)) >> c) & 1 == 1 <==> (c == b || (w >> c) & 1 == 1),
        ((w | v) >> c) & 1 == 1 <==> ((w >> c) & 1 == 1 || (v >> c) & 1 == 1),
        (b < 27 && w & 0xF800_0000 == 0) ==> (w | (1u32 << b)) & 0xF800_0000 == 0,
        (w & 0xF800_0000 == 0 && v & 0xF800_0000 == 0) ==> (w | v) & 0xF800_0000 == 0,
{
}

proof fn lemma_bit32_ext(w: u32, v: u32)
    by (bit_vector)
    requires
        w & 0xF800_0000 == 0,
        v & 0xF800_0000 == 0,
        ((w >> 0) & 1 == 1) == ((v >> 0) & 1 == 1),
        ((w >> 1) & 1 == 1) == ((v >> 1) & 1 == 1),
        ((w >> 2) & 1 == 1) == ((v >> 2) & 1 == 1),
        ((w >> 3) & 1 == 1) == ((v >> 3) & 1 == 1),
        ((w >> 4) & 1 == 1) == ((v >> 4) & 1 == 1),
        ((w >> 5) & 1 == 1) == ((v >> 5) & 1 == 1),
        ((w >> 6) & 1 == 1) == ((v >> 6) & 1 == 1),
        ((w >> 7) & 1 == 1) == ((v >> 7) & 1 == 1),
        ((w >> 8) & 1 == 1) == ((v >> 8) & 1 == 1),
        ((w >> 9) & 1 == 1) == ((v >> 9) & 1 == 1),
        ((w >> 10) & 1 == 1) == ((v >> 10) & 1 == 1),
        ((w >> 11) & 1 == 1) == ((v >> 11) & 1 == 1),
        ((w >> 12) & 1 == 1) == ((v >> 12) & 1 == 1),
        ((w >> 13) & 1 == 1) == ((v >> 13) & 1 == 1),
        ((w >> 14) & 1 == 1) == ((v >> 14) & 1 == 1),
        ((w >> 15) & 1 == 1) == ((v >> 15) & 1 == 1),
        ((w >> 16) & 1 == 1) == ((v >> 16) & 1 == 1),
        ((w >> 17) & 1 == 1) == ((v >> 17) & 1 == 1),
        ((w >> 18) & 1 == 1) == ((v >> 18) & 1 == 1),
        ((w >> 19) & 1 == 1) == ((v >> 19) & 1 == 1),
        ((w >> 20) & 1 == 1) == ((v >> 20) & 1 == 1),
        ((w >> 21) & 1 == 1) == ((v >> 21) & 1 == 1),
        ((w >> 22) & 1 == 1) == ((v >> 22) & 1 == 1),
        ((w >> 23) & 1 == 1) == ((v >> 23) & 1 == 1),
        ((w >> 24) & 1 == 1) == ((v >> 24) & 1 == 1),
        ((w >> 25) & 1 == 1) == ((v >> 25) & 1 == 1),
        ((w >> 26) & 1 == 1) == ((v >> 26) & 1 == 1),
    ensures
        w == v,
{
}

/// Bitset encoding a rule for a 3D cellular automaton.
///
/// Each bit represents whether the associated rule applies to a cell with the
/// corresponding number of neighbors. The first / lowest bit corresponds to 0
/// neighbor, the next bit to 1 neighbor, etc. until the maximum number of Moore
/// neighbors (26).
///
/// A bitset is made from a bit representation, from a half-open or a closed range of
/// neighbor counts, from an array of exactly 27 `bool`, from a slice of at most 27 `bool`,
/// or by combining two bitsets with `|`.
#[derive(Debug, Clone, Copy, PartialEq, Eq, Structural)]
pub struct RuleBitset3(u32);

impl View for RuleBitset3 {
    type V = Set<int>;

    /// The neighbor counts to which the rule applies.
    open spec fn view(&self) -> Set<int> {
        Set::new(|n: int| self.allows(n))
    }
}

impl RuleBitset3 {
    /// The bit representation.
    pub closed spec fn bits(self) -> u32 {
        self.0
    }

    /// Whether the rule applies to a cell with `n` neighbors.
    pub open spec fn allows(self, n: int) -> bool {
        0 <= n < 27 && bit32(self.bits(), n)
    }

    /// The top 5 bits, which stand for no neighbor count, are zero.
    #[verifier::type_invariant]
    pub open spec fn wf(self) -> bool {
        self.bits() & 0xF800_0000 == 0
    }

    /// Whether `array` holds, for every neighbor count, whether the rule applies to it.
    pub open spec fn is_array_of(self, array: [bool; 27]) -> bool {
        forall|n: int| 0 <= n < 27 ==> #[trigger] array[n] == self.allows(n)
    }

    /// The bitset that applies wherever `self` or `other` does.
    pub closed spec fn or(self, other: Self) -> Self {
        RuleBitset3(self.0 | other.0)
    }

    /// Bitsets that apply to the same neighbor counts are equal.
    pub proof fn lemma_extensional(self, other: Self)
        requires
            self.wf(),
            other.wf(),
            forall|n: int| 0 <= n < 27 ==> self.allows(n) == other.allows(n),
        ensures
            self == other,
    {
        assert(self.allows(0) == other.allows(0));
        assert(self.allows(1) == other.allows(1));
        assert(self.allows(2) == other.allows(2));
        assert(self.allows(3) == other.allows(3));
        assert(self.allows(4) == other.allows(4));
        assert(self.allows(5) == other.allows(5));
        assert(self.allows(6) == other.allows(6));
        assert(self.allows(7) == other.allows(7));
        assert(self.allows(8) == other.allows(8));
        assert(self.allows(9) == other.allows(9));
        assert(self.allows(10) == other.allows(10));
        assert(self.allows(11) == other.allows(11));
        assert(self.allows(12) == other.allows(12));
        assert(self.allows(13) == other.allows(13));
        assert(self.allows(14) == other.allows(14));
        assert(self.allows(15) == other.allows(15));
        assert(self.allows(16) == other.allows(16));
        assert(self.allows(17) == other.allows(17));
        assert(self.allows(18) == other.allows(18));
        assert(self.allows(19) == other.allows(19));
        assert(self.allows(20) == other.allows(20));
        assert(self.allows(21) == other.allows(21));
        assert(self.allows(22) == other.allows(22));
        assert(self.allows(23) == other.allows(23));
        assert(self.allows(24) == other.allows(24));
        assert(self.allows(25) == other.allows(25));
        assert(self.allows(26) == other.allows(26));
        lemma_bit32_ext(self.0, other.0);
    }

    /// OR'ing two bitsets gives the bitset of the neighbor counts of either.
    pub proof fn lemma_or(self, other: Self)
        requires
            self.wf(),
            other.wf(),
        ensures
            self.or(other).wf(),
            self.or(other).bits() == self.bits() | other.bits(),
            forall|n: int| #[trigger] self.or(other).allows(n) == (self.allows(n) || other.allows(n)),
            self.or(other)@ == self@.union(other@),
    {
        lemma_bit32_ops(self.0, other.0, 0, 0);
        assert forall|n: int| #[trigger]
            self.or(other).allows(n) == (self.allows(n) || other.allows(n)) by {
            if 0 <= n < 27 {
                lemma_bit32_ops(self.0, other.0, 0, n as u32);
            }
        }
        assert(self.or(other)@ =~= self@.union(other@));
    }

    /// The array of an OR of two bitsets is, entry by entry, the OR of their arrays.
    pub proof fn lemma_or_arrays(
        self,
        other: Self,
        mine: [bool; 27],
        theirs: [bool; 27],
        both: [bool; 27],
        i: int,
    )
        requires
            self.wf(),
            other.wf(),
            self.is_array_of(mine),
            other.is_array_of(theirs),
            self.or(other).is_array_of(both),
            0 <= i < 27,
        ensures
            both[i] == (mine[i] || theirs[i]),
    {
        self.lemma_or(other);
        assert(self.or(other).allows(i) == (self.allows(i) || other.allows(i)));
    }

    /// A bitset made from the array of a bitset is that bitset.
    pub proof fn lemma_array_round_trip(self, array: [bool; 27], back: Self)
        requires
            self.wf(),
            back.wf(),
            self.is_array_of(array),
            back.is_array_of(array),
        ensures
            back == self,
    {
        assert forall|n: int| 0 <= n < 27 implies back.allows(n) == self.allows(n) by {
            assert(array[n] == self.allows(n));
            assert(array[n] == back.allows(n));
        }
        back.lemma_extensional(self);
    }

    /// Whether a bit representation encodes a rule: its top 5 bits are zero.
    pub fn is_valid_bits(bits: u32) -> (valid: bool)
        ensures
            valid == (bits & 0xF800_0000 == 0),
    {
        bits & 0xF800_0000u32 == 0
    }

    /// Create a rule bitset from a bit representation whose top 5 bits are zero.
    pub fn from_bits(bits: u32) -> (r: Self)
        requires
            bits & 0xF800_0000 == 0,
        ensures
            r.bits() == bits,
            r.wf(),
    {
        Self(bits)
    }

    /// Create a rule bitset from any bit representation, or `None` where its top 5
    /// bits are not all zero.
    pub fn checked_from_bits(bits: u32) -> (r: Option<Self>)
        ensures
            r is Some <==> bits & 0xF800_0000 == 0,
            r matches Some(rule) ==> rule.bits() == bits && rule.wf(),
    {
        if Self::is_valid_bits(bits) {
            Some(Self(bits))
        } else {
            None
        }
    }

    /// Create a rule bitset by OR'ing two existing bit representations.
    pub fn or_with(self, other: Self) -> (r: Self)
        ensures
            r == self.or(other),
            r.wf(),
            r.bits() == self.bits() | other.bits(),
            r@ == self@.union(other@),
    {
        proof {
            use_type_invariant(self);
            use_type_invariant(other);
            self.lemma_or(other);
        }
        Self(self.0 | other.0)
    }

    /// Convert the rule to its bit representation.
    ///
    /// The returned `u32` always has its upper 5 bits set to zero. The lower 27
    /// bits represent whether the associated rule applies to a cell with 0 to
    /// 26 neighbors.
    pub fn to_bits(&self) -> (bits: u32)
        ensures
            bits == self.bits(),
            bits & 0xF800_0000 == 0,
    {
        proof {
            use_type_invariant(self);
        }
        self.0
    }

    /// Whether the rule applies to a cell with `count` neighbors.
    pub fn applies(&self, count: u8) -> (r: bool)
        ensures
            r == self.allows(count as int),
    {
        if count < 27 {
            proof {
                lemma_bit32_ops(self.0, 0, count as u32, 0);
            }
            self.0 & (1u32 << count) != 0
        } else {
            false
        }
    }

    /// Convert the rule to an array of `bool`s.
    ///
    /// The `bool` at index N corresponds to the N-th bit (from lowest to
    /// highest) in the bit representation. The bits represent whether the
    /// associated rule applies to a cell with 0 to 26 neighbors.
    pub fn to_array(&self) -> (array: [bool; 27])
        ensures
            self.is_array_of(array),
    {
        let mut array = [false; 27];
        let mut n: u8 = 0;
        while n < 27
            invariant
                n <= 27,
                forall|i: int| 0 <= i < n ==> #[trigger] array[i] == self.allows(i),
            decreases 27 - n,
        {
            array[n as usize] = self.applies(n);
            n = n + 1;
        }
        array
    }

    /// Create a rule bitset that applies to the neighbor counts from `start` up to, but
    /// without, `end`, where `end` is at most 27.
    pub fn from_range(start: u8, end: u8) -> (r: Self)
        requires
            end <= 27,
        ensures
            r.wf(),
            r@ == Set::new(|n: int| start <= n < end),
    {
        let mut bits: u32 = 0;
        let mut b: u8 = start;
        proof {
            lemma_bit32_ops(0, 0, 0, 0);
            assert forall|n: int| 0 <= n < 32 implies !#[trigger] bit32(bits, n) by {
                lemma_bit32_ops(0, 0, 0, n as u32);
            }
        }
        while b < end
            invariant
                end <= 27,
                start <= b,
                b <= end || b == start,
                bits & 0xF800_0000 == 0,
                forall|n: int| 0 <= n < 32 ==> #[trigger] bit32(bits, n) == (start <= n < b),
            decreases end - b,
        {
            proof {
                lemma_bit32_ops(bits, 0, b as u32, 0);
                assert forall|n: int| 0 <= n < 32 implies #[trigger] bit32(
                    bits | (1u32 << b),
                    n,
                ) == (start <= n < b + 1) by {
                    lemma_bit32_ops(bits, 0, b as u32, n as u32);
                    assert(bit32(bits, n) == (start <= n < b));
                }
            }
            bits = bits | (1u32 << b);
            b = b + 1;
        }
        let r = Self(bits);
        proof {
            assert(r@ =~= Set::new(|n: int| start <= n < end));
        }
        r
    }

    /// Create a rule bitset that applies to the neighbor counts from `start` up to and
    /// including `end`, where `end` is at most 26.
    pub fn from_range_inclusive(start: u8, end: u8) -> (r: Self)
        requires
            end <= 26,
        ensures
            r.wf(),
            r@ == Set::new(|n: int| start <= n <= end),
    {
        let r = Self::from_range(start, end + 1);
        proof {
            assert(r@ =~= Set::new(|n: int| start <= n <= end));
        }
        r
    }

    /// Create a rule bitset from a slice of at most 27 `bool`, one per neighbor count from 0
    /// on; the rule applies to none of the counts that the slice does not reach.
    pub fn from_slice(value: &[bool]) -> (r: Self)
        requires
            value@.len() <= 27,
        ensures
            r.wf(),
            forall|n: int| #[trigger] r.allows(n) == (0 <= n < value@.len() && value@[n]),
    {
        let mut bits: u32 = 0;
        let mut b: usize = 0;
        proof {
            lemma_bit32_ops(0, 0, 0, 0);
            assert forall|n: int| 0 <= n < 32 implies !#[trigger] bit32(bits, n) by {
                lemma_bit32_ops(0, 0, 0, n as u32);
            }
        }
        while b < value.len()
            invariant
                value@.len() <= 27,
                b <= value@.len(),
                bits & 0xF800_0000 == 0,
                forall|n: int| 0 <= n < 32 ==> #[trigger] bit32(bits, n) == (n < b && value@[n]),
            decreases value@.len() - b,
        {
            if value[b] {
                let shift = b as u8;
                proof {
                    lemma_bit32_ops(bits, 0, shift as u32, 0);
                    assert forall|n: int| 0 <= n < 32 implies #[trigger] bit32(
                        bits | (1u32 << shift),
                        n,
                    ) == (n < b + 1 && value@[n]) by {
                        lemma_bit32_ops(bits, 0, shift as u32, n as u32);
                        assert(bit32(bits, n) == (n < b && value@[n]));
                    }
                }
                bits = bits | (1u32 << shift);
            }
            b = b + 1;
        }
        Self(bits)
    }

    /// Create a rule bitset from an array of exactly 27 `bool`, one per neighbor count.
    pub fn from_array(value: [bool; 27]) -> (r: Self)
        ensures
            r.wf(),
            r.is_array_of(value),
    {
        let slice = value.as_slice();
        let r = Self::from_slice(slice);
        proof {
            assert forall|n: int| 0 <= n < 27 implies #[trigger] value[n] == r.allows(n) by {
                assert(r.allows(n) == (0 <= n < slice@.len() && slice@[n]));
            }
        }
        r
    }
}

impl core::ops::BitOr for RuleBitset3 {
    type Output = Self;

    fn bitor(self, rhs: Self) -> (r: Self) {
        self.or_with(rhs)
    }
}

impl vstd::std_specs::ops::BitOrSpecImpl for RuleBitset3 {
    open spec fn obeys_bitor_spec() -> bool {
        true
    }

    open spec fn bitor_req(self, rhs: Self) -> bool {
        true
    }

    open spec fn bitor_spec(self, rhs: Self) -> Self {
        self.or(rhs)
    }
}

/// 3D cellular automaton rule.
#[derive(Debug, Clone, Copy, PartialEq, Eq, Structural)]
pub struct Rule3 {
    /// Birth rule, applied to dead cells to determine if they become alive.
    pub birth: RuleBitset3,
    /// Survive rule, applied to alive cells to determine if they remain alive.
    pub survive: RuleBitset3,
}

impl Rule3 {
    /// Whether a cell is alive in the next generation, from its state and the number of its
    /// alive neighbors: an alive cell survives where the survive rule applies to the count,
    /// a dead cell becomes alive where the birth rule does.
    pub open spec fn next_state(self, alive: bool, count: int) -> bool {
        if alive {
            self.survive.allows(count)
        } else {
            self.birth.allows(count)
        }
    }

    /// Create a CA rule from a pair of birth and survive rules.
    pub fn new(birth: RuleBitset3, survive: RuleBitset3) -> (rule: Self)
        ensures
            rule.birth == birth,
            rule.survive == survive,
    {
        Self { birth, survive }
    }

    /// The smoothing rule S13-26/B13-14,17-19/2/M.
    pub closed spec fn spec_smooth() -> Self {
        Rule3 { birth: RuleBitset3(0xE_6000), survive: RuleBitset3(0x7FF_E000) }
    }

    /// Smoothing rule S13-26/B13-14,17-19/2/M.
    pub fn smooth() -> (rule: Self)
        ensures
            rule == Self::spec_smooth(),
            rule.birth.bits() == 0xE_6000,
            rule.survive.bits() == 0x7FF_E000,
            rule.birth@ == Set::new(|n: int| 13 <= n <= 14 || 17 <= n <= 19),
            rule.survive@ == Set::new(|n: int| 13 <= n <= 26),
    {
        proof {
            lemma_smooth_bit32(0);
        }
        let rule = Rule3 {
            birth: RuleBitset3::from_bits(0xE_6000u32),
            survive: RuleBitset3::from_bits(0x7FF_E000u32),
        };
        proof {
            assert forall|n: int| #[trigger] rule.birth.allows(n) == (13 <= n <= 14 || 17 <= n <= 19) by {
                if 0 <= n < 27 {
                    lemma_smooth_bit32(n as u32);
                }
            }
            assert forall|n: int| #[trigger] rule.survive.allows(n) == (13 <= n <= 26) by {
                if 0 <= n < 27 {
                    lemma_smooth_bit32(n as u32);
                }
            }
            assert(rule.birth@ =~= Set::new(|n: int| 13 <= n <= 14 || 17 <= n <= 19));
            assert(rule.survive@ =~= Set::new(|n: int| 13 <= n <= 26));
        }
        rule
    }

    /// The smoothing rule is the rule of its two ranges of neighbor counts: every rule with
    /// that birth set and that survive set is the smoothing rule.
    pub proof fn lemma_smooth_is_its_ranges(rule: Self)
        requires
            rule.birth.wf(),
            rule.survive.wf(),
            rule.birth@ == Set::new(|n: int| 13 <= n <= 14 || 17 <= n <= 19),
            rule.survive@ == Set::new(|n: int| 13 <= n <= 26),
        ensures
            rule == Self::spec_smooth(),
            Self::spec_smooth().birth.bits() == 0xE_6000,
            Self::spec_smooth().survive.bits() == 0x7FF_E000,
    {
        let smooth = Self::spec_smooth();
        lemma_smooth_bit32(0);
        assert forall|n: int| 0 <= n < 27 implies rule.birth.allows(n) == smooth.birth.allows(
            n,
        ) by {
            lemma_smooth_bit32(n as u32);
            assert(rule.birth@.contains(n) == (13 <= n <= 14 || 17 <= n <= 19));
        }
        assert forall|n: int| 0 <= n < 27 implies rule.survive.allows(n)
            == smooth.survive.allows(n) by {
            lemma_smooth_bit32(n as u32);
            assert(rule.survive@.contains(n) == (13 <= n <= 26));
        }
        rule.birth.lemma_extensional(smooth.birth);
        rule.survive.lemma_extensional(smooth.survive);
    }

    /// Whether a cell is alive in the next generation, from its state and the number of its
    /// alive neighbors.
    pub fn next(&self, alive: bool, count: u8) -> (r: bool)
        ensures
            r == self.next_state(alive, count as int),
    {
        if alive {
            self.survive.applies(count)
        } else {
            self.birth.applies(count)
        }
    }
}

proof fn lemma_smooth_bit32(n: u32)
    by (bit_vector)
    requires
        n < 27,
    ensures
        0xE_6000u32 & 0xF800_0000 == 0,
        0x7FF_E000u32 & 0xF800_0000 == 0,
        (0xE_6000u32 >> n) & 1 == 1 <==> (13 <= n <= 14 || 17 <= n <= 19),
        (0x7FF_E000u32 >> n) & 1 == 1 <==> (13 <= n <= 26),
{
}

} // verus!

//! A set of small integers (below 16) held as a bit mask.
use vstd::prelude::*;
use vstd::set_lib::{lemma_int_range, lemma_len_subset, lemma_set_subset_finite, set_int_range};
use vstd::string::StringExecFns;

verus! {

/// Whether bit `i` of `data` is set.
pub open spec fn bit_of(data: u16, i: u16) -> bool {
    (data >> i) & 1u16 == 1u16
}

/// The integers below 16 whose bit is set in `data`.
pub open spec fn bits_set(data: u16) -> Set<int> {
    Set::new(|i: int| 0 <= i < 16 && bit_of(data, i as u16))
}

/// The integers `lo..16` whose bit is set in `data`.
pub open spec fn bits_from(data: u16, lo: int) -> Set<int> {
    Set::new(|i: int| lo <= i < 16 && 0 <= i && bit_of(data, i as u16))
}

/// The integers `0..hi` whose bit is set in `data`.
pub open spec fn bits_below(data: u16, hi: int) -> Set<int> {
    Set::new(|i: int| 0 <= i < hi && i < 16 && bit_of(data, i as u16))
}

/// A set of integers drawn from `0..16`, one bit per member.
#[derive(Copy, Clone, PartialEq, Eq, Structural, Debug)]
pub struct BitSet {
    data: u16,
}

impl View for BitSet {
    type V = Set<int>;

    closed spec fn view(&self) -> Set<int> {
        bits_set(self.data)
    }
}

/// The bits of a union.
proof fn lemma_bit_or(a: u16, b: u16)
    by (bit_vector)
    ensures
        forall|i: u16| i < 16 ==> (#[trigger] bit_of(a | b, i) <==> (bit_of(a, i) || bit_of(b, i))),
{
}

/// The bits of an intersection.
proof fn lemma_bit_and(a: u16, b: u16)
    by (bit_vector)
    ensures
        forall|i: u16| i < 16 ==> (#[trigger] bit_of(a & b, i) <==> (bit_of(a, i) && bit_of(b, i))),
{
}

/// The bits of a single bit and of its complement.
proof fn lemma_bit_single(v: u16)
    by (bit_vector)
    requires
        v < 16,
    ensures
        forall|i: u16| i < 16 ==> (#[trigger] bit_of(1u16 << v, i) <==> i == v),
        forall|i: u16| i < 16 ==> (#[trigger] bit_of(!(1u16 << v), i) <==> i != v),
{
}

/// Zero has no bit set.
proof fn lemma_bit_zero()
    by (bit_vector)
    ensures
        forall|i: u16| i < 16 ==> !#[trigger] bit_of(0u16, i),
{
}

/// Two masks with the same bits below 16 are equal.
proof fn lemma_bits_determine(a: u16, b: u16)
    by (bit_vector)
    requires
        (bit_of(a, 0u16) <==> bit_of(b, 0u16)) &&
        (bit_of(a, 1u16) <==> bit_of(b, 1u16)) &&
        (bit_of(a, 2u16) <==> bit_of(b, 2u16)) &&
        (bit_of(a, 3u16) <==> bit_of(b, 3u16)) &&
        (bit_of(a, 4u16) <==> bit_of(b, 4u16)) &&
        (bit_of(a, 5u16) <==> bit_of(b, 5u16)) &&
        (bit_of(a, 6u16) <==> bit_of(b, 6u16)) &&
        (bit_of(a, 7u16) <==> bit_of(b, 7u16)) &&
        (bit_of(a, 8u16) <==> bit_of(b, 8u16)) &&
        (bit_of(a, 9u16) <==> bit_of(b, 9u16)) &&
        (bit_of(a, 10u16) <==> bit_of(b, 10u16)) &&
        (bit_of(a, 11u16) <==> bit_of(b, 11u16)) &&
        (bit_of(a, 12u16) <==> bit_of(b, 12u16)) &&
        (bit_of(a, 13u16) <==> bit_of(b, 13u16)) &&
        (bit_of(a, 14u16) <==> bit_of(b, 14u16)) &&
        (bit_of(a, 15u16) <==> bit_of(b, 15u16)),
    ensures
        a == b,
{
}

/// A nonzero mask that shares no bit with its predecessor has one bit set.
proof fn lemma_bit_power_of_two(d: u16, i: u16, j: u16)
    by (bit_vector)
    requires
        d != 0,
        d & ((d - 1) as u16) == 0,
        i < 16,
        j < 16,
        bit_of(d, i),
        bit_of(d, j),
    ensures
        i == j,
{
}

/// A single bit shares no bit with its predecessor.
proof fn lemma_single_bit_alone(v: u16)
    by (bit_vector)
    requires
        v < 16,
    ensures
        (1u16 << v) != 0,
        (1u16 << v) & (((1u16 << v) - 1) as u16) == 0,
{
}

/// Two sets with the same members are the same value.
pub proof fn lemma_view_injective(a: BitSet, b: BitSet)
    requires
        a@ == b@,
    ensures
        a == b,
{
    lemma_same_bits_equal(a.data, b.data);
}

/// Two masks with the same members are equal.
proof fn lemma_same_bits_equal(a: u16, b: u16)
    requires
        bits_set(a) == bits_set(b),
    ensures
        a == b,
{
    assert forall|i: u16| i < 16 implies (bit_of(a, i) <==> bit_of(b, i)) by {
        assert((i as int) as u16 == i);
        assert(bits_set(a).contains(i as int) <==> bit_of(a, i));
        assert(bits_set(b).contains(i as int) <==> bit_of(b, i));
        assert(bits_set(a).contains(i as int) == bits_set(b).contains(i as int));
    }
    lemma_bits_determine(a, b);
}

/// The member sets of a mask are finite.
proof fn lemma_bits_finite(data: u16)
    ensures
        bits_set(data).finite(),
        bits_set(data).len() <= 16,
        forall|lo: int| #[trigger] bits_from(data, lo).finite(),
        forall|hi: int| #[trigger] bits_below(data, hi).finite(),
{
    lemma_int_range(0, 16);
    assert(bits_set(data).subset_of(set_int_range(0, 16)));
    lemma_len_subset(bits_set(data), set_int_range(0, 16));
    assert forall|lo: int| #[trigger] bits_from(data, lo).finite() by {
        assert(bits_from(data, lo).subset_of(set_int_range(0, 16)));
        lemma_set_subset_finite(set_int_range(0, 16), bits_from(data, lo));
    }
    assert forall|hi: int| #[trigger] bits_below(data, hi).finite() by {
        assert(bits_below(data, hi).subset_of(set_int_range(0, 16)));
        lemma_set_subset_finite(set_int_range(0, 16), bits_below(data, hi));
    }
}

impl BitSet {
    /// The set holding exactly the bits of `data`.
    pub fn from_bits(data: u16) -> (r: BitSet)
        ensures
            r@ == bits_set(data),
    {
        BitSet { data }
    }

    /// The set holding the given values.
    pub fn new(values: &[usize]) -> (r: BitSet)
        requires
            forall|k: int| 0 <= k < values@.len() ==> values@[k] < 16,
        ensures
            forall|i: int| #[trigger] r@.contains(i) <==> exists|k: int|
                0 <= k < values@.len() && values@[k] == i,
    {
        let mut bs = BitSet { data: 0 };
        proof {
            lemma_bit_zero();
        }
        let mut n: usize = 0;
        while n < values.len()
            invariant
                n <= values@.len(),
                forall|k: int| 0 <= k < values@.len() ==> values@[k] < 16,
                forall|i: int| #[trigger] bs@.contains(i) <==> exists|k: int|
                    0 <= k < n && values@[k] == i,
            decreases values@.len() - n,
        {
            let v = values[n];
            let ghost prev = bs;
            bs = bs.set(v);
            assert forall|i: int| #[trigger] bs@.contains(i) <==> exists|k: int|
                0 <= k < n + 1 && values@[k] == i by {
                if i == v as int {
                    assert(values@[n as int] == i);
                } else if prev@.contains(i) {
                    let k = choose|k: int| 0 <= k < n && values@[k] == i;
                    assert(0 <= k < n + 1 && values@[k] == i);
                }
            }
            n = n + 1;
        }
        bs
    }

    /// Whether the set has no member.
    pub fn empty(&self) -> (r: bool)
        ensures
            r <==> self@ == Set::<int>::empty(),
    {
        proof {
            lemma_bit_zero();
            if self@ == Set::<int>::empty() {
                assert(bits_set(0u16) =~= Set::<int>::empty());
                lemma_same_bits_equal(self.data, 0u16);
            }
            if self.data == 0 {
                assert(self@ =~= Set::<int>::empty());
            }
        }
        self.data == 0
    }

    /// Whether `value` is a member.
    pub fn has(&self, value: usize) -> (r: bool)
        requires
            value < 16,
        ensures
            r == self@.contains(value as int),
    {
        let v = value as u16;
        let d = self.data;
        assert((d & (1u16 << v) != 0) == bit_of(d, v)) by (bit_vector)
            requires
                v < 16,
        ;
        d & (1u16 << v) != 0
    }

    /// The set with `value` added.
    pub fn set(&self, value: usize) -> (r: BitSet)
        requires
            value < 16,
        ensures
            r@ == self@.insert(value as int),
    {
        let v = value as u16;
        let r = BitSet { data: self.data | (1u16 << v) };
        proof {
            lemma_bit_or(self.data, 1u16 << v);
            lemma_bit_single(v);
            assert(r@ =~= self@.insert(value as int));
        }
        r
    }

    /// The set with `value` removed.
    pub fn unset(&self, value: usize) -> (r: BitSet)
        requires
            value < 16,
        ensures
            r@ == self@.remove(value as int),
    {
        let v = value as u16;
        let r = BitSet { data: self.data & !(1u16 << v) };
        proof {
            lemma_bit_and(self.data, !(1u16 << v));
            lemma_bit_single(v);
            assert(r@ =~= self@.remove(value as int));
        }
        r
    }

    /// The members common to both sets.
    pub closed spec fn spec_intersect(&self, other: BitSet) -> BitSet {
        BitSet { data: self.data & other.data }
    }

    /// The members of either set.
    pub closed spec fn spec_union(&self, other: BitSet) -> BitSet {
        BitSet { data: self.data | other.data }
    }

    /// The members common to both sets.
    #[verifier::when_used_as_spec(spec_intersect)]
    pub fn intersect(&self, other: BitSet) -> (r: BitSet)
        ensures
            r == self.intersect(other),
            r@ == self@.intersect(other@),
    {
        let r = BitSet { data: self.data & other.data };
        proof {
            lemma_bit_and(self.data, other.data);
            assert(r@ =~= self@.intersect(other@));
        }
        r
    }

    /// The members of either set.
    #[verifier::when_used_as_spec(spec_union)]
    pub fn union(&self, other: BitSet) -> (r: BitSet)
        ensures
            r == self.union(other),
            r@ == self@.union(other@),
    {
        let r = BitSet { data: self.data | other.data };
        proof {
            lemma_bit_or(self.data, other.data);
            assert(r@ =~= self@.union(other@));
        }
        r
    }

    /// The number of members.
    pub fn count(&self) -> (r: usize)
        ensures
            r == self@.len(),
            r <= 16,
    {
        let mut n: usize = 0;
        let mut i: u16 = 0;
        proof {
            lemma_bits_finite(self.data);
            assert(bits_below(self.data, 0) =~= Set::<int>::empty());
        }
        while i < 16
            invariant
                i <= 16,
                n == bits_below(self.data, i as int).len(),
                n <= i,
            decreases 16 - i,
        {
            proof {
                lemma_bits_finite(self.data);
            }
            let ghost before = bits_below(self.data, i as int);
            if (self.data >> i) & 1 == 1 {
                assert(bits_below(self.data, i + 1) =~= before.insert(i as int));
                n = n + 1;
            } else {
                assert(bits_below(self.data, i + 1) =~= before);
            }
            i = i + 1;
        }
        assert(bits_below(self.data, 16) =~= self@);
        n
    }

    /// The sole member, where there is exactly one.
    pub fn singleton(&self) -> (r: Option<usize>)
        ensures
            r matches Some(v) ==> self@ == set![v as int],
            r is None ==> self@.len() != 1,
            r is Some <==> self@.len() == 1,
    {
        proof {
            lemma_bits_finite(self.data);
        }
        if self.empty() {
            return None;
        }
        proof {
            if self.data == 0 {
                lemma_bit_zero();
                assert(self@ =~= Set::<int>::empty());
            }
        }
        if self.data & (self.data - 1) != 0 {
            proof {
                if self@.len() == 1 {
                    let x = self@.choose();
                    assert(self@.contains(x));
                    assert(self@.remove(x).len() == 0);
                    assert forall|i: int| self@.contains(i) implies i == x by {
                        if i != x {
                            assert(self@.remove(x).contains(i));
                        }
                    }
                    lemma_bit_single(x as u16);
                    assert(bits_set(1u16 << (x as u16)) =~= self@);
                    lemma_same_bits_equal(self.data, 1u16 << (x as u16));
                    lemma_single_bit_alone(x as u16);
                }
            }
            return None;
        }
        let t = self.data.trailing_zeros();
        proof {
            vstd::std_specs::bits::axiom_u16_trailing_zeros(self.data);
            assert(t < 16);
            assert(bit_of(self.data, t as u16));
            assert(self@ =~= set![t as int]) by {
                assert forall|i: int| self@.contains(i) implies i == t as int by {
                    lemma_bit_power_of_two(self.data, i as u16, t as u16);
                }
            }
        }
        Some(t as usize)
    }

    /// The members in increasing order.
    pub fn foreach(&self) -> (r: Biterator)
        ensures
            r.rest() == self@,
    {
        let r = Biterator { data: self.data, index: 0 };
        assert(r.rest() =~= self@);
        r
    }
}

/// What intersection and union do to the members.
pub proof fn lemma_intersect_union_view(a: BitSet, b: BitSet)
    ensures
        a.intersect(b)@ == a@.intersect(b@),
        a.union(b)@ == a@.union(b@),
{
    lemma_bit_and(a.data, b.data);
    lemma_bit_or(a.data, b.data);
    assert(a.intersect(b)@ =~= a@.intersect(b@));
    assert(a.union(b)@ =~= a@.union(b@));
}

/// Intersection and union do not depend on the order of their operands.
pub proof fn lemma_commutative(a: BitSet, b: BitSet)
    ensures
        a.intersect(b) == b.intersect(a),
        a.union(b) == b.union(a),
{
    lemma_intersect_union_view(a, b);
    lemma_intersect_union_view(b, a);
    assert(a.intersect(b)@ =~= b.intersect(a)@);
    assert(a.union(b)@ =~= b.union(a)@);
    lemma_view_injective(a.intersect(b), b.intersect(a));
    lemma_view_injective(a.union(b), b.union(a));
}

/// Intersection and union may be grouped either way.
pub proof fn lemma_associative(a: BitSet, b: BitSet, c: BitSet)
    ensures
        a.intersect(b).intersect(c) == a.intersect(b.intersect(c)),
        a.union(b).union(c) == a.union(b.union(c)),
{
    lemma_intersect_union_view(a, b);
    lemma_intersect_union_view(b, c);
    lemma_intersect_union_view(a.intersect(b), c);
    lemma_intersect_union_view(a, b.intersect(c));
    lemma_intersect_union_view(a.union(b), c);
    lemma_intersect_union_view(a, b.union(c));
    assert(a.intersect(b).intersect(c)@ =~= a.intersect(b.intersect(c))@);
    assert(a.union(b).union(c)@ =~= a.union(b.union(c))@);
    lemma_view_injective(a.intersect(b).intersect(c), a.intersect(b.intersect(c)));
    lemma_view_injective(a.union(b).union(c), a.union(b.union(c)));
}

/// Applying an intersection or a union again with the same operand changes
/// nothing, and a set intersected with itself is itself.
pub proof fn lemma_idempotent(a: BitSet, b: BitSet)
    ensures
        a.intersect(b).intersect(b) == a.intersect(b),
        a.union(b).union(b) == a.union(b),
        a.intersect(a) == a,
        a.union(a) == a,
{
    lemma_intersect_union_view(a, b);
    lemma_intersect_union_view(a.intersect(b), b);
    lemma_intersect_union_view(a.union(b), b);
    lemma_intersect_union_view(a, a);
    assert(a.intersect(b).intersect(b)@ =~= a.intersect(b)@);
    assert(a.union(b).union(b)@ =~= a.union(b)@);
    assert(a.intersect(a)@ =~= a@);
    assert(a.union(a)@ =~= a@);
    lemma_view_injective(a.intersect(b).intersect(b), a.intersect(b));
    lemma_view_injective(a.union(b).union(b), a.union(b));
    lemma_view_injective(a.intersect(a), a);
    lemma_view_injective(a.union(a), a);
}

/// A set has finitely many members, at most 16.
pub proof fn lemma_view_finite(a: BitSet)
    ensures
        a@.finite(),
        a@.len() <= 16,
{
    lemma_bits_finite(a.data);
}

/// The character of a decimal digit.
pub open spec fn digit_of(v: int) -> char {
    ('0' as int + v) as char
}

/// The decimal digits of a value below 100.
pub open spec fn decimal(v: int) -> Seq<char> {
    if v < 10 {
        seq![digit_of(v)]
    } else {
        seq![digit_of(v / 10), digit_of(v % 10)]
    }
}

/// The members of `s` below `hi`, in increasing order, in decimal and
/// separated by commas.
pub open spec fn members_text(s: Set<int>, hi: int) -> Seq<char>
    decreases hi,
{
    if hi <= 0 {
        Seq::empty()
    } else {
        let prev = members_text(s, hi - 1);
        if !s.contains(hi - 1) {
            prev
        } else if prev.len() == 0 {
            decimal(hi - 1)
        } else {
            prev + seq![','] + decimal(hi - 1)
        }
    }
}

/// A set written as its members in braces: `{}`, `{0,3}`.
pub open spec fn set_text(s: Set<int>) -> Seq<char> {
    seq!['{'] + members_text(s, 16) + seq!['}']
}

/// The text of one decimal digit.
fn digit_str(d: usize) -> (r: &'static str)
    requires
        d < 10,
    ensures
        r@ == seq![digit_of(d as int)],
{
    proof {
        reveal_strlit("0");
        reveal_strlit("1");
        reveal_strlit("2");
        reveal_strlit("3");
        reveal_strlit("4");
        reveal_strlit("5");
        reveal_strlit("6");
        reveal_strlit("7");
        reveal_strlit("8");
        reveal_strlit("9");
    }
    match d {
        0 => "0",
        1 => "1",
        2 => "2",
        3 => "3",
        4 => "4",
        5 => "5",
        6 => "6",
        7 => "7",
        8 => "8",
        _ => "9",
    }
}

impl BitSet {
    /// The set written as its members in braces, smallest first.
    pub fn to_text(&self) -> (r: String)
        ensures
            r@ == set_text(self@),
    {
        proof {
            reveal_strlit("{");
            reveal_strlit("}");
            reveal_strlit(",");
        }
        let mut out = String::new();
        out.append("{");
        let mut first = true;
        let mut i: usize = 0;
        assert(out@ =~= seq!['{'] + members_text(self@, 0));
        while i < 16
            invariant
                i <= 16,
                out@ == seq!['{'] + members_text(self@, i as int),
                first <==> members_text(self@, i as int).len() == 0,
            decreases 16 - i,
        {
            if self.has(i) {
                let ghost before = out@;
                let ghost prev = members_text(self@, i as int);
                assert(members_text(self@, i + 1) == if prev.len() == 0 {
                    decimal(i as int)
                } else {
                    prev + seq![','] + decimal(i as int)
                });
                if !first {
                    out.append(",");
                    proof {
                        reveal_strlit(",");
                    }
                    assert(","@ =~= seq![',']);
                    assert(out@ =~= seq!['{'] + prev + seq![',']);
                } else {
                    assert(out@ =~= seq!['{'] + prev);
                }
                let ghost mid = out@;
                if i >= 10 {
                    out.append(digit_str(1));
                    out.append(digit_str(i - 10));
                    assert(decimal(i as int) =~= seq![digit_of(1), digit_of(i - 10)]);
                    assert(out@ =~= mid + decimal(i as int));
                } else {
                    out.append(digit_str(i));
                    assert(out@ =~= mid + decimal(i as int));
                }
                first = false;
                assert(out@ =~= seq!['{'] + members_text(self@, i + 1));
            }
            i = i + 1;
        }
        out.append("}");
        out
    }
}

/// Hands out the members of a set, smallest first.
pub struct Biterator {
    data: u16,
    index: u16,
}

impl Biterator {
    /// The members not handed out yet.
    pub closed spec fn rest(&self) -> Set<int> {
        bits_from(self.data, self.index as int)
    }

    /// The smallest member not handed out yet, if any.
    pub fn next(&mut self) -> (r: Option<usize>)
        ensures
            old(self).rest().finite(),
            final(self).rest().finite(),
            r is None <==> old(self).rest() == Set::<int>::empty(),
            r is None ==> final(self).rest() == old(self).rest(),
            r matches Some(v) ==> {
                &&& old(self).rest().contains(v as int)
                &&& forall|w: int| #[trigger] old(self).rest().contains(w) ==> v <= w
                &&& final(self).rest() == old(self).rest().remove(v as int)
                &&& final(self).rest().len() + 1 == old(self).rest().len()
            },
    {
        proof {
            lemma_bits_finite(self.data);
            assert(old(self).rest().finite());
        }
        let ghost start = self.index;
        while self.index < 16
            invariant
                self.data == old(self).data,
                start == old(self).index,
                start <= self.index,
                forall|i: u16| start <= i < self.index ==> !#[trigger] bit_of(self.data, i),
            decreases 16 - self.index,
        {
            let i = self.index;
            self.index = self.index + 1;
            if (self.data >> i) & 1 == 1 {
                proof {
                    lemma_bits_finite(self.data);
                    assert forall|x: int| #[trigger] self.rest().contains(x)
                        <==> old(self).rest().remove(i as int).contains(x) by {
                        if start <= x < i {
                            assert(!bit_of(self.data, x as u16));
                        }
                    }
                    assert(self.rest() =~= old(self).rest().remove(i as int));
                    assert(self.rest().finite());
                }
                return Some(i as usize);
            }
        }
        assert(old(self).rest() =~= Set::<int>::empty());
        assert(self.rest() =~= Set::<int>::empty());
        None
    }
}

} // verus!

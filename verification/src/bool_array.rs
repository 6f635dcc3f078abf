//! Boolean arrays: the results of element-wise interval comparisons.

use vstd::prelude::*;
use crate::index::{norm_index, normalize_index};

verus! {

/// Number of `true` entries.
pub open spec fn count_true(s: Seq<bool>) -> nat
    decreases s.len(),
{
    if s.len() == 0 {
        0
    } else {
        count_true(s.drop_last()) + if s.last() {
            1nat
        } else {
            0nat
        }
    }
}

/// Why two boolean arrays cannot be combined.
#[derive(Debug, PartialEq, Eq, Structural)]
pub enum BoolArrayError {
    /// The arrays differ in length.
    LengthMismatch,
}

/// An element-wise logical operation.
#[derive(Clone, Copy, Debug, PartialEq, Eq, Structural)]
pub enum LogicOp {
    And,
    Or,
    Xor,
}

/// The value of a logical operation on two booleans.
pub open spec fn logic(op: LogicOp, a: bool, b: bool) -> bool {
    match op {
        LogicOp::And => a && b,
        LogicOp::Or => a || b,
        LogicOp::Xor => a != b,
    }
}

/// Element-wise negation of a sequence of booleans.
pub open spec fn negation(s: Seq<bool>) -> Seq<bool> {
    Seq::new(s.len(), |j: int| !s[j])
}

/// Element-wise logical operation on two sequences of booleans.
pub open spec fn combined(op: LogicOp, a: Seq<bool>, b: Seq<bool>) -> Seq<bool> {
    Seq::new(a.len(), |i: int| logic(op, a[i], b[i]))
}

/// A one-dimensional array of booleans (a mask).
pub struct BoolArray {
    values: Vec<bool>,
}

impl View for BoolArray {
    type V = Seq<bool>;

    closed spec fn view(&self) -> Seq<bool> {
        self.values@
    }
}

impl BoolArray {
    /// A boolean array holding `values`.
    pub fn new(values: Vec<bool>) -> (a: Self)
        ensures
            a@ == values@,
    {
        BoolArray { values }
    }

    /// The entries, as a vector.
    pub fn to_vec(&self) -> (v: Vec<bool>)
        ensures
            v@ == self@,
    {
        let mut v: Vec<bool> = Vec::new();
        for i in 0..self.values.len()
            invariant
                v.len() == i,
                forall|t: int| 0 <= t < i ==> #[trigger] v@[t] == self@[t],
        {
            v.push(self.values[i]);
        }
        assert(v@ =~= self@);
        v
    }

    /// Number of entries.
    pub fn len(&self) -> (n: usize)
        ensures
            n == self@.len(),
    {
        self.values.len()
    }

    /// Position designated by a possibly negative index, or `None` when it
    /// falls outside the array.
    pub fn index_range(&self, idx: isize) -> (r: Option<usize>)
        requires
            self@.len() <= isize::MAX,
        ensures
            r is Some <==> 0 <= norm_index(idx, self@.len() as int) < self@.len(),
            r matches Some(k) ==> k == norm_index(idx, self@.len() as int),
    {
        normalize_index(idx, self.values.len())
    }

    /// Entry at a possibly negative index, or `None` when it falls outside
    /// the array.
    pub fn get(&self, idx: isize) -> (r: Option<bool>)
        requires
            self@.len() <= isize::MAX,
        ensures
            r is Some <==> 0 <= norm_index(idx, self@.len() as int) < self@.len(),
            r matches Some(b) ==> b == self@[norm_index(idx, self@.len() as int)],
    {
        match self.index_range(idx) {
            Some(k) => Some(self.values[k]),
            None => None,
        }
    }

    /// The entries at the given positions, in order.
    pub fn select(&self, positions: &[usize]) -> (a: BoolArray)
        requires
            forall|t: int| 0 <= t < positions.len() ==> #[trigger] positions@[t] < self@.len(),
        ensures
            a@ == positions@.map_values(|p: usize| self@[p as int]),
    {
        let mut v: Vec<bool> = Vec::new();
        for i in 0..positions.len()
            invariant
                forall|t: int| 0 <= t < positions.len() ==> #[trigger] positions@[t] < self@.len(),
                v.len() == i,
                forall|t: int| 0 <= t < i ==> #[trigger] v@[t] == self@[positions@[t] as int],
        {
            v.push(self.values[positions[i]]);
        }
        assert(v@ =~= positions@.map_values(|p: usize| self@[p as int]));
        BoolArray { values: v }
    }

    /// The truth value of a one-element array; `None` for any other length.
    pub fn truth(&self) -> (r: Option<bool>)
        ensures
            r is Some <==> self@.len() == 1,
            r matches Some(b) ==> b == self@[0],
    {
        if self.values.len() == 1 {
            Some(self.values[0])
        } else {
            None
        }
    }

    /// Element-wise logical operation with another array of the same length.
    pub fn combine(&self, other: &BoolArray, op: LogicOp) -> (r: Result<BoolArray, BoolArrayError>)
        ensures
            r is Err <==> self@.len() != other@.len(),
            r matches Ok(a) ==> a@ == combined(op, self@, other@),
    {
        if self.values.len() != other.values.len() {
            return Err(BoolArrayError::LengthMismatch);
        }
        let mut v: Vec<bool> = Vec::new();
        for i in 0..self.values.len()
            invariant
                self@.len() == other@.len(),
                v.len() == i,
                forall|t: int| 0 <= t < i ==> #[trigger] v@[t] == logic(op, self@[t], other@[t]),
        {
            let a = self.values[i];
            let b = other.values[i];
            let x = match op {
                LogicOp::And => a && b,
                LogicOp::Or => a || b,
                LogicOp::Xor => a != b,
            };
            v.push(x);
        }
        assert(v@ =~= combined(op, self@, other@));
        Ok(BoolArray { values: v })
    }

    /// Element-wise logical operation with a single boolean.
    pub fn combine_scalar(&self, b: bool, op: LogicOp) -> (a: BoolArray)
        ensures
            a@ == Seq::new(self@.len(), |i: int| logic(op, self@[i], b)),
    {
        let mut v: Vec<bool> = Vec::new();
        for i in 0..self.values.len()
            invariant
                v.len() == i,
                forall|t: int| 0 <= t < i ==> #[trigger] v@[t] == logic(op, self@[t], b),
        {
            let a = self.values[i];
            let x = match op {
                LogicOp::And => a && b,
                LogicOp::Or => a || b,
                LogicOp::Xor => a != b,
            };
            v.push(x);
        }
        assert(v@ =~= Seq::new(self@.len(), |i: int| logic(op, self@[i], b)));
        BoolArray { values: v }
    }

    /// Element-wise negation.
    pub fn invert(&self) -> (a: BoolArray)
        ensures
            a@ == negation(self@),
    {
        let mut v: Vec<bool> = Vec::new();
        for i in 0..self.values.len()
            invariant
                v.len() == i,
                forall|t: int| 0 <= t < i ==> #[trigger] v@[t] == !self@[t],
        {
            v.push(!self.values[i]);
        }
        assert(v@ =~= negation(self@));
        BoolArray { values: v }
    }

    /// Whether some entry is true.
    pub fn any(&self) -> (b: bool)
        ensures
            b == exists|i: int| 0 <= i < self@.len() && #[trigger] self@[i],
    {
        for i in 0..self.values.len()
            invariant
                forall|t: int| 0 <= t < i ==> !#[trigger] self@[t],
        {
            if self.values[i] {
                assert(self@[i as int]);
                return true;
            }
        }
        false
    }

    /// Whether every entry is true.
    pub fn all(&self) -> (b: bool)
        ensures
            b == forall|i: int| 0 <= i < self@.len() ==> #[trigger] self@[i],
    {
        for i in 0..self.values.len()
            invariant
                forall|t: int| 0 <= t < i ==> #[trigger] self@[t],
        {
            if !self.values[i] {
                assert(!self@[i as int]);
                return false;
            }
        }
        true
    }

    /// Number of true entries.
    pub fn count_nonzero(&self) -> (n: usize)
        ensures
            n == count_true(self@),
    {
        let mut n: usize = 0;
        proof {
            assert(self@.take(0) =~= Seq::<bool>::empty());
        }
        for i in 0..self.values.len()
            invariant
                n == count_true(self@.take(i as int)),
                n <= i,
        {
            proof {
                assert(self@.take(i + 1).drop_last() =~= self@.take(i as int));
            }
            if self.values[i] {
                n = n + 1;
            }
        }
        proof {
            assert(self@.take(self@.len() as int) =~= self@);
        }
        n
    }

    /// Whether `other` has the same length and the same entries.
    pub fn equals(&self, other: &BoolArray) -> (b: bool)
        ensures
            b == (self@ == other@),
    {
        if self.values.len() != other.values.len() {
            return false;
        }
        for i in 0..self.values.len()
            invariant
                self@.len() == other@.len(),
                forall|t: int| 0 <= t < i ==> #[trigger] self@[t] == other@[t],
        {
            if self.values[i] != other.values[i] {
                return false;
            }
        }
        assert(self@ =~= other@);
        true
    }

    /// Whether the array is the single entry `b`.
    pub fn equals_scalar(&self, b: bool) -> (r: bool)
        ensures
            r == (self@ == seq![b]),
    {
        if self.values.len() != 1 {
            return false;
        }
        let r = self.values[0] == b;
        assert(r ==> self@ =~= seq![b]);
        r
    }
}

/// Negating twice gives the array back.
pub proof fn lemma_invert_involution(s: Seq<bool>)
    ensures
        negation(negation(s)) == s,
{
    assert(negation(negation(s)) =~= s);
}

/// Every entry is true exactly when no entry of the negation is true.
pub proof fn lemma_all_not_any_inverse(s: Seq<bool>)
    ensures
        (forall|i: int| 0 <= i < s.len() ==> #[trigger] s[i]) == !(exists|i: int|
            0 <= i < s.len() && #[trigger] negation(s)[i]),
{
    let inv = negation(s);
    if forall|i: int| 0 <= i < s.len() ==> #[trigger] s[i] {
        assert forall|i: int| 0 <= i < s.len() implies !#[trigger] inv[i] by {
            assert(s[i]);
        }
    } else {
        let i = choose|i: int| 0 <= i < s.len() && !s[i];
        assert(inv[i]);
    }
}

/// The true entries of an array and those of its negation together are all
/// of its entries.
pub proof fn lemma_count_true_complement(s: Seq<bool>)
    ensures
        count_true(s) + count_true(negation(s)) == s.len(),
    decreases s.len(),
{
    let inv = negation(s);
    if s.len() > 0 {
        lemma_count_true_complement(s.drop_last());
        assert(inv.drop_last() =~= negation(s.drop_last()));
    }
}

/// Element-wise `and`, `or` and `xor` do not depend on the order of their
/// operands.
pub proof fn lemma_logic_commutative(op: LogicOp, a: Seq<bool>, b: Seq<bool>)
    requires
        a.len() == b.len(),
    ensures
        combined(op, a, b) == combined(op, b, a),
{
    assert(combined(op, a, b) =~= combined(op, b, a));
}

/// An array combined with itself by `xor` is all false.
pub proof fn lemma_xor_self_false(a: Seq<bool>)
    ensures
        forall|i: int| 0 <= i < a.len() ==> !#[trigger] combined(LogicOp::Xor, a, a)[i],
{
}

} // verus!

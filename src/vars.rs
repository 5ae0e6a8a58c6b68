//! A growable set of variable indices, stored as a bit vector.
use vstd::prelude::*;
use bit_vec::BitVec;

verus! {

#[verifier::external_type_specification]
#[verifier::external_body]
#[verifier::reject_recursive_types(B)]
pub struct ExBitVec<B>(BitVec<B>);

/// The bits held by a bit vector, in order.
pub uninterp spec fn bits_of(v: BitVec) -> Seq<bool>;

/// Relies on `BitVec::new`: the new vector holds no bits.
#[verifier::external_body]
fn bits_new() -> (r: BitVec)
    ensures
        bits_of(r) == Seq::<bool>::empty(),
{
    BitVec::new()
}

/// Relies on `BitVec::len`: the number of bits held.
#[verifier::external_body]
fn bits_len(v: &BitVec) -> (r: usize)
    ensures
        r == bits_of(*v).len(),
{
    v.len()
}

/// Relies on `BitVec::grow`: appends `n` copies of `value`; it panics only when
/// the new length overflows.
#[verifier::external_body]
fn bits_grow(v: &mut BitVec, n: usize, value: bool)
    requires
        bits_of(*old(v)).len() + n <= usize::MAX,
    ensures
        bits_of(*final(v)) == bits_of(*old(v)) + Seq::new(n as nat, |_i: int| value),
{
    v.grow(n, value)
}

/// Relies on `BitVec::set`: replaces the bit at `i`, which must be in bounds.
#[verifier::external_body]
fn bits_set(v: &mut BitVec, i: usize, x: bool)
    requires
        i < bits_of(*old(v)).len(),
    ensures
        bits_of(*final(v)) == bits_of(*old(v)).update(i as int, x),
{
    v.set(i, x)
}

/// Relies on `BitVec::get`: the bit at `i`, or `None` past the end.
#[verifier::external_body]
fn bits_get(v: &BitVec, i: usize) -> (r: Option<bool>)
    ensures
        i < bits_of(*v).len() ==> r == Some(bits_of(*v)[i as int]),
        i >= bits_of(*v).len() ==> r.is_none(),
{
    v.get(i)
}

/// Relies on `BitVec::or`: the bitwise or of two vectors of equal length.
#[verifier::external_body]
fn bits_or(v: &mut BitVec, other: &BitVec)
    requires
        bits_of(*old(v)).len() == bits_of(*other).len(),
    ensures
        bits_of(*final(v)).len() == bits_of(*old(v)).len(),
        forall|i: int|
            0 <= i < bits_of(*old(v)).len() ==> #[trigger] bits_of(*final(v))[i] == (
            bits_of(*old(v))[i] || bits_of(*other)[i]),
{
    v.or(other);
}

/// Relies on `BitVec::clone`: a copy holding the same bits.
#[verifier::external_body]
fn bits_clone(v: &BitVec) -> (r: BitVec)
    ensures
        bits_of(r) == bits_of(*v),
{
    v.clone()
}

/// The set of variables that occur in a subexpression.
pub struct Vars {
    vars: BitVec,
}

impl View for Vars {
    type V = Seq<bool>;

    open spec fn view(&self) -> Seq<bool> {
        self.bits()
    }
}

impl Vars {
    pub closed spec fn bits(&self) -> Seq<bool> {
        bits_of(self.vars)
    }

    /// Whether variable `i` is in the set.
    pub open spec fn has(&self, i: int) -> bool {
        0 <= i < self@.len() && self@[i]
    }

    pub fn new() -> (r: Vars)
        ensures
            r@ == Seq::<bool>::empty(),
    {
        Vars { vars: bits_new() }
    }

    /// Extends the bit vector with cleared bits to at least `n` bits.
    fn grow_to(&mut self, n: usize)
        ensures
            final(self)@.len() == if old(self)@.len() < n {
                n as int
            } else {
                old(self)@.len() as int
            },
            forall|i: int| #[trigger] final(self).has(i) == old(self).has(i),
    {
        let m = bits_len(&self.vars);
        if m < n {
            bits_grow(&mut self.vars, n - m, false);
        }
        assert forall|i: int| #[trigger] self.has(i) == old(self).has(i) by {
            if 0 <= i < m {
                assert(self@[i] == old(self)@[i]);
            } else if m <= i < self@.len() {
                assert(self@[i] == false);
            }
        }
    }

    /// Adds to `self` every variable of `b`; both end with the same length.
    pub fn union(&mut self, b: &mut Vars)
        ensures
            final(self)@.len() == final(b)@.len(),
            forall|i: int| #[trigger] final(self).has(i) == (old(self).has(i) || old(b).has(i)),
            forall|i: int| #[trigger] final(b).has(i) == old(b).has(i),
    {
        let n = bits_len(&b.vars);
        self.grow_to(n);
        let m = bits_len(&self.vars);
        b.grow_to(m);
        let ghost gs = *self;
        bits_or(&mut self.vars, &b.vars);
        assert forall|i: int| #[trigger] self.has(i) == (old(self).has(i) || old(b).has(i)) by {
            assert(gs.has(i) == old(self).has(i));
            assert(b.has(i) == old(b).has(i));
            if 0 <= i < gs@.len() {
                assert(bits_of(self.vars)[i] == (bits_of(gs.vars)[i] || bits_of(b.vars)[i]));
            }
        }
    }

    pub fn add(&mut self, i: u32)
        requires
            i < u32::MAX,
        ensures
            forall|j: int| #[trigger] final(self).has(j) == (old(self).has(j) || j == i),
    {
        self.grow_to(i as usize + 1);
        let ghost gs = *self;
        bits_set(&mut self.vars, i as usize, true);
        assert forall|j: int| #[trigger] self.has(j) == (old(self).has(j) || j == i) by {
            assert(gs.has(j) == old(self).has(j));
            if 0 <= j < gs@.len() && j != i {
                assert(self@[j] == gs@[j]);
            }
        }
    }

    pub fn get(&self, i: u32) -> (r: bool)
        ensures
            r == self.has(i as int),
    {
        match bits_get(&self.vars, i as usize) {
            Some(b) => b,
            None => false,
        }
    }

    /// The number of bits held, which bounds every variable in the set.
    pub fn len(&self) -> (r: u32)
        requires
            self@.len() <= u32::MAX,
        ensures
            r == self@.len(),
    {
        bits_len(&self.vars) as u32
    }

    /// A copy holding the same bits.
    pub fn copy(&self) -> (r: Vars)
        ensures
            r@ == self@,
    {
        Vars { vars: bits_clone(&self.vars) }
    }

    /// Whether some variable at or above `n` is in the set.
    pub fn any_at_least(&self, n: usize) -> (r: bool)
        ensures
            r == exists|i: int| i >= n && #[trigger] self.has(i),
    {
        let len = bits_len(&self.vars);
        let mut i = n;
        while i < len
            invariant
                n <= i,
                len == self@.len(),
                forall|j: int| n <= j < i ==> !#[trigger] self.has(j),
            decreases len - i,
        {
            if let Some(true) = bits_get(&self.vars, i) {
                proof {
                    assert(self.has(i as int));
                }
                return true;
            }
            i = i + 1;
        }
        proof {
            assert forall|j: int| j >= n implies !#[trigger] self.has(j) by {
                if j >= len {
                    assert(!self.has(j));
                }
            }
        }
        false
    }
}

} // verus!

//! Names of values in single-assignment form and the generator that issues them.

use vstd::prelude::*;

verus! {

/// An opaque name of a value. Names are compared for identity only.
#[derive(Clone, Copy, Debug, PartialEq, Eq, Hash, Structural)]
pub struct SSAVariable(pub u64);

impl SSAVariable {
    /// The name that a node carries before any name was assigned to it.
    /// The generator never issues it.
    pub fn invalid() -> (v: SSAVariable)
        ensures
            v == SSAVariable(0),
    {
        SSAVariable(0)
    }
}

/// A monotonic counter that issues each name once.
pub struct SSAVariableGenerator {
    next: u64,
}

impl SSAVariableGenerator {
    /// The number that the next issued name will carry.
    pub closed spec fn upcoming(&self) -> nat {
        self.next as nat
    }

    /// Whether `v` is one of the names issued so far.
    pub open spec fn issued(&self, v: SSAVariable) -> bool {
        1 <= v.0 < self.upcoming()
    }

    /// The counter never leaves the range of `u64`.
    pub proof fn lemma_upcoming_bounded(&self)
        ensures
            self.upcoming() <= u64::MAX,
    {
    }

    /// A generator that has issued nothing.
    pub fn initial() -> (g: SSAVariableGenerator)
        ensures
            g.upcoming() == 1,
            forall|v: SSAVariable| !g.issued(v),
    {
        SSAVariableGenerator { next: 1 }
    }

    /// A generator whose first name is number `first`, for a tree in which
    /// the names below `first` are taken.
    pub fn starting_at(first: u64) -> (g: SSAVariableGenerator)
        requires
            first >= 1,
        ensures
            g.upcoming() == first,
    {
        SSAVariableGenerator { next: first }
    }

    /// Issues a name that was never issued before, or `None` once the
    /// counter has run through all of `u64`.
    pub fn next(&mut self) -> (r: Option<SSAVariable>)
        ensures
            1 <= old(self).upcoming() <= u64::MAX ==> 1 <= final(self).upcoming() <= u64::MAX,
            match r {
                Some(v) => {
                    &&& old(self).upcoming() < u64::MAX
                    &&& v.0 == old(self).upcoming()
                    &&& final(self).upcoming() == old(self).upcoming() + 1
                    &&& (old(self).upcoming() >= 1 ==> !old(self).issued(v) && final(self).issued(v))
                    &&& forall|w: SSAVariable| old(self).issued(w) ==> final(self).issued(w)
                },
                None => old(self).upcoming() == u64::MAX && *final(self) == *old(self),
            },
    {
        if self.next == u64::MAX {
            None
        } else {
            let v = SSAVariable(self.next);
            self.next = self.next + 1;
            Some(v)
        }
    }
}

} // verus!

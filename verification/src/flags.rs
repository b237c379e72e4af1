//! Vectors of flags, and the count of those not yet set that makes work
//! lists end.

use vstd::prelude::*;
use crate::lir::Value;

verus! {

/// How many of the flags are not set.
pub open spec fn count_false(flags: Seq<bool>) -> nat
    decreases flags.len(),
{
    if flags.len() == 0 {
        0
    } else {
        count_false(flags.drop_last()) + if flags.last() {
            0nat
        } else {
            1nat
        }
    }
}

/// Setting a flag that was not set leaves one flag less to set.
pub proof fn lemma_count_false_update(flags: Seq<bool>, i: int)
    requires
        0 <= i < flags.len(),
        !flags[i],
    ensures
        count_false(flags.update(i, true)) + 1 == count_false(flags),
    decreases flags.len(),
{
    if i == flags.len() - 1 {
        assert(flags.update(i, true).drop_last() =~= flags.drop_last());
    } else {
        lemma_count_false_update(flags.drop_last(), i);
        assert(flags.update(i, true).drop_last() =~= flags.drop_last().update(i, true));
    }
}

/// `n` flags, none set.
pub fn new_flags(n: usize) -> (r: Vec<bool>)
    ensures
        r@ == Seq::new(n as nat, |i: int| false),
{
    let mut v: Vec<bool> = Vec::new();
    let mut i: usize = 0;
    while i < n
        invariant
            i <= n,
            v@ == Seq::new(i as nat, |k: int| false),
        decreases n - i,
    {
        v.push(false);
        assert(v@ =~= Seq::new((i + 1) as nat, |k: int| false));
        i = i + 1;
    }
    v
}

/// Whether `x` is among `vals`.
pub fn contains_value(vals: &Vec<Value>, x: Value) -> (r: bool)
    ensures
        r == vals@.contains(x),
{
    let mut i: usize = 0;
    while i < vals.len()
        invariant
            i <= vals.len(),
            forall|k: int| 0 <= k < i ==> vals@[k] != x,
        decreases vals.len() - i,
    {
        if vals[i] == x {
            return true;
        }
        i = i + 1;
    }
    false
}

} // verus!

//! Live values of a function of the low-level representation.
//!
//! A value is live before an operation if the operation uses it, or if the
//! operation does not define it and it is live after the operation: on the
//! fall-through edge, or at the target of one of its branches without being
//! an argument of the target. A value is live at the entry of an EBB if it
//! is live before the first operation. The live values are the least sets
//! that obey these rules.

use vstd::prelude::*;
use crate::lir::{Ebb, EbbCall, Function, FunctionModel, Op, Value};
use crate::flags::{count_false, lemma_count_false_update, new_flags, contains_value};

verus! {

/// For every operation the values live on its fall-through edge, and for
/// every EBB the values live at its entry. Each set is a list without
/// repetition, in ascending order of the handles.
pub struct LiveValues {
    pub flow_live: Vec<Vec<Value>>,
    pub ebb_live: Vec<Vec<Value>>,
}

/// The mathematical value of [`LiveValues`].
pub struct LiveModel {
    pub flow_live: Seq<Seq<Value>>,
    pub ebb_live: Seq<Seq<Value>>,
}

impl View for LiveValues {
    type V = LiveModel;

    open spec fn view(&self) -> LiveModel {
        LiveModel {
            flow_live: Seq::new(self.flow_live@.len(), |i: int| self.flow_live@[i]@),
            ebb_live: Seq::new(self.ebb_live@.len(), |i: int| self.ebb_live@[i]@),
        }
    }
}

/// Live values as sets: for every operation those on its fall-through edge,
/// for every EBB those at its entry.
pub struct LiveSets {
    pub flow: Seq<Set<Value>>,
    pub ebb: Seq<Set<Value>>,
}

/// Whether the EBB call `c` passes `v`.
pub open spec fn passes(f: FunctionModel, c: EbbCall, v: Value) -> bool {
    f.calls[c.0 as int].args.contains(v)
}

/// Whether `v` is a value of `f` that liveness is about. Constants are not
/// counted; they are at hand everywhere.
pub open spec fn is_variable(f: FunctionModel, v: Value) -> bool {
    f.has_value(v) && !(f.values[v.0 as int] is Constant)
}

/// Whether the operation `o` reads `v`.
pub open spec fn is_use(f: FunctionModel, o: Op, v: Value) -> bool {
    is_variable(f, v) && f.ops[o.0 as int].reads.contains(v)
}

/// Whether the operation `o` defines `v`.
pub open spec fn is_def(f: FunctionModel, o: Op, v: Value) -> bool {
    f.ops[o.0 as int].writes.contains(v)
}

/// Whether `v` is live on the edge of the EBB call `c`: the call passes it,
/// or it is live at the entry of the target and is no argument of the
/// target. The arguments get their values from the call.
pub open spec fn target_live(f: FunctionModel, l: LiveSets, c: EbbCall, v: Value) -> bool {
    let t = f.calls[c.0 as int].target;
    ||| is_variable(f, v) && passes(f, c, v)
    ||| t.0 < l.ebb.len() && l.ebb[t.0 as int].contains(v) && !f.ebbs[t.0 as int].args.contains(v)
}

/// Whether `v` is live at the target of a branch of `o`.
pub open spec fn branch_live(f: FunctionModel, l: LiveSets, o: Op, v: Value) -> bool {
    exists|i: int|
        0 <= i < f.ops[o.0 as int].branches.len() && target_live(
            f,
            l,
            #[trigger] f.ops[o.0 as int].branches[i],
            v,
        )
}

/// Whether `v` is live before the operation `o`: the operation reads it,
/// or does not define it and it is live after the operation. What a branch
/// passes is used after the operation has written its results.
pub open spec fn live_before(f: FunctionModel, l: LiveSets, o: Op, v: Value) -> bool {
    is_use(f, o, v) || (!is_def(f, o, v) && ((o.0 < l.flow.len() && l.flow[o.0 as int].contains(v))
        || branch_live(f, l, o, v)))
}

/// The rule for the fall-through edge of `o`: what is live before the next
/// operation.
pub open spec fn flow_rule(f: FunctionModel, l: LiveSets, o: Op, v: Value) -> bool {
    match f.op_after(o) {
        Some(n) => live_before(f, l, n, v),
        None => false,
    }
}

/// The rule for the entry of `e`: what is live before the first operation.
/// The arguments of `e` are among these where they are used.
pub open spec fn ebb_rule(f: FunctionModel, l: LiveSets, e: Ebb, v: Value) -> bool {
    match f.ebb_first_op(e) {
        Some(o) => live_before(f, l, o, v),
        None => false,
    }
}

/// Whether the sets hold exactly what the rules ask for.
pub open spec fn is_solution(f: FunctionModel, l: LiveSets) -> bool {
    &&& l.flow.len() == f.ops.len()
    &&& l.ebb.len() == f.ebbs.len()
    &&& forall|o: int, v: Value|
        0 <= o < f.ops.len() ==> (#[trigger] l.flow[o].contains(v) <==> flow_rule(
            f,
            l,
            Op(o as usize),
            v,
        ))
    &&& forall|e: int, v: Value|
        0 <= e < f.ebbs.len() ==> (#[trigger] l.ebb[e].contains(v) <==> ebb_rule(
            f,
            l,
            Ebb(e as usize),
            v,
        ))
}

/// Whether every set of `a` is part of the set of `b` at the same place.
pub open spec fn below(a: LiveSets, b: LiveSets) -> bool {
    &&& a.flow.len() == b.flow.len()
    &&& a.ebb.len() == b.ebb.len()
    &&& forall|o: int, v: Value|
        0 <= o < a.flow.len() && #[trigger] a.flow[o].contains(v) ==> b.flow[o].contains(v)
    &&& forall|e: int, v: Value|
        0 <= e < a.ebb.len() && #[trigger] a.ebb[e].contains(v) ==> b.ebb[e].contains(v)
}

/// Whether the sets are below every solution of the rules.
pub open spec fn under_all(f: FunctionModel, l: LiveSets) -> bool {
    forall|l2: LiveSets| #[trigger] is_solution(f, l2) ==> below(l, l2)
}

/// Whether the sets are the least solution of the rules.
pub open spec fn is_least(f: FunctionModel, l: LiveSets) -> bool {
    is_solution(f, l) && under_all(f, l)
}

/// Whether the handles of the list ascend.
pub open spec fn ascending(s: Seq<Value>) -> bool {
    forall|i: int, j: int| 0 <= i < j < s.len() ==> s[i].0 < s[j].0
}

impl LiveModel {
    /// The lists as sets.
    pub open spec fn sets(self) -> LiveSets {
        LiveSets {
            flow: Seq::new(self.flow_live.len(), |i: int| self.flow_live[i].to_set()),
            ebb: Seq::new(self.ebb_live.len(), |i: int| self.ebb_live[i].to_set()),
        }
    }

    /// Whether these are the live values of `f`: the least sets that obey
    /// the rules, each in ascending order of the handles.
    pub open spec fn is_liveness_of(self, f: FunctionModel) -> bool {
        &&& is_least(f, self.sets())
        &&& forall|i: int| 0 <= i < self.flow_live.len() ==> ascending(#[trigger] self.flow_live[i])
        &&& forall|i: int| 0 <= i < self.ebb_live.len() ==> ascending(#[trigger] self.ebb_live[i])
    }
}

/// The live values of `f`. Where `f` has live values, it has these and no
/// others.
pub open spec fn liveness(f: FunctionModel) -> LiveModel {
    choose|l: LiveModel| l.is_liveness_of(f)
}

/// The size of the table of flags: a row of `nv` flags for each of `no`
/// operations and then each of `ne` EBBs.
pub struct Dims {
    pub no: usize,
    pub ne: usize,
    pub nv: usize,
}

impl Dims {
    /// Whether the table is that of `f` and a machine word can count its
    /// entries.
    pub open spec fn of(self, f: FunctionModel) -> bool {
        &&& self.no == f.ops.len()
        &&& self.ne == f.ebbs.len()
        &&& self.nv == f.values.len()
        &&& self.no + self.ne <= usize::MAX
        &&& (self.no + self.ne) * self.nv <= usize::MAX
    }

    /// The number of rows.
    pub open spec fn rows(self) -> int {
        self.no + self.ne
    }

    /// The flag of the value numbered `v` in row `x`.
    pub open spec fn bit(self, bits: Seq<bool>, x: int, v: int) -> bool {
        0 <= v < self.nv && bits[x * self.nv + v]
    }

    /// The sets that the flags stand for.
    pub open spec fn sets(self, bits: Seq<bool>) -> LiveSets {
        LiveSets {
            flow: Seq::new(
                self.no as nat,
                |o: int| Set::new(|v: Value| self.bit(bits, o, v.0 as int)),
            ),
            ebb: Seq::new(
                self.ne as nat,
                |e: int| Set::new(|v: Value| self.bit(bits, self.no + e, v.0 as int)),
            ),
        }
    }

    /// The rule of row `x`.
    pub open spec fn rule(self, f: FunctionModel, l: LiveSets, x: int, v: Value) -> bool {
        if x < self.no {
            flow_rule(f, l, Op(x as usize), v)
        } else {
            ebb_rule(f, l, Ebb((x - self.no) as usize), v)
        }
    }

    /// Whether every flag that is set is asked for by the rules.
    pub open spec fn justified(self, f: FunctionModel, bits: Seq<bool>) -> bool {
        forall|x: int, v: int|
            0 <= x < self.rows() && #[trigger] self.bit(bits, x, v) ==> self.rule(
                f,
                self.sets(bits),
                x,
                Value(v as usize),
            )
    }

    /// The invariant of the search: the flags fit the function, every flag
    /// that is set is asked for by the rules, and the sets are below every
    /// solution.
    pub open spec fn state_ok(self, f: FunctionModel, bits: Seq<bool>) -> bool {
        &&& f.wf()
        &&& self.of(f)
        &&& bits.len() == self.rows() * self.nv
        &&& self.justified(f, bits)
        &&& under_all(f, self.sets(bits))
    }

    /// Whether row `x` holds all that its rule asks for.
    pub open spec fn row_done(self, f: FunctionModel, bits: Seq<bool>, x: int) -> bool {
        forall|v: int|
            0 <= v < self.nv && #[trigger] self.rule(f, self.sets(bits), x, Value(v as usize))
                ==> self.bit(bits, x, v)
    }
}

/// The place of a flag is within the table.
pub proof fn lemma_index(x: int, v: int, rows: int, nv: int)
    requires
        0 <= x < rows,
        0 <= v < nv,
    ensures
        0 <= x * nv + v < rows * nv,
{
    assert(0 <= x * nv && (x + 1) * nv <= rows * nv) by (nonlinear_arith)
        requires
            0 <= x < rows,
            0 <= nv,
    ;
    assert((x + 1) * nv == x * nv + nv) by (nonlinear_arith);
}

/// Two flags at the same place are the same flag.
pub proof fn lemma_index_injective(x1: int, v1: int, x2: int, v2: int, nv: int)
    requires
        0 <= x1,
        0 <= x2,
        0 <= v1 < nv,
        0 <= v2 < nv,
        x1 * nv + v1 == x2 * nv + v2,
    ensures
        x1 == x2,
        v1 == v2,
{
    if x1 < x2 {
        assert((x1 + 1) * nv <= x2 * nv) by (nonlinear_arith)
            requires
                x1 + 1 <= x2,
                0 <= nv,
        ;
        assert((x1 + 1) * nv == x1 * nv + nv) by (nonlinear_arith);
    } else if x2 < x1 {
        assert((x2 + 1) * nv <= x1 * nv) by (nonlinear_arith)
            requires
                x2 + 1 <= x1,
                0 <= nv,
        ;
        assert((x2 + 1) * nv == x2 * nv + nv) by (nonlinear_arith);
    }
}

/// The rules ask for more where more is live.
pub proof fn lemma_live_before_mono(f: FunctionModel, a: LiveSets, b: LiveSets, o: Op, v: Value)
    requires
        below(a, b),
        live_before(f, a, o, v),
    ensures
        live_before(f, b, o, v),
{
    if !is_use(f, o, v) {
        if o.0 < a.flow.len() && a.flow[o.0 as int].contains(v) {
        } else {
            let i = choose|i: int|
                0 <= i < f.ops[o.0 as int].branches.len() && target_live(
                    f,
                    a,
                    #[trigger] f.ops[o.0 as int].branches[i],
                    v,
                );
            let c = f.ops[o.0 as int].branches[i];
            let t = f.calls[c.0 as int].target;
            if !(is_variable(f, v) && passes(f, c, v)) {
                assert(a.ebb[t.0 as int].contains(v));
            }
            assert(target_live(f, b, f.ops[o.0 as int].branches[i], v));
        }
    }
}

/// The rule of a row asks for more where more is live.
pub proof fn lemma_rule_mono(d: Dims, f: FunctionModel, a: LiveSets, b: LiveSets, x: int, v: Value)
    requires
        below(a, b),
        d.rule(f, a, x, v),
    ensures
        d.rule(f, b, x, v),
{
    if x < d.no {
        lemma_live_before_mono(f, a, b, f.op_after(Op(x as usize))->0, v);
    } else {
        lemma_live_before_mono(f, a, b, f.ebb_first_op(Ebb((x - d.no) as usize))->0, v);
    }
}

/// The place of a flag in the table.
fn index(d: &Dims, x: usize, v: usize) -> (i: usize)
    requires
        x < d.rows(),
        v < d.nv,
        d.rows() * d.nv <= usize::MAX,
    ensures
        i == x * d.nv + v,
        i < d.rows() * d.nv,
{
    proof {
        lemma_index(x as int, v as int, d.rows(), d.nv as int);
        assert(0 <= x * d.nv) by (nonlinear_arith)
            requires
                0 <= x,
                0 <= d.nv,
        ;
    }
    x * d.nv + v
}

/// Whether the operation `o` reads `v`.
fn use_at(f: &Function, o: Op, v: Value) -> (r: bool)
    requires
        f@.has_op(o),
        f@.has_value(v),
    ensures
        r == is_use(f@, o, v),
{
    !f.value_is_constant(v) && contains_value(f.op_reads(o), v)
}

/// Whether the value numbered `v` is live before the operation `o`.
fn before(f: &Function, bits: &Vec<bool>, d: &Dims, o: Op, v: usize) -> (r: bool)
    requires
        f@.wf(),
        d.of(f@),
        bits@.len() == d.rows() * d.nv,
        f@.has_op(o),
        v < d.nv,
    ensures
        r == live_before(f@, d.sets(bits@), o, Value(v)),
{
    let ghost l = d.sets(bits@);
    if use_at(f, o, Value(v)) {
        return true;
    }
    if contains_value(f.op_writes(o), Value(v)) {
        return false;
    }
    if bits[index(d, o.0, v)] {
        assert(l.flow[o.0 as int].contains(Value(v)));
        return true;
    }
    assert(!l.flow[o.0 as int].contains(Value(v)));
    assert(f@.wf_op(o.0 as int));
    let branches = f.op_branches(o);
    let mut i: usize = 0;
    while i < branches.len()
        invariant
            i <= branches.len(),
            f@.wf(),
            d.of(f@),
            bits@.len() == d.rows() * d.nv,
            v < d.nv,
            l == d.sets(bits@),
            f@.has_op(o),
            !is_use(f@, o, Value(v)),
            !is_def(f@, o, Value(v)),
            !l.flow[o.0 as int].contains(Value(v)),
            branches@ == f@.ops[o.0 as int].branches,
            forall|k: int| 0 <= k < branches@.len() ==> f@.has_call(#[trigger] branches@[k]),
            forall|k: int| 0 <= k < i ==> !target_live(f@, l, #[trigger] branches@[k], Value(v)),
        decreases branches.len() - i,
    {
        assert(f@.wf_call(branches@[i as int].0 as int));
        if !f.value_is_constant(Value(v)) && contains_value(
            f.ebb_call_args(branches[i]),
            Value(v),
        ) {
            assert(target_live(f@, l, branches@[i as int], Value(v)));
            return true;
        }
        let target = f.ebb_call_target(branches[i]);
        if bits[index(d, d.no + target.0, v)] {
            assert(l.ebb[target.0 as int].contains(Value(v)));
            if !contains_value(f.ebb_args(target), Value(v)) {
                assert(target_live(f@, l, branches@[i as int], Value(v)));
                return true;
            }
        } else {
            assert(!l.ebb[target.0 as int].contains(Value(v)));
        }
        i = i + 1;
    }
    false
}

/// Sets the flag of the value numbered `v` in row `x`, which the rule of
/// the row asks for.
fn mark(f: &Function, bits: &mut Vec<bool>, d: &Dims, x: usize, v: usize)
    requires
        d.state_ok(f@, old(bits)@),
        x < d.rows(),
        v < d.nv,
        !d.bit(old(bits)@, x as int, v as int),
        d.rule(f@, d.sets(old(bits)@), x as int, Value(v)),
    ensures
        d.state_ok(f@, final(bits)@),
        final(bits)@ == old(bits)@.update(x * d.nv + v, true),
        count_false(final(bits)@) + 1 == count_false(old(bits)@),
        below(d.sets(old(bits)@), d.sets(final(bits)@)),
{
    let i = index(d, x, v);
    let ghost b0 = bits@;
    let ghost l0 = d.sets(b0);
    bits[i] = true;
    proof {
        let b1 = bits@;
        let l1 = d.sets(b1);
        lemma_count_false_update(b0, i as int);
        assert forall|x2: int, v2: int| 0 <= x2 < d.rows() && #[trigger] d.bit(b1, x2, v2) implies (
        d.bit(b0, x2, v2) || (x2 == x && v2 == v)) by {
            lemma_index(x2, v2, d.rows(), d.nv as int);
            if x2 * d.nv + v2 == i {
                lemma_index_injective(x2, v2, x as int, v as int, d.nv as int);
            }
        }
        assert forall|x2: int, v2: int| 0 <= x2 < d.rows() && #[trigger] d.bit(b0, x2, v2) implies d.bit(
            b1,
            x2,
            v2,
        ) by {
            lemma_index(x2, v2, d.rows(), d.nv as int);
        }
        assert(below(l0, l1)) by {
            assert forall|o: int, w: Value|
                0 <= o < l0.flow.len() && #[trigger] l0.flow[o].contains(w) implies l1.flow[o].contains(
                w,
            ) by {
                assert(d.bit(b0, o, w.0 as int));
            }
            assert forall|e: int, w: Value|
                0 <= e < l0.ebb.len() && #[trigger] l0.ebb[e].contains(w) implies l1.ebb[e].contains(
                w,
            ) by {
                assert(d.bit(b0, d.no + e, w.0 as int));
            }
        }
        assert forall|x2: int, v2: int| 0 <= x2 < d.rows() && #[trigger] d.bit(b1, x2, v2) implies d.rule(
            f@,
            l1,
            x2,
            Value(v2 as usize),
        ) by {
            if d.bit(b0, x2, v2) {
                lemma_rule_mono(*d, f@, l0, l1, x2, Value(v2 as usize));
            } else {
                lemma_rule_mono(*d, f@, l0, l1, x as int, Value(v));
            }
        }
        assert forall|l2: LiveSets| #[trigger] is_solution(f@, l2) implies below(l1, l2) by {
            assert(below(l0, l2));
            lemma_rule_mono(*d, f@, l0, l2, x as int, Value(v));
            assert forall|o: int, w: Value|
                0 <= o < l1.flow.len() && #[trigger] l1.flow[o].contains(w) implies l2.flow[o].contains(
                w,
            ) by {
                assert(d.bit(b1, o, w.0 as int));
                if d.bit(b0, o, w.0 as int) {
                    assert(l0.flow[o].contains(w));
                }
            }
            assert forall|e: int, w: Value|
                0 <= e < l1.ebb.len() && #[trigger] l1.ebb[e].contains(w) implies l2.ebb[e].contains(
                w,
            ) by {
                assert(d.bit(b1, d.no + e, w.0 as int));
                if d.bit(b0, d.no + e, w.0 as int) {
                    assert(l0.ebb[e].contains(w));
                }
            }
        }
    }
}

/// Sets in row `x` the flags that its rule asks for and that are not set.
/// Tells whether any was set.
fn scan_row(f: &Function, bits: &mut Vec<bool>, d: &Dims, x: usize) -> (changed: bool)
    requires
        d.state_ok(f@, old(bits)@),
        x < d.rows(),
    ensures
        d.state_ok(f@, final(bits)@),
        count_false(final(bits)@) <= count_false(old(bits)@),
        changed ==> count_false(final(bits)@) < count_false(old(bits)@),
        !changed ==> final(bits)@ == old(bits)@ && d.row_done(f@, final(bits)@, x as int),
{
    let ghost b0 = bits@;
    let at = if x < d.no {
        f.op_after(Op(x))
    } else {
        f.ebb_first_op(Ebb(x - d.no))
    };
    let o = match at {
        Some(o) => o,
        None => {
            return false;
        },
    };
    proof {
        if x >= d.no {
            assert(f@.wf_ebb(x - d.no));
            assert(f@.has_op(f@.ebbs[x - d.no].ops[0]));
        }
    }
    let mut changed = false;
    let mut v: usize = 0;
    while v < d.nv
        invariant
            v <= d.nv,
            x < d.rows(),
            d.state_ok(f@, bits@),
            f@.has_op(o),
            at == Some(o),
            at == (if x < d.no {
                f@.op_after(Op(x))
            } else {
                f@.ebb_first_op(Ebb((x - d.no) as usize))
            }),
            count_false(bits@) <= count_false(b0),
            changed ==> count_false(bits@) < count_false(b0),
            !changed ==> bits@ == b0,
            !changed ==> forall|w: int|
                0 <= w < v && #[trigger] d.rule(f@, d.sets(bits@), x as int, Value(w as usize))
                    ==> d.bit(bits@, x as int, w),
        decreases d.nv - v,
    {
        let i = index(d, x, v);
        if !bits[i] {
            let asked = before(f, bits, d, o, v);
            assert(asked == d.rule(f@, d.sets(bits@), x as int, Value(v)));
            if asked {
                mark(f, bits, d, x, v);
                changed = true;
            }
        }
        v = v + 1;
    }
    changed
}

/// Scans every row once. Tells whether any flag was set.
fn scan_all(f: &Function, bits: &mut Vec<bool>, d: &Dims) -> (changed: bool)
    requires
        d.state_ok(f@, old(bits)@),
    ensures
        d.state_ok(f@, final(bits)@),
        changed ==> count_false(final(bits)@) < count_false(old(bits)@),
        !changed ==> final(bits)@ == old(bits)@ && forall|x: int|
            0 <= x < d.rows() ==> #[trigger] d.row_done(f@, final(bits)@, x),
{
    let ghost b0 = bits@;
    let rows = d.no + d.ne;
    let mut changed = false;
    let mut x: usize = 0;
    while x < rows
        invariant
            x <= rows,
            rows == d.rows(),
            d.state_ok(f@, bits@),
            count_false(bits@) <= count_false(b0),
            changed ==> count_false(bits@) < count_false(b0),
            !changed ==> bits@ == b0,
            !changed ==> forall|y: int| 0 <= y < x ==> #[trigger] d.row_done(f@, bits@, y),
        decreases rows - x,
    {
        if scan_row(f, bits, d, x) {
            changed = true;
        }
        x = x + 1;
    }
    changed
}

/// The values whose flags are set in row `x`, in ascending order.
fn row_values(bits: &Vec<bool>, d: &Dims, x: usize) -> (r: Vec<Value>)
    requires
        x < d.rows(),
        d.rows() * d.nv <= usize::MAX,
        bits@.len() == d.rows() * d.nv,
    ensures
        ascending(r@),
        r@.to_set() == Set::new(|v: Value| d.bit(bits@, x as int, v.0 as int)),
{
    let mut out: Vec<Value> = Vec::new();
    let mut v: usize = 0;
    while v < d.nv
        invariant
            v <= d.nv,
            x < d.rows(),
            d.rows() * d.nv <= usize::MAX,
            bits@.len() == d.rows() * d.nv,
            ascending(out@),
            forall|k: int| 0 <= k < out@.len() ==> (#[trigger] out@[k]).0 < v,
            forall|w: Value| out@.contains(w) <==> (w.0 < v && d.bit(bits@, x as int, w.0 as int)),
        decreases d.nv - v,
    {
        let ghost before = out@;
        if bits[index(d, x, v)] {
            out.push(Value(v));
            assert forall|w: Value| out@.contains(w) <==> (w.0 < v + 1 && d.bit(
                bits@,
                x as int,
                w.0 as int,
            )) by {
                if out@.contains(w) {
                    let k = choose|k: int| 0 <= k < out@.len() && out@[k] == w;
                    if k < before.len() {
                        assert(before[k] == w);
                        assert(before.contains(w));
                    }
                }
                if w.0 < v + 1 && d.bit(bits@, x as int, w.0 as int) {
                    if w.0 < v {
                        assert(before.contains(w));
                        let k = choose|k: int| 0 <= k < before.len() && before[k] == w;
                        assert(out@[k] == w);
                    } else {
                        assert(out@[before.len() as int] == w);
                    }
                }
            }
        }
        v = v + 1;
    }
    assert(out@.to_set() =~= Set::new(|v: Value| d.bit(bits@, x as int, v.0 as int)));
    out
}

/// The live values of `f`, or `None` where a table with a flag for every
/// value at every operation and EBB would have more entries than a machine
/// word can count.
pub fn live_values(f: &Function) -> (r: Option<LiveValues>)
    requires
        f@.wf(),
    ensures
        r is Some <==> (f@.ops.len() + f@.ebbs.len()) * f@.values.len() <= usize::MAX,
        r matches Some(l) ==> l@.is_liveness_of(f@) && l@ == liveness(f@),
{
    let no = f.op_count();
    let ne = f.ebb_count();
    let nv = f.value_count();
    let rows = match no.checked_add(ne) {
        Some(r) => r,
        None => {
            if nv == 0 {
                let live = empty_live(f);
                proof {
                    lemma_liveness_unique(f@, live@, liveness(f@));
                }
                return Some(live);
            }
            assert((no + ne) * nv > usize::MAX) by (nonlinear_arith)
                requires
                    no + ne > usize::MAX,
                    nv >= 1,
            ;
            return None;
        },
    };
    let total = match rows.checked_mul(nv) {
        Some(t) => t,
        None => {
            return None;
        },
    };
    let d = Dims { no: no, ne: ne, nv: nv };
    let mut bits = new_flags(total);
    proof {
        let l0 = d.sets(bits@);
        assert forall|l2: LiveSets| #[trigger] is_solution(f@, l2) implies below(l0, l2) by {
            assert forall|o: int, w: Value|
                0 <= o < l0.flow.len() && #[trigger] l0.flow[o].contains(w) implies l2.flow[o].contains(
                w,
            ) by {
                lemma_index(o, w.0 as int, d.rows(), d.nv as int);
            }
            assert forall|e: int, w: Value|
                0 <= e < l0.ebb.len() && #[trigger] l0.ebb[e].contains(w) implies l2.ebb[e].contains(
                w,
            ) by {
                lemma_index(d.no + e, w.0 as int, d.rows(), d.nv as int);
            }
        }
        assert forall|x: int, v: int| 0 <= x < d.rows() && #[trigger] d.bit(bits@, x, v) implies d.rule(
            f@,
            l0,
            x,
            Value(v as usize),
        ) by {
            lemma_index(x, v, d.rows(), d.nv as int);
        }
    }
    loop
        invariant
            d.state_ok(f@, bits@),
            d.no == no,
            d.ne == ne,
            d.nv == nv,
        ensures
            d.state_ok(f@, bits@),
            forall|x: int| 0 <= x < d.rows() ==> #[trigger] d.row_done(f@, bits@, x),
        decreases count_false(bits@),
    {
        if !scan_all(f, &mut bits, &d) {
            break ;
        }
    }
    proof {
        lemma_done_is_solution(d, f@, bits@);
    }
    let mut flow_live: Vec<Vec<Value>> = Vec::new();
    let mut o: usize = 0;
    while o < no
        invariant
            o <= no,
            d.state_ok(f@, bits@),
            d.no == no,
            flow_live@.len() == o,
            forall|k: int|
                0 <= k < o ==> ascending((#[trigger] flow_live@[k])@) && flow_live@[k]@.to_set()
                    == d.sets(bits@).flow[k],
        decreases no - o,
    {
        let row = row_values(&bits, &d, o);
        flow_live.push(row);
        o = o + 1;
    }
    let mut ebb_live: Vec<Vec<Value>> = Vec::new();
    let mut e: usize = 0;
    while e < ne
        invariant
            e <= ne,
            d.state_ok(f@, bits@),
            d.no == no,
            d.ne == ne,
            ebb_live@.len() == e,
            forall|k: int|
                0 <= k < e ==> ascending((#[trigger] ebb_live@[k])@) && ebb_live@[k]@.to_set()
                    == d.sets(bits@).ebb[k],
        decreases ne - e,
    {
        let row = row_values(&bits, &d, no + e);
        ebb_live.push(row);
        e = e + 1;
    }
    let live = LiveValues { flow_live: flow_live, ebb_live: ebb_live };
    proof {
        assert(live@.sets().flow =~= d.sets(bits@).flow);
        assert(live@.sets().ebb =~= d.sets(bits@).ebb);
        assert(live@.sets() == d.sets(bits@));
        lemma_liveness_unique(f@, live@, liveness(f@));
    }
    Some(live)
}

/// The live values of a function without values: nothing is live anywhere.
fn empty_live(f: &Function) -> (r: LiveValues)
    requires
        f@.wf(),
        f@.values.len() == 0,
    ensures
        r@.is_liveness_of(f@),
{
    let no = f.op_count();
    let ne = f.ebb_count();
    let mut flow_live: Vec<Vec<Value>> = Vec::new();
    let mut o: usize = 0;
    while o < no
        invariant
            o <= no,
            flow_live@.len() == o,
            forall|k: int| 0 <= k < o ==> (#[trigger] flow_live@[k])@.len() == 0,
        decreases no - o,
    {
        flow_live.push(Vec::new());
        o = o + 1;
    }
    let mut ebb_live: Vec<Vec<Value>> = Vec::new();
    let mut e: usize = 0;
    while e < ne
        invariant
            e <= ne,
            ebb_live@.len() == e,
            forall|k: int| 0 <= k < e ==> (#[trigger] ebb_live@[k])@.len() == 0,
        decreases ne - e,
    {
        ebb_live.push(Vec::new());
        e = e + 1;
    }
    let live = LiveValues { flow_live: flow_live, ebb_live: ebb_live };
    proof {
        let l = live@.sets();
        assert forall|o: int, v: Value| 0 <= o < f@.ops.len() implies (#[trigger] l.flow[o].contains(v)
            <==> flow_rule(f@, l, Op(o as usize), v)) by {
            assert(live@.flow_live[o].len() == 0);
            lemma_nothing_live(f@, l, v);
        }
        assert forall|e: int, v: Value| 0 <= e < f@.ebbs.len() implies (#[trigger] l.ebb[e].contains(v)
            <==> ebb_rule(f@, l, Ebb(e as usize), v)) by {
            assert(live@.ebb_live[e].len() == 0);
            lemma_nothing_live(f@, l, v);
        }
        assert forall|l2: LiveSets| #[trigger] is_solution(f@, l2) implies below(l, l2) by {
            assert forall|o: int, w: Value|
                0 <= o < l.flow.len() && #[trigger] l.flow[o].contains(w) implies l2.flow[o].contains(
                w,
            ) by {
                assert(live@.flow_live[o].len() == 0);
            }
            assert forall|e: int, w: Value|
                0 <= e < l.ebb.len() && #[trigger] l.ebb[e].contains(w) implies l2.ebb[e].contains(
                w,
            ) by {
                assert(live@.ebb_live[e].len() == 0);
            }
        }
    }
    live
}

/// In a well-formed function no rule asks for a handle that is no value of
/// the function, as long as no set holds such a handle.
pub proof fn lemma_no_stranger(f: FunctionModel, l: LiveSets, o: Op, v: Value)
    requires
        f.wf(),
        f.has_op(o),
        !f.has_value(v),
        forall|x: int| 0 <= x < l.flow.len() ==> !(#[trigger] l.flow[x]).contains(v),
        forall|x: int| 0 <= x < l.ebb.len() ==> !(#[trigger] l.ebb[x]).contains(v),
    ensures
        !live_before(f, l, o, v),
{
    assert(f.wf_op(o.0 as int));
    if is_def(f, o, v) {
        let i = choose|i: int| 0 <= i < f.ops[o.0 as int].writes.len() && f.ops[o.0 as int].writes[i] == v;
        assert(f.has_value(f.ops[o.0 as int].writes[i]));
    }
}

/// Where no set holds anything and the function has no values, no rule
/// asks for anything.
pub proof fn lemma_nothing_live(f: FunctionModel, l: LiveSets, v: Value)
    requires
        f.wf(),
        f.values.len() == 0,
        forall|x: int| 0 <= x < l.flow.len() ==> !(#[trigger] l.flow[x]).contains(v),
        forall|x: int| 0 <= x < l.ebb.len() ==> !(#[trigger] l.ebb[x]).contains(v),
    ensures
        forall|o: int| 0 <= o < f.ops.len() ==> !#[trigger] flow_rule(f, l, Op(o as usize), v),
        forall|e: int| 0 <= e < f.ebbs.len() ==> !#[trigger] ebb_rule(f, l, Ebb(e as usize), v),
{
    assert forall|o: int| 0 <= o < f.ops.len() implies !#[trigger] flow_rule(
        f,
        l,
        Op(o as usize),
        v,
    ) by {
        assert(f.wf_op(o));
        let d = f.ops[o];
        assert(f.wf_ebb(d.ebb.0 as int));
        if f.op_after(Op(o as usize)) is Some {
            let n = f.op_after(Op(o as usize))->0;
            assert(f.has_op(f.ebbs[d.ebb.0 as int].ops[d.pos + 1]));
            lemma_no_stranger(f, l, n, v);
        }
    }
    assert forall|e: int| 0 <= e < f.ebbs.len() implies !#[trigger] ebb_rule(
        f,
        l,
        Ebb(e as usize),
        v,
    ) by {
        assert(f.wf_ebb(e));
        if f.ebb_first_op(Ebb(e as usize)) is Some {
            assert(f.has_op(f.ebbs[e].ops[0]));
            lemma_no_stranger(f, l, f.ebb_first_op(Ebb(e as usize))->0, v);
        }
    }
}

/// Flags that are justified and complete in every row stand for a solution
/// of the rules.
pub proof fn lemma_done_is_solution(d: Dims, f: FunctionModel, bits: Seq<bool>)
    requires
        d.state_ok(f, bits),
        forall|x: int| 0 <= x < d.rows() ==> #[trigger] d.row_done(f, bits, x),
    ensures
        is_solution(f, d.sets(bits)),
{
    let l = d.sets(bits);
    assert forall|x: int, v: Value| 0 <= x < d.rows() && !f.has_value(v) implies !d.rule(
        f,
        l,
        x,
        v,
    ) by {
        if x < d.no {
            assert(f.wf_op(x));
            let dd = f.ops[x];
            assert(f.wf_ebb(dd.ebb.0 as int));
            if f.op_after(Op(x as usize)) is Some {
                assert(f.has_op(f.ebbs[dd.ebb.0 as int].ops[dd.pos + 1]));
                lemma_no_stranger(f, l, f.op_after(Op(x as usize))->0, v);
            }
        } else {
            let e = x - d.no;
            assert(f.wf_ebb(e));
            if f.ebb_first_op(Ebb(e as usize)) is Some {
                assert(f.has_op(f.ebbs[e].ops[0]));
                lemma_no_stranger(f, l, f.ebb_first_op(Ebb(e as usize))->0, v);
            }
        }
    }
    assert forall|o: int, v: Value| 0 <= o < f.ops.len() implies (#[trigger] l.flow[o].contains(v)
        <==> flow_rule(f, l, Op(o as usize), v)) by {
        assert(d.row_done(f, bits, o));
        if l.flow[o].contains(v) {
            assert(d.bit(bits, o, v.0 as int));
            assert(d.rule(f, l, o, Value(v.0 as int as usize)));
        }
        if flow_rule(f, l, Op(o as usize), v) {
            assert(d.rule(f, l, o, v));
            assert(f.has_value(v));
            assert(d.rule(f, l, o, Value(v.0 as int as usize)));
        }
    }
    assert forall|e: int, v: Value| 0 <= e < f.ebbs.len() implies (#[trigger] l.ebb[e].contains(v)
        <==> ebb_rule(f, l, Ebb(e as usize), v)) by {
        assert(d.row_done(f, bits, d.no + e));
        if l.ebb[e].contains(v) {
            assert(d.bit(bits, d.no + e, v.0 as int));
            assert(d.rule(f, l, d.no + e, Value(v.0 as int as usize)));
        }
        if ebb_rule(f, l, Ebb(e as usize), v) {
            assert(d.rule(f, l, d.no + e, v));
            assert(f.has_value(v));
            assert(d.rule(f, l, d.no + e, Value(v.0 as int as usize)));
        }
    }
}

/// Ascending lists with the same members are the same list.
pub proof fn lemma_ascending_unique(a: Seq<Value>, b: Seq<Value>)
    requires
        ascending(a),
        ascending(b),
        a.to_set() == b.to_set(),
    ensures
        a == b,
    decreases a.len(),
{
    if a.len() == 0 {
        if b.len() > 0 {
            assert(b.contains(b[0]));
            assert(b.to_set().contains(b[0]));
            assert(a.contains(b[0]));
        }
        assert(a =~= b);
    } else {
        let x = a.last();
        assert(a.contains(x));
        assert(a.to_set().contains(x));
        assert(b.contains(x));
        let j = choose|j: int| 0 <= j < b.len() && b[j] == x;
        let y = b.last();
        assert(b.contains(y));
        assert(b.to_set().contains(y));
        assert(a.contains(y));
        let i = choose|i: int| 0 <= i < a.len() && a[i] == y;
        assert(y == x) by {
            if i < a.len() - 1 {
                assert(a[i].0 < a[a.len() - 1].0);
            }
            if j < b.len() - 1 {
                assert(b[j].0 < b[b.len() - 1].0);
            }
        }
        let a0 = a.drop_last();
        let b0 = b.drop_last();
        assert(a0.to_set() =~= b0.to_set()) by {
            assert forall|v: Value| a0.to_set().contains(v) == b0.to_set().contains(v) by {
                if a0.contains(v) {
                    let k = choose|k: int| 0 <= k < a0.len() && a0[k] == v;
                    assert(a[k] == v);
                    assert(a[k].0 < a[a.len() - 1].0);
                    assert(a.contains(v));
                    assert(a.to_set().contains(v));
                    assert(b.contains(v));
                    let l = choose|l: int| 0 <= l < b.len() && b[l] == v;
                    assert(b0[l] == v);
                }
                if b0.contains(v) {
                    let k = choose|k: int| 0 <= k < b0.len() && b0[k] == v;
                    assert(b[k] == v);
                    assert(b[k].0 < b[b.len() - 1].0);
                    assert(b.contains(v));
                    assert(b.to_set().contains(v));
                    assert(a.contains(v));
                    let l = choose|l: int| 0 <= l < a.len() && a[l] == v;
                    assert(a0[l] == v);
                }
            }
        }
        lemma_ascending_unique(a0, b0);
        assert(a =~= a0.push(x));
        assert(b =~= b0.push(y));
    }
}

/// A function has one liveness: what the rules and the order of the lists
/// ask for leaves no choice.
pub proof fn lemma_liveness_unique(f: FunctionModel, a: LiveModel, b: LiveModel)
    requires
        a.is_liveness_of(f),
        b.is_liveness_of(f),
    ensures
        a == b,
{
    let sa = a.sets();
    let sb = b.sets();
    assert(is_solution(f, sa) && is_solution(f, sb));
    assert(below(sa, sb));
    assert(below(sb, sa));
    assert forall|i: int| 0 <= i < a.flow_live.len() implies a.flow_live[i] == b.flow_live[i] by {
        assert(sa.flow[i] =~= sb.flow[i]);
        lemma_ascending_unique(a.flow_live[i], b.flow_live[i]);
    }
    assert forall|i: int| 0 <= i < a.ebb_live.len() implies a.ebb_live[i] == b.ebb_live[i] by {
        assert(sa.ebb[i] =~= sb.ebb[i]);
        lemma_ascending_unique(a.ebb_live[i], b.ebb_live[i]);
    }
    assert(a.flow_live =~= b.flow_live);
    assert(a.ebb_live =~= b.ebb_live);
}

} // verus!

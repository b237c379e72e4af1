//! What scope lowering computes, as mathematics: the tracker state after a
//! tree was walked, the name every node receives, and the relation between a
//! tree before and after the walk.

use vstd::prelude::*;
use crate::ssa_variable::SSAVariable;
use crate::scope_tracker::{ScopeKey, TrackerModel, LambdaEnvModel, LambdaEnvIdx};
use crate::hir::{
    AVariable, SingleExpression, SingleExpressionKind, Pattern, Clause, FunctionDefinition,
    AliasedClosure,
};

verus! {

/// Why scope lowering gave up.
#[derive(Clone, Copy, Debug, PartialEq, Eq, Structural)]
pub enum SsaError {
    /// A variable is referred to where no enclosing scope binds it.
    UnboundVariable,
    /// More variables are bound than the bound expression has values, or a
    /// `try` binds another number of variables than its body has values.
    ArityMismatch,
    /// The name generator has run through all of its names.
    NamesExhausted,
}

/// The tracker during a walk, or the first error the walk met.
pub type PassState = Result<TrackerModel, SsaError>;

/// The key of the value variable `name`.
pub open spec fn var_key(name: Seq<char>) -> ScopeKey {
    ScopeKey { function: false, name: name }
}

/// The key of the function `name`.
pub open spec fn fun_key(name: Seq<char>) -> ScopeKey {
    ScopeKey { function: true, name: name }
}

/// The number of the next fresh name in `st`.
pub open spec fn first_free(st: PassState) -> nat {
    match st {
        Ok(m) => m.next,
        Err(_) => 0,
    }
}

/// The state after `n` names were issued one by one.
pub open spec fn issue_many(st: PassState, n: nat) -> PassState {
    match st {
        Ok(m) => if m.next + n <= u64::MAX {
            Ok(TrackerModel { next: m.next + n, ..m })
        } else {
            Err(SsaError::NamesExhausted)
        },
        Err(_) => st,
    }
}

/// Issues one name for the result of a node.
pub open spec fn fresh(st: PassState) -> (PassState, SSAVariable) {
    (issue_many(st, 1), SSAVariable(first_free(st) as u64))
}

/// A scope that binds `names`, in order, to the names numbered from `first`.
pub open spec fn fresh_scope(names: Seq<Seq<char>>, first: nat, function: bool) -> Seq<
    (ScopeKey, SSAVariable),
> {
    Seq::new(
        names.len(),
        |i: int| (ScopeKey { function: function, name: names[i] }, SSAVariable((first + i) as u64)),
    )
}

/// The state after a scope was entered.
pub open spec fn st_push(st: PassState, scope: Seq<(ScopeKey, SSAVariable)>) -> PassState {
    match st {
        Ok(m) => Ok(m.push_scope(scope)),
        Err(_) => st,
    }
}

/// The state after the innermost scope was left.
pub open spec fn st_pop(st: PassState) -> PassState {
    match st {
        Ok(m) => Ok(m.pop_scope()),
        Err(_) => st,
    }
}

/// The state after a tracking frame was opened.
pub open spec fn st_push_tracking(st: PassState) -> PassState {
    match st {
        Ok(m) => Ok(m.push_tracking()),
        Err(_) => st,
    }
}

/// Closes the innermost frame and registers its captures as a closure
/// environment.
pub open spec fn st_close_env(st: PassState) -> PassState {
    match st {
        Ok(m) => Ok(
            m.pop_tracking().add_lambda_env(
                LambdaEnvModel { captures: m.frames.last().captures, meta_binds: Seq::empty() },
            ),
        ),
        Err(_) => st,
    }
}

/// The index that `st_close_env` gives the environment.
pub open spec fn st_env_index(st: PassState) -> Option<LambdaEnvIdx> {
    match st {
        Ok(m) => Some(LambdaEnvIdx(m.envs.len() as usize)),
        Err(_) => None,
    }
}

/// The source names of a list of variables.
pub open spec fn variable_names(vars: Seq<AVariable>) -> Seq<Seq<char>> {
    Seq::new(vars.len(), |i: int| vars[i].var@)
}

/// The source names of the aliases of a group.
pub open spec fn alias_names(cs: Seq<AliasedClosure>) -> Seq<Seq<char>> {
    Seq::new(cs.len(), |i: int| cs[i].alias.var@)
}

/// The source names of the variables that a pattern binds.
pub open spec fn pattern_names(p: Pattern) -> Seq<Seq<char>> {
    Seq::new(p.binds@.len(), |i: int| p.binds@[i].0@)
}

/// The variables that the first `k` patterns bind, pattern by pattern.
pub open spec fn clause_names(ps: Seq<Pattern>, k: nat) -> Seq<Seq<char>>
    decreases k,
{
    if k == 0 || k > ps.len() {
        Seq::empty()
    } else {
        clause_names(ps, (k - 1) as nat) + pattern_names(ps[k - 1])
    }
}

/// The state after the walk of `e`, and the name that `e` receives.
pub open spec fn run(st: PassState, e: SingleExpression) -> (PassState, SSAVariable)
    decreases e, 0nat,
{
    match st {
        Err(_) => (st, SSAVariable(0)),
        Ok(m) => match e.kind {
            SingleExpressionKind::Variable(v) => match m.get_result(var_key(v.var@)) {
                Some(ssa) => (Ok(m.get_state(var_key(v.var@))), ssa),
                None => (Err(SsaError::UnboundVariable), SSAVariable(0)),
            },
            SingleExpressionKind::InterModuleCall { module, name, args } => fresh(
                run_seq(run(run(st, *module).0, *name).0, args@, args@.len()),
            ),
            SingleExpressionKind::ApplyCall { fun, args } => fresh(
                run(run_seq(st, args@, args@.len()), *fun).0,
            ),
            SingleExpressionKind::Let { val, vars, body } => if vars@.len() > val.values@.len() {
                (Err(SsaError::ArityMismatch), SSAVariable(0))
            } else {
                let s1 = run_seq(st, val.values@, val.values@.len());
                let r = run(st_push(s1, bound_scope(st, vars@, val.values@)), *body);
                (st_pop(r.0), r.1)
            },
            SingleExpressionKind::Try { body, then_vars, then, catch_vars, catch } => if then_vars@.len()
                != body.values@.len() {
                (Err(SsaError::ArityMismatch), SSAVariable(0))
            } else {
                let s1 = run_seq(st, body.values@, body.values@.len());
                let s2 = st_pop(run(st_push(s1, bound_scope(st, then_vars@, body.values@)), *then).0);
                let s3 = issue_many(s2, catch_vars@.len());
                let scope = fresh_scope(variable_names(catch_vars@), first_free(s2), false);
                fresh(st_pop(run(st_push(s3, scope), *catch).0))
            },
            SingleExpressionKind::Case { val, clauses, values } => {
                let s1 = run_seq(st, val.values@, val.values@.len());
                let s2 = run_seq(s1, values@, values@.len());
                fresh(run_clauses(s2, clauses@, clauses@.len()))
            },
            SingleExpressionKind::Atomic(_) => fresh(st),
            SingleExpressionKind::NamedFunction { name, is_lambda } => match m.get_result(
                fun_key(name@),
            ) {
                Some(ssa) => (Ok(m.get_state(fun_key(name@))), ssa),
                None => fresh(st),
            },
            SingleExpressionKind::ExternalNamedFunction { module, name } => fresh(st),
            SingleExpressionKind::Tuple(vals) => fresh(run_seq(st, vals@, vals@.len())),
            SingleExpressionKind::List { head, tail } => fresh(
                run(run_seq(st, head@, head@.len()), *tail).0,
            ),
            SingleExpressionKind::MakeMap { values, merge } => {
                let s1 = run_pairs(st, values@, values@.len());
                match merge {
                    Some(b) => fresh(run(s1, *b).0),
                    None => fresh(s1),
                }
            },
            SingleExpressionKind::Binary(elems) => fresh(run_segments(st, elems@, elems@.len())),
            SingleExpressionKind::PrimOp { name, args } => fresh(run_seq(st, args@, args@.len())),
            SingleExpressionKind::Do(e1, e2) => run(run_seq(st, e1.values@, e1.values@.len()), *e2),
            SingleExpressionKind::Receive { clauses, pattern_values, timeout_time, timeout_body } => {
                let s1 = run_seq(st, pattern_values@, pattern_values@.len());
                let s2 = run_clauses(s1, clauses@, clauses@.len());
                fresh(run(run(s2, *timeout_time).0, *timeout_body).0)
            },
            SingleExpressionKind::BindClosure { closure, lambda_env, env_ssa } => {
                let s1 = run_function(st_push_tracking(st), closure.fun);
                fresh(fresh(st_close_env(s1)).0)
            },
            SingleExpressionKind::BindClosures { closures, body, lambda_env, env_ssa } => {
                let s1 = st_push(
                    issue_many(st, closures@.len()),
                    fresh_scope(alias_names(closures@), first_free(st), true),
                );
                let s2 = run_closures(st_push_tracking(s1), closures@, closures@.len());
                let s3 = st_pop(run(st_close_env(s2), *body).0);
                fresh(fresh(s3).0)
            },
        },
    }
}

/// The state after the walk of the first `k` members of `es`.
pub open spec fn run_seq(st: PassState, es: Seq<SingleExpression>, k: nat) -> PassState
    decreases es, k,
{
    if k == 0 || k > es.len() {
        st
    } else {
        run(run_seq(st, es, (k - 1) as nat), es[k - 1]).0
    }
}

/// The name that member `i` of `es` receives when `es` is walked from `st`.
pub open spec fn name_in_seq(st: PassState, es: Seq<SingleExpression>, i: int) -> SSAVariable
    decreases es, es.len() + 1,
{
    if 0 <= i < es.len() {
        run(run_seq(st, es, i as nat), es[i]).1
    } else {
        SSAVariable(0)
    }
}

/// The scope that binds each of `vars` to the name of the value at the same
/// position in `vals`, walked from `st`.
pub open spec fn bound_scope(st: PassState, vars: Seq<AVariable>, vals: Seq<SingleExpression>) -> Seq<
    (ScopeKey, SSAVariable),
>
    decreases vals, vals.len() + 2,
{
    Seq::new(vars.len(), |i: int| (var_key(vars[i].var@), name_in_seq(st, vals, i)))
}

/// The state after the walk of the first `k` key-value pairs.
pub open spec fn run_pairs(st: PassState, ps: Seq<(SingleExpression, SingleExpression)>, k: nat) -> PassState
    decreases ps, k,
{
    if k == 0 || k > ps.len() {
        st
    } else {
        run(run(run_pairs(st, ps, (k - 1) as nat), ps[k - 1].0).0, ps[k - 1].1).0
    }
}

/// The state after the walk of the first `k` segments of a binary.
pub open spec fn run_segments(
    st: PassState,
    segs: Seq<(SingleExpression, Vec<SingleExpression>)>,
    k: nat,
) -> PassState
    decreases segs, k,
{
    if k == 0 || k > segs.len() {
        st
    } else {
        let s1 = run(run_segments(st, segs, (k - 1) as nat), segs[k - 1].0).0;
        run_seq(s1, segs[k - 1].1@, segs[k - 1].1@.len())
    }
}

/// The scope in which the guard and body of a clause are walked.
pub open spec fn clause_scope(st: PassState, c: Clause) -> Seq<(ScopeKey, SSAVariable)> {
    fresh_scope(clause_names(c.patterns@, c.patterns@.len()), first_free(st), false)
}

/// The state after the walk of one clause.
pub open spec fn run_clause(st: PassState, c: Clause) -> PassState
    decreases c, 0nat,
{
    let s1 = issue_many(st, clause_names(c.patterns@, c.patterns@.len()).len());
    let s2 = st_push(s1, clause_scope(st, c));
    st_pop(run(run(s2, c.guard).0, c.body).0)
}

/// The state after the walk of the first `k` clauses.
pub open spec fn run_clauses(st: PassState, cs: Seq<Clause>, k: nat) -> PassState
    decreases cs, k,
{
    if k == 0 || k > cs.len() {
        st
    } else {
        run_clause(run_clauses(st, cs, (k - 1) as nat), cs[k - 1])
    }
}

/// The scope in which the body of a function is walked.
pub open spec fn function_scope(st: PassState, f: FunctionDefinition) -> Seq<(ScopeKey, SSAVariable)> {
    fresh_scope(variable_names(f.args@), first_free(st), false)
}

/// The state after the walk of a function: its parameters get fresh names
/// and are in scope in its body.
pub open spec fn run_function(st: PassState, f: FunctionDefinition) -> PassState
    decreases f, 0nat,
{
    let s1 = issue_many(st, f.args@.len());
    st_pop(run(st_push(s1, function_scope(st, f)), *f.body).0)
}

/// The state after the walk of the first `k` closures of a group.
pub open spec fn run_closures(st: PassState, cs: Seq<AliasedClosure>, k: nat) -> PassState
    decreases cs, k,
{
    if k == 0 || k > cs.len() {
        st
    } else {
        run_function(run_closures(st, cs, (k - 1) as nat), cs[k - 1].closure.fun)
    }
}

/// Whether `after` is `before` with its names set to those numbered from
/// `first`.
pub open spec fn named_fresh(before: Seq<AVariable>, after: Seq<AVariable>, first: nat) -> bool {
    &&& after.len() == before.len()
    &&& forall|i: int|
        0 <= i < before.len() ==> (#[trigger] after[i]).var == before[i].var && after[i].ssa
            == SSAVariable((first + i) as u64)
}

/// Whether `after` is `before` with its names set to those of the values at
/// the same positions.
pub open spec fn named_bound(
    before: Seq<AVariable>,
    after: Seq<AVariable>,
    vals: Seq<SingleExpression>,
) -> bool {
    &&& after.len() == before.len()
    &&& forall|i: int|
        0 <= i < before.len() ==> (#[trigger] after[i]).var == before[i].var && after[i].ssa
            == vals[i].ssa
}

/// Whether the binds of `after` are those of `before` with the names
/// numbered from `first`.
pub open spec fn named_pattern(before: Pattern, after: Pattern, first: nat) -> bool {
    &&& after.binds@.len() == before.binds@.len()
    &&& forall|i: int|
        0 <= i < before.binds@.len() ==> (#[trigger] after.binds@[i]).0 == before.binds@[i].0
            && after.binds@[i].1 == SSAVariable((first + i) as u64)
}

/// Whether the patterns of a clause were named in order from `first`.
pub open spec fn named_patterns(before: Seq<Pattern>, after: Seq<Pattern>, first: nat) -> bool {
    &&& after.len() == before.len()
    &&& forall|i: int|
        0 <= i < before.len() ==> named_pattern(
            before[i],
            #[trigger] after[i],
            first + clause_names(before, i as nat).len(),
        )
}

/// Whether `e1` is `e0` after the walk from `st`: the same tree, with every
/// name, closure environment and closure mark set as the walk sets it.
pub open spec fn named(st: PassState, e0: SingleExpression, e1: SingleExpression) -> bool
    decreases e0, 0nat,
{
    &&& e1.ssa == run(st, e0).1
    &&& match e0.kind {
        SingleExpressionKind::Variable(v0) => {
            &&& e1.kind matches SingleExpressionKind::Variable(v1)
            &&& v1.var == v0.var
            &&& v1.ssa == e1.ssa
        },
        SingleExpressionKind::InterModuleCall { module: m0, name: n0, args: a0 } => {
            &&& e1.kind matches SingleExpressionKind::InterModuleCall {
                module: m1,
                name: n1,
                args: a1,
            }
            &&& named(st, *m0, *m1)
            &&& named(run(st, *m0).0, *n0, *n1)
            &&& named_seq(run(run(st, *m0).0, *n0).0, a0@, a1@)
        },
        SingleExpressionKind::ApplyCall { fun: f0, args: a0 } => {
            &&& e1.kind matches SingleExpressionKind::ApplyCall { fun: f1, args: a1 }
            &&& named_seq(st, a0@, a1@)
            &&& named(run_seq(st, a0@, a0@.len()), *f0, *f1)
        },
        SingleExpressionKind::Let { val: val0, vars: vars0, body: b0 } => {
            &&& e1.kind matches SingleExpressionKind::Let { val: val1, vars: vars1, body: b1 }
            &&& named_seq(st, val0.values@, val1.values@)
            &&& named_bound(vars0@, vars1@, val1.values@)
            &&& named(
                st_push(
                    run_seq(st, val0.values@, val0.values@.len()),
                    bound_scope(st, vars0@, val0.values@),
                ),
                *b0,
                *b1,
            )
        },
        SingleExpressionKind::Try {
            body: body0,
            then_vars: tv0,
            then: then0,
            catch_vars: cv0,
            catch: catch0,
        } => {
            let s1 = run_seq(st, body0.values@, body0.values@.len());
            let s1p = st_push(s1, bound_scope(st, tv0@, body0.values@));
            let s2 = st_pop(run(s1p, *then0).0);
            let s3p = st_push(
                issue_many(s2, cv0@.len()),
                fresh_scope(variable_names(cv0@), first_free(s2), false),
            );
            &&& e1.kind matches SingleExpressionKind::Try {
                body: body1,
                then_vars: tv1,
                then: then1,
                catch_vars: cv1,
                catch: catch1,
            }
            &&& named_seq(st, body0.values@, body1.values@)
            &&& named_bound(tv0@, tv1@, body1.values@)
            &&& named(s1p, *then0, *then1)
            &&& named_fresh(cv0@, cv1@, first_free(s2))
            &&& named(s3p, *catch0, *catch1)
        },
        SingleExpressionKind::Case { val: val0, clauses: c0, values: v0 } => {
            let s1 = run_seq(st, val0.values@, val0.values@.len());
            &&& e1.kind matches SingleExpressionKind::Case { val: val1, clauses: c1, values: v1 }
            &&& named_seq(st, val0.values@, val1.values@)
            &&& named_seq(s1, v0@, v1@)
            &&& named_clauses(run_seq(s1, v0@, v0@.len()), c0@, c1@)
        },
        SingleExpressionKind::Atomic(_) => e1.kind == e0.kind,
        SingleExpressionKind::NamedFunction { name: n0, is_lambda: _ } => {
            &&& e1.kind matches SingleExpressionKind::NamedFunction { name: n1, is_lambda: l1 }
            &&& n1 == n0
            &&& (st matches Ok(m) ==> l1 == m.get_result(fun_key(n0@)).is_some())
        },
        SingleExpressionKind::ExternalNamedFunction { .. } => e1.kind == e0.kind,
        SingleExpressionKind::Tuple(v0) => {
            &&& e1.kind matches SingleExpressionKind::Tuple(v1)
            &&& named_seq(st, v0@, v1@)
        },
        SingleExpressionKind::List { head: h0, tail: t0 } => {
            &&& e1.kind matches SingleExpressionKind::List { head: h1, tail: t1 }
            &&& named_seq(st, h0@, h1@)
            &&& named(run_seq(st, h0@, h0@.len()), *t0, *t1)
        },
        SingleExpressionKind::MakeMap { values: v0, merge: m0 } => {
            &&& e1.kind matches SingleExpressionKind::MakeMap { values: v1, merge: m1 }
            &&& named_pairs(st, v0@, v1@)
            &&& match m0 {
                Some(b0) => m1 matches Some(b1) && named(run_pairs(st, v0@, v0@.len()), *b0, *b1),
                None => m1 is None,
            }
        },
        SingleExpressionKind::Binary(s0) => {
            &&& e1.kind matches SingleExpressionKind::Binary(s1)
            &&& named_segments(st, s0@, s1@)
        },
        SingleExpressionKind::PrimOp { name: n0, args: a0 } => {
            &&& e1.kind matches SingleExpressionKind::PrimOp { name: n1, args: a1 }
            &&& n1 == n0
            &&& named_seq(st, a0@, a1@)
        },
        SingleExpressionKind::Do(x0, y0) => {
            &&& e1.kind matches SingleExpressionKind::Do(x1, y1)
            &&& named_seq(st, x0.values@, x1.values@)
            &&& named(run_seq(st, x0.values@, x0.values@.len()), *y0, *y1)
        },
        SingleExpressionKind::Receive {
            clauses: c0,
            pattern_values: p0,
            timeout_time: tt0,
            timeout_body: tb0,
        } => {
            let s1 = run_seq(st, p0@, p0@.len());
            let s2 = run_clauses(s1, c0@, c0@.len());
            &&& e1.kind matches SingleExpressionKind::Receive {
                clauses: c1,
                pattern_values: p1,
                timeout_time: tt1,
                timeout_body: tb1,
            }
            &&& named_seq(st, p0@, p1@)
            &&& named_clauses(s1, c0@, c1@)
            &&& named(s2, *tt0, *tt1)
            &&& named(run(s2, *tt0).0, *tb0, *tb1)
        },
        SingleExpressionKind::BindClosure { closure: c0, lambda_env: _, env_ssa: _ } => {
            let s1 = run_function(st_push_tracking(st), c0.fun);
            &&& e1.kind matches SingleExpressionKind::BindClosure {
                closure: c1,
                lambda_env: l1,
                env_ssa: es1,
            }
            &&& named_function(st_push_tracking(st), c0.fun, c1.fun)
            &&& l1 == st_env_index(s1)
            &&& c1.env == l1
            &&& es1 == fresh(st_close_env(s1)).1
        },
        SingleExpressionKind::BindClosures { closures: c0, body: b0, lambda_env: _, env_ssa: _ } => {
            let s1 = st_push(
                issue_many(st, c0@.len()),
                fresh_scope(alias_names(c0@), first_free(st), true),
            );
            let s2 = run_closures(st_push_tracking(s1), c0@, c0@.len());
            let s3 = st_pop(run(st_close_env(s2), *b0).0);
            &&& e1.kind matches SingleExpressionKind::BindClosures {
                closures: c1,
                body: b1,
                lambda_env: l1,
                env_ssa: es1,
            }
            &&& named_closures(st_push_tracking(s1), c0@, c1@, first_free(st), st_env_index(s2))
            &&& l1 == st_env_index(s2)
            &&& named(st_close_env(s2), *b0, *b1)
            &&& es1 == fresh(s3).1
        },
    }
}

/// Whether `b` is `a` after the members were walked in order from `st`.
pub open spec fn named_seq(st: PassState, a: Seq<SingleExpression>, b: Seq<SingleExpression>) -> bool
    decreases a, 1nat,
{
    &&& a.len() == b.len()
    &&& forall|i: int| 0 <= i < a.len() ==> named(run_seq(st, a, i as nat), a[i], #[trigger] b[i])
}

/// Whether `b` is `a` after the pairs were walked in order from `st`, each
/// key before its value.
pub open spec fn named_pairs(
    st: PassState,
    a: Seq<(SingleExpression, SingleExpression)>,
    b: Seq<(SingleExpression, SingleExpression)>,
) -> bool
    decreases a, 1nat,
{
    &&& a.len() == b.len()
    &&& forall|i: int|
        0 <= i < a.len() ==> {
            &&& named(run_pairs(st, a, i as nat), a[i].0, (#[trigger] b[i]).0)
            &&& named(run(run_pairs(st, a, i as nat), a[i].0).0, a[i].1, b[i].1)
        }
}

/// Whether `b` is `a` after the segments were walked in order from `st`,
/// each value before its options.
pub open spec fn named_segments(
    st: PassState,
    a: Seq<(SingleExpression, Vec<SingleExpression>)>,
    b: Seq<(SingleExpression, Vec<SingleExpression>)>,
) -> bool
    decreases a, 1nat,
{
    &&& a.len() == b.len()
    &&& forall|i: int|
        0 <= i < a.len() ==> {
            &&& named(run_segments(st, a, i as nat), a[i].0, (#[trigger] b[i]).0)
            &&& named_seq(run(run_segments(st, a, i as nat), a[i].0).0, a[i].1@, b[i].1@)
        }
}

/// Whether `c1` is `c0` after the walk from `st`: the variables of the
/// patterns have fresh names, under which the guard and then the body were
/// walked.
pub open spec fn named_clause(st: PassState, c0: Clause, c1: Clause) -> bool
    decreases c0, 0nat,
{
    let s2 = st_push(
        issue_many(st, clause_names(c0.patterns@, c0.patterns@.len()).len()),
        clause_scope(st, c0),
    );
    &&& named_patterns(c0.patterns@, c1.patterns@, first_free(st))
    &&& named(s2, c0.guard, c1.guard)
    &&& named(run(s2, c0.guard).0, c0.body, c1.body)
}

/// Whether `b` is `a` after the clauses were walked in order from `st`.
pub open spec fn named_clauses(st: PassState, a: Seq<Clause>, b: Seq<Clause>) -> bool
    decreases a, 1nat,
{
    &&& a.len() == b.len()
    &&& forall|i: int| 0 <= i < a.len() ==> named_clause(run_clauses(st, a, i as nat), a[i], #[trigger] b[i])
}

/// Whether `f1` is `f0` after the walk from `st`: the parameters have fresh
/// names, under which the body was walked.
pub open spec fn named_function(st: PassState, f0: FunctionDefinition, f1: FunctionDefinition) -> bool
    decreases f0, 0nat,
{
    &&& named_fresh(f0.args@, f1.args@, first_free(st))
    &&& named(st_push(issue_many(st, f0.args@.len()), function_scope(st, f0)), *f0.body, *f1.body)
}

/// Whether `b` is the group `a` after its members were walked in order from
/// `st`, their aliases named from `first` and their environment set to `env`.
pub open spec fn named_closures(
    st: PassState,
    a: Seq<AliasedClosure>,
    b: Seq<AliasedClosure>,
    first: nat,
    env: Option<LambdaEnvIdx>,
) -> bool
    decreases a, 1nat,
{
    &&& a.len() == b.len()
    &&& forall|i: int|
        0 <= i < a.len() ==> {
            &&& (#[trigger] b[i]).alias.var == a[i].alias.var
            &&& b[i].alias.ssa == SSAVariable((first + i) as u64)
            &&& b[i].closure.env == env
            &&& named_function(run_closures(st, a, i as nat), a[i].closure.fun, b[i].closure.fun)
        }
}

/// Whether a step of the walk that went from `pre` to `post` and returned
/// `r` is the step that ends in the state `model`: on success the tracker is
/// in that state, with the scope stack and the open frames as they were; on
/// failure the model failed with the same error.
pub open spec fn walked(
    r: Result<(), SsaError>,
    pre: TrackerModel,
    post: TrackerModel,
    model: PassState,
) -> bool {
    match r {
        Ok(()) => {
            &&& model == Ok::<TrackerModel, SsaError>(post)
            &&& post.scopes == pre.scopes
            &&& post.frames.len() == pre.frames.len()
        },
        Err(e) => model == Err::<TrackerModel, SsaError>(e),
    }
}

/// Once a walk has failed, nothing that follows changes the error.
pub broadcast proof fn lemma_run_err(st: PassState, x: SingleExpression)
    requires
        st is Err,
    ensures
        #[trigger] run(st, x) == (st, SSAVariable(0)),
{
}

/// A failed walk stays failed over a list.
pub broadcast proof fn lemma_run_seq_err(st: PassState, es: Seq<SingleExpression>, k: nat)
    requires
        st is Err,
    ensures
        #[trigger] run_seq(st, es, k) == st,
    decreases k,
{
    if 0 < k <= es.len() {
        lemma_run_seq_err(st, es, (k - 1) as nat);
        lemma_run_err(st, es[k - 1]);
    }
}

/// A failed walk stays failed over pairs.
pub broadcast proof fn lemma_run_pairs_err(
    st: PassState,
    ps: Seq<(SingleExpression, SingleExpression)>,
    k: nat,
)
    requires
        st is Err,
    ensures
        #[trigger] run_pairs(st, ps, k) == st,
    decreases k,
{
    if 0 < k <= ps.len() {
        lemma_run_pairs_err(st, ps, (k - 1) as nat);
        lemma_run_err(st, ps[k - 1].0);
        lemma_run_err(st, ps[k - 1].1);
    }
}

/// A failed walk stays failed over segments.
pub broadcast proof fn lemma_run_segments_err(
    st: PassState,
    segs: Seq<(SingleExpression, Vec<SingleExpression>)>,
    k: nat,
)
    requires
        st is Err,
    ensures
        #[trigger] run_segments(st, segs, k) == st,
    decreases k,
{
    if 0 < k <= segs.len() {
        lemma_run_segments_err(st, segs, (k - 1) as nat);
        lemma_run_err(st, segs[k - 1].0);
        lemma_run_seq_err(st, segs[k - 1].1@, segs[k - 1].1@.len());
    }
}

/// A failed walk stays failed over a clause.
pub broadcast proof fn lemma_run_clause_err(st: PassState, c: Clause)
    requires
        st is Err,
    ensures
        #[trigger] run_clause(st, c) == st,
{
    lemma_run_err(st, c.guard);
    lemma_run_err(st, c.body);
}

/// A failed walk stays failed over clauses.
pub broadcast proof fn lemma_run_clauses_err(st: PassState, cs: Seq<Clause>, k: nat)
    requires
        st is Err,
    ensures
        #[trigger] run_clauses(st, cs, k) == st,
    decreases k,
{
    if 0 < k <= cs.len() {
        lemma_run_clauses_err(st, cs, (k - 1) as nat);
        lemma_run_clause_err(st, cs[k - 1]);
    }
}

/// A failed walk stays failed over a function.
pub broadcast proof fn lemma_run_function_err(st: PassState, f: FunctionDefinition)
    requires
        st is Err,
    ensures
        #[trigger] run_function(st, f) == st,
{
    lemma_run_err(st, *f.body);
}

/// A failed walk stays failed over the closures of a group.
pub broadcast proof fn lemma_run_closures_err(st: PassState, cs: Seq<AliasedClosure>, k: nat)
    requires
        st is Err,
    ensures
        #[trigger] run_closures(st, cs, k) == st,
    decreases k,
{
    if 0 < k <= cs.len() {
        lemma_run_closures_err(st, cs, (k - 1) as nat);
        lemma_run_function_err(st, cs[k - 1].closure.fun);
    }
}

pub broadcast group group_sticky_errors {
    lemma_run_err,
    lemma_run_seq_err,
    lemma_run_pairs_err,
    lemma_run_segments_err,
    lemma_run_clause_err,
    lemma_run_clauses_err,
    lemma_run_function_err,
    lemma_run_closures_err,
}

/// A walk that has failed after `k` members has failed after any greater
/// number of them, with the same error.
pub proof fn lemma_run_seq_sticky(st: PassState, es: Seq<SingleExpression>, k: nat, n: nat)
    requires
        run_seq(st, es, k) is Err,
        k <= n <= es.len(),
    ensures
        run_seq(st, es, n) == run_seq(st, es, k),
    decreases n,
{
    broadcast use group_sticky_errors;

    if k < n {
        lemma_run_seq_sticky(st, es, k, (n - 1) as nat);
        assert(run_seq(st, es, n) == run(run_seq(st, es, (n - 1) as nat), es[n - 1]).0);
    }
}

/// A walk that has failed after `k` members has failed after any greater
/// number of them, with the same error.
pub proof fn lemma_run_pairs_sticky(st: PassState, ps: Seq<(SingleExpression, SingleExpression)>, k: nat, n: nat)
    requires
        run_pairs(st, ps, k) is Err,
        k <= n <= ps.len(),
    ensures
        run_pairs(st, ps, n) == run_pairs(st, ps, k),
    decreases n,
{
    broadcast use group_sticky_errors;

    if k < n {
        lemma_run_pairs_sticky(st, ps, k, (n - 1) as nat);
        assert(run_pairs(st, ps, n) == run(
            run(run_pairs(st, ps, (n - 1) as nat), ps[n - 1].0).0,
            ps[n - 1].1,
        ).0);
    }
}

/// A walk that has failed after `k` members has failed after any greater
/// number of them, with the same error.
pub proof fn lemma_run_segments_sticky(st: PassState, segs: Seq<(SingleExpression, Vec<SingleExpression>)>, k: nat, n: nat)
    requires
        run_segments(st, segs, k) is Err,
        k <= n <= segs.len(),
    ensures
        run_segments(st, segs, n) == run_segments(st, segs, k),
    decreases n,
{
    broadcast use group_sticky_errors;

    if k < n {
        lemma_run_segments_sticky(st, segs, k, (n - 1) as nat);
        assert(run_segments(st, segs, n) == run_seq(
            run(run_segments(st, segs, (n - 1) as nat), segs[n - 1].0).0,
            segs[n - 1].1@,
            segs[n - 1].1@.len(),
        ));
    }
}

/// A walk that has failed after `k` members has failed after any greater
/// number of them, with the same error.
pub proof fn lemma_run_clauses_sticky(st: PassState, cs: Seq<Clause>, k: nat, n: nat)
    requires
        run_clauses(st, cs, k) is Err,
        k <= n <= cs.len(),
    ensures
        run_clauses(st, cs, n) == run_clauses(st, cs, k),
    decreases n,
{
    broadcast use group_sticky_errors;

    if k < n {
        lemma_run_clauses_sticky(st, cs, k, (n - 1) as nat);
        assert(run_clauses(st, cs, n) == run_clause(run_clauses(st, cs, (n - 1) as nat), cs[n - 1]));
    }
}

/// A walk that has failed after `k` members has failed after any greater
/// number of them, with the same error.
pub proof fn lemma_run_closures_sticky(st: PassState, cs: Seq<AliasedClosure>, k: nat, n: nat)
    requires
        run_closures(st, cs, k) is Err,
        k <= n <= cs.len(),
    ensures
        run_closures(st, cs, n) == run_closures(st, cs, k),
    decreases n,
{
    broadcast use group_sticky_errors;

    if k < n {
        lemma_run_closures_sticky(st, cs, k, (n - 1) as nat);
        assert(run_closures(st, cs, n) == run_function(
            run_closures(st, cs, (n - 1) as nat),
            cs[n - 1].closure.fun,
        ));
    }
}

/// After a walk, each member of a list carries the name the model gives it.
pub proof fn lemma_named_seq_names(
    st: PassState,
    a: Seq<SingleExpression>,
    b: Seq<SingleExpression>,
)
    requires
        named_seq(st, a, b),
    ensures
        forall|i: int| 0 <= i < a.len() ==> (#[trigger] b[i]).ssa == name_in_seq(st, a, i),
{
    assert forall|i: int| 0 <= i < a.len() implies (#[trigger] b[i]).ssa == name_in_seq(
        st,
        a,
        i,
    ) by {
        assert(named(run_seq(st, a, i as nat), a[i], b[i]));
    }
}

} // verus!

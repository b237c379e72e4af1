//! Scope lowering: walks the high-level tree, gives every expression and
//! every binding occurrence an SSA name, resolves every reference to the
//! name of its innermost enclosing binding, and records for every closure
//! the outer variables its body refers to.
//!
//! The result is a permissive form of SSA: a name may be bound more than
//! once.

use vstd::prelude::*;
use crate::ssa_variable::SSAVariable;
use crate::scope_tracker::{
    ScopeDefinition, ScopeKey, ScopeTracker, TrackerModel, LambdaEnv, LambdaEnvIdx, scope_view,
};
use crate::hir::{
    AVariable, Expression, SingleExpression, SingleExpressionKind, Pattern, Clause,
    FunctionDefinition, AliasedClosure,
};
use crate::ssa_laws::{
    all_scoped, effect, frames_fit, free_refs, free_refs_seq, well_scoped, lemma_effect,
    lemma_start, lemma_then_seq, lemma_well_scoped, lemma_well_scoped_seq,
};
use crate::ssa_model::{
    SsaError, PassState, var_key, fun_key, first_free, issue_many, fresh, fresh_scope, st_push,
    st_pop, st_push_tracking, st_close_env, st_env_index, variable_names, alias_names,
    pattern_names, clause_names, run, run_seq, bound_scope, run_pairs, run_segments, run_clause,
    run_clauses, run_function, run_closures, named_fresh, named_bound, named_pattern,
    named_patterns, named, named_seq, named_pairs, named_segments, named_clause, named_clauses,
    named_function, named_closures, walked, group_sticky_errors, lemma_run_seq_sticky,
    lemma_run_pairs_sticky, lemma_run_segments_sticky, lemma_run_clauses_sticky,
    lemma_run_closures_sticky, lemma_named_seq_names, lemma_run_seq_err,
};

verus! {

/// Gives each of `vars` a fresh name and returns the scope that binds them.
fn bind_fresh(env: &mut ScopeTracker, vars: &mut Vec<AVariable>) -> (r: Result<
    Vec<(ScopeDefinition, SSAVariable)>,
    SsaError,
>)
    ensures
        match r {
            Ok(scope) => {
                &&& issue_many(Ok(old(env)@), old(vars)@.len()) == Ok::<TrackerModel, SsaError>(
                    final(env)@,
                )
                &&& scope_view(scope@) == fresh_scope(
                    variable_names(old(vars)@),
                    old(env)@.next,
                    false,
                )
                &&& named_fresh(old(vars)@, final(vars)@, old(env)@.next)
            },
            Err(e) => issue_many(Ok(old(env)@), old(vars)@.len()) == Err::<TrackerModel, SsaError>(e),
        },
{
    let ghost m0 = env@;
    let ghost vars0 = vars@;
    proof {
        env.lemma_next_bounded();
    }
    let mut scope: Vec<(ScopeDefinition, SSAVariable)> = Vec::new();
    let mut i: usize = 0;
    while i < vars.len()
        invariant
            i <= vars.len(),
            vars@.len() == vars0.len(),
            m0 == old(env)@,
            vars0 == old(vars)@,
            env@ == (TrackerModel { next: (m0.next + i) as nat, ..m0 }),
            m0.next + i <= u64::MAX,
            forall|j: int| i <= j < vars0.len() ==> vars@[j] == vars0[j],
            forall|j: int|
                0 <= j < i ==> (#[trigger] vars@[j]).var == vars0[j].var && vars@[j].ssa == SSAVariable(
                    (m0.next + j) as u64,
                ),
            scope@.len() == i,
            forall|j: int|
                0 <= j < i ==> (#[trigger] scope@[j]).0@ == var_key(vars0[j].var@) && scope@[j].1
                    == SSAVariable((m0.next + j) as u64),
        decreases vars.len() - i,
    {
        let ssa = match env.new_ssa() {
            Some(s) => s,
            None => {
                return Err(SsaError::NamesExhausted);
            },
        };
        vars[i].ssa = ssa;
        let name = vars[i].var.clone();
        scope.push((ScopeDefinition::Variable(name), ssa));
        i = i + 1;
    }
    assert(scope_view(scope@) =~= fresh_scope(variable_names(vars0), m0.next, false));
    Ok(scope)
}

/// Gives each of `vars` the name of the value at the same position and
/// returns the scope that binds them.
fn bind_values(vars: &mut Vec<AVariable>, vals: &Vec<SingleExpression>) -> (scope: Vec<
    (ScopeDefinition, SSAVariable),
>)
    requires
        old(vars)@.len() <= vals@.len(),
    ensures
        named_bound(old(vars)@, final(vars)@, vals@),
        scope_view(scope@) == Seq::new(
            old(vars)@.len(),
            |i: int| (var_key(old(vars)@[i].var@), vals@[i].ssa),
        ),
{
    let ghost vars0 = vars@;
    let mut scope: Vec<(ScopeDefinition, SSAVariable)> = Vec::new();
    let mut i: usize = 0;
    while i < vars.len()
        invariant
            i <= vars.len(),
            vars@.len() == vars0.len(),
            vars0.len() <= vals@.len(),
            forall|j: int| i <= j < vars0.len() ==> vars@[j] == vars0[j],
            forall|j: int|
                0 <= j < i ==> (#[trigger] vars@[j]).var == vars0[j].var && vars@[j].ssa
                    == vals@[j].ssa,
            scope@.len() == i,
            forall|j: int|
                0 <= j < i ==> (#[trigger] scope@[j]).0@ == var_key(vars0[j].var@) && scope@[j].1
                    == vals@[j].ssa,
        decreases vars.len() - i,
    {
        let ssa = vals[i].ssa;
        vars[i].ssa = ssa;
        let name = vars[i].var.clone();
        scope.push((ScopeDefinition::Variable(name), ssa));
        i = i + 1;
    }
    assert(scope_view(scope@) =~= Seq::new(
        vars0.len(),
        |i: int| (var_key(vars0[i].var@), vals@[i].ssa),
    ));
    scope
}

/// Issues the name of a node's result.
fn fresh_result(env: &mut ScopeTracker) -> (r: Result<SSAVariable, SsaError>)
    ensures
        match r {
            Ok(v) => {
                &&& fresh(Ok(old(env)@)) == (Ok::<TrackerModel, SsaError>(final(env)@), v)
                &&& final(env)@.scopes == old(env)@.scopes
                &&& final(env)@.frames == old(env)@.frames
            },
            Err(e) => fresh(Ok(old(env)@)).0 == Err::<TrackerModel, SsaError>(e),
        },
{
    match env.new_ssa() {
        Some(v) => Ok(v),
        None => Err(SsaError::NamesExhausted),
    }
}

/// Assigns names in every member of `expr`, in order.
pub fn assign_ssa_expression(env: &mut ScopeTracker, expr: &mut Expression) -> (r: Result<
    (),
    SsaError,
>)
    ensures
        walked(
            r,
            old(env)@,
            final(env)@,
            run_seq(Ok(old(env)@), old(expr).values@, old(expr).values@.len()),
        ),
        r is Ok ==> named_seq(Ok(old(env)@), old(expr).values@, final(expr).values@),
        r is Ok && frames_fit(old(env)@) ==> all_scoped(final(expr).values@, old(env)@.scopes)
            && effect(
            old(env)@,
            Ok(final(env)@),
            free_refs_seq(old(expr).values@, old(expr).values@.len()),
        ),
    decreases *old(expr), 2nat,
{
    let r = assign_list(env, &mut expr.values);
    proof {
        if r is Ok && frames_fit(old(env)@) {
            let m = old(env)@;
            let none = Seq::<ScopeKey>::empty();
            lemma_start(m);
            lemma_well_scoped_seq(m, Ok(m), none, old(expr).values@, expr.values@);
            lemma_then_seq(m, Ok(m), none, old(expr).values@, old(expr).values@.len());
            assert(none + free_refs_seq(old(expr).values@, old(expr).values@.len())
                =~= free_refs_seq(old(expr).values@, old(expr).values@.len()));
        }
    }
    r
}

/// Assigns names in every member of `es`, in order.
fn assign_list(env: &mut ScopeTracker, es: &mut Vec<SingleExpression>) -> (r: Result<(), SsaError>)
    ensures
        walked(r, old(env)@, final(env)@, run_seq(Ok(old(env)@), old(es)@, old(es)@.len())),
        r is Ok ==> named_seq(Ok(old(env)@), old(es)@, final(es)@),
    decreases *old(es), 1nat,
{
    let ghost st0: PassState = Ok(env@);
    let ghost es0 = *es;
    let mut i: usize = 0;
    while i < es.len()
        invariant
            i <= es.len(),
            es@.len() == es0@.len(),
            es0 == *old(es),
            st0 == Ok::<TrackerModel, SsaError>(old(env)@),
            run_seq(st0, es0@, i as nat) == Ok::<TrackerModel, SsaError>(env@),
            env@.scopes == old(env)@.scopes,
            env@.frames.len() == old(env)@.frames.len(),
            forall|j: int| i <= j < es0@.len() ==> es@[j] == es0@[j],
            forall|j: int|
                0 <= j < i ==> named(run_seq(st0, es0@, j as nat), es0@[j], #[trigger] es@[j]),
        decreases es.len() - i,
    {
        assert(run_seq(st0, es0@, (i + 1) as nat) == run(
            run_seq(st0, es0@, i as nat),
            es0@[i as int],
        ).0);
        match walk(env, &mut es[i]) {
            Ok(()) => {},
            Err(e) => {
                proof {
                    lemma_run_seq_sticky(st0, es0@, (i + 1) as nat, es0@.len());
                }
                return Err(e);
            },
        }
        i = i + 1;
    }
    Ok(())
}

/// Assigns names in every pair, the key before the value.
fn assign_pairs(env: &mut ScopeTracker, ps: &mut Vec<(SingleExpression, SingleExpression)>) -> (r:
    Result<(), SsaError>)
    ensures
        walked(r, old(env)@, final(env)@, run_pairs(Ok(old(env)@), old(ps)@, old(ps)@.len())),
        r is Ok ==> named_pairs(Ok(old(env)@), old(ps)@, final(ps)@),
    decreases *old(ps), 1nat,
{
    broadcast use group_sticky_errors;

    let ghost st0: PassState = Ok(env@);
    let ghost ps0 = *ps;
    let mut i: usize = 0;
    while i < ps.len()
        invariant
            i <= ps.len(),
            ps@.len() == ps0@.len(),
            ps0 == *old(ps),
            st0 == Ok::<TrackerModel, SsaError>(old(env)@),
            run_pairs(st0, ps0@, i as nat) == Ok::<TrackerModel, SsaError>(env@),
            env@.scopes == old(env)@.scopes,
            env@.frames.len() == old(env)@.frames.len(),
            forall|j: int| i <= j < ps0@.len() ==> ps@[j] == ps0@[j],
            forall|j: int|
                0 <= j < i ==> {
                    &&& named(run_pairs(st0, ps0@, j as nat), ps0@[j].0, (#[trigger] ps@[j]).0)
                    &&& named(
                        run(run_pairs(st0, ps0@, j as nat), ps0@[j].0).0,
                        ps0@[j].1,
                        ps@[j].1,
                    )
                },
        decreases ps.len() - i,
    {
        assert(run_pairs(st0, ps0@, (i + 1) as nat) == run(
            run(run_pairs(st0, ps0@, i as nat), ps0@[i as int].0).0,
            ps0@[i as int].1,
        ).0);
        match walk(env, &mut ps[i].0) {
            Ok(()) => {},
            Err(e) => {
                proof {
                    lemma_run_pairs_sticky(st0, ps0@, (i + 1) as nat, ps0@.len());
                }
                return Err(e);
            },
        }
        match walk(env, &mut ps[i].1) {
            Ok(()) => {},
            Err(e) => {
                proof {
                    lemma_run_pairs_sticky(st0, ps0@, (i + 1) as nat, ps0@.len());
                }
                return Err(e);
            },
        }
        i = i + 1;
    }
    Ok(())
}

/// Assigns names in every segment of a binary, the value before its
/// options.
fn assign_segments(
    env: &mut ScopeTracker,
    segs: &mut Vec<(SingleExpression, Vec<SingleExpression>)>,
) -> (r: Result<(), SsaError>)
    ensures
        walked(
            r,
            old(env)@,
            final(env)@,
            run_segments(Ok(old(env)@), old(segs)@, old(segs)@.len()),
        ),
        r is Ok ==> named_segments(Ok(old(env)@), old(segs)@, final(segs)@),
    decreases *old(segs), 1nat,
{
    broadcast use group_sticky_errors;

    let ghost st0: PassState = Ok(env@);
    let ghost segs0 = *segs;
    let mut i: usize = 0;
    while i < segs.len()
        invariant
            i <= segs.len(),
            segs@.len() == segs0@.len(),
            segs0 == *old(segs),
            st0 == Ok::<TrackerModel, SsaError>(old(env)@),
            run_segments(st0, segs0@, i as nat) == Ok::<TrackerModel, SsaError>(env@),
            env@.scopes == old(env)@.scopes,
            env@.frames.len() == old(env)@.frames.len(),
            forall|j: int| i <= j < segs0@.len() ==> segs@[j] == segs0@[j],
            forall|j: int|
                0 <= j < i ==> {
                    &&& named(
                        run_segments(st0, segs0@, j as nat),
                        segs0@[j].0,
                        (#[trigger] segs@[j]).0,
                    )
                    &&& named_seq(
                        run(run_segments(st0, segs0@, j as nat), segs0@[j].0).0,
                        segs0@[j].1@,
                        segs@[j].1@,
                    )
                },
        decreases segs.len() - i,
    {
        assert(run_segments(st0, segs0@, (i + 1) as nat) == run_seq(
            run(run_segments(st0, segs0@, i as nat), segs0@[i as int].0).0,
            segs0@[i as int].1@,
            segs0@[i as int].1@.len(),
        ));
        match walk(env, &mut segs[i].0) {
            Ok(()) => {},
            Err(e) => {
                proof {
                    lemma_run_seq_err(
                        run(run_segments(st0, segs0@, i as nat), segs0@[i as int].0).0,
                        segs0@[i as int].1@,
                        segs0@[i as int].1@.len(),
                    );
                    lemma_run_segments_sticky(st0, segs0@, (i + 1) as nat, segs0@.len());
                }
                return Err(e);
            },
        }
        match assign_list(env, &mut segs[i].1) {
            Ok(()) => {},
            Err(e) => {
                proof {
                    lemma_run_segments_sticky(st0, segs0@, (i + 1) as nat, segs0@.len());
                }
                return Err(e);
            },
        }
        i = i + 1;
    }
    Ok(())
}

/// Gives each variable that `p` binds a fresh name and adds the bindings to
/// `scope`.
fn bind_pattern(
    env: &mut ScopeTracker,
    p: &mut Pattern,
    scope: &mut Vec<(ScopeDefinition, SSAVariable)>,
) -> (r: Result<(), SsaError>)
    ensures
        match r {
            Ok(()) => {
                &&& issue_many(Ok(old(env)@), old(p).binds@.len()) == Ok::<TrackerModel, SsaError>(
                    final(env)@,
                )
                &&& scope_view(final(scope)@) == scope_view(old(scope)@) + fresh_scope(
                    pattern_names(*old(p)),
                    old(env)@.next,
                    false,
                )
                &&& named_pattern(*old(p), *final(p), old(env)@.next)
            },
            Err(e) => issue_many(Ok(old(env)@), old(p).binds@.len()) == Err::<TrackerModel, SsaError>(
                e,
            ),
        },
{
    let ghost m0 = env@;
    let ghost p0 = *p;
    let ghost scope0 = scope@;
    proof {
        env.lemma_next_bounded();
    }
    let mut i: usize = 0;
    while i < p.binds.len()
        invariant
            i <= p.binds.len(),
            p.binds@.len() == p0.binds@.len(),
            m0 == old(env)@,
            p0 == *old(p),
            scope0 == old(scope)@,
            env@ == (TrackerModel { next: (m0.next + i) as nat, ..m0 }),
            m0.next + i <= u64::MAX,
            forall|j: int| i <= j < p0.binds@.len() ==> p.binds@[j] == p0.binds@[j],
            forall|j: int|
                0 <= j < i ==> (#[trigger] p.binds@[j]).0 == p0.binds@[j].0 && p.binds@[j].1
                    == SSAVariable((m0.next + j) as u64),
            scope@.len() == scope0.len() + i,
            forall|j: int| 0 <= j < scope0.len() ==> scope@[j] == scope0[j],
            forall|j: int|
                0 <= j < i ==> (#[trigger] scope@[scope0.len() + j]).0@ == var_key(
                    p0.binds@[j].0@,
                ) && scope@[scope0.len() + j].1 == SSAVariable((m0.next + j) as u64),
        decreases p.binds.len() - i,
    {
        let ssa = match env.new_ssa() {
            Some(s) => s,
            None => {
                return Err(SsaError::NamesExhausted);
            },
        };
        p.binds[i].1 = ssa;
        let name = p.binds[i].0.clone();
        scope.push((ScopeDefinition::Variable(name), ssa));
        i = i + 1;
    }
    assert(scope_view(scope@) =~= scope_view(scope0) + fresh_scope(
        pattern_names(p0),
        m0.next,
        false,
    )) by {
        assert forall|j: int| 0 <= j < scope@.len() implies scope_view(scope@)[j] == (scope_view(
            scope0,
        ) + fresh_scope(pattern_names(p0), m0.next, false))[j] by {
            if j >= scope0.len() {
                let k = j - scope0.len();
                assert(scope@[scope0.len() + k].0@ == var_key(p0.binds@[k].0@));
            }
        }
    }
    Ok(())
}

/// Gives every variable that the patterns of a clause bind a fresh name and
/// returns the one scope that binds them all.
fn bind_patterns(env: &mut ScopeTracker, ps: &mut Vec<Pattern>) -> (r: Result<
    Vec<(ScopeDefinition, SSAVariable)>,
    SsaError,
>)
    ensures
        match r {
            Ok(scope) => {
                &&& issue_many(Ok(old(env)@), clause_names(old(ps)@, old(ps)@.len()).len())
                    == Ok::<TrackerModel, SsaError>(final(env)@)
                &&& scope_view(scope@) == fresh_scope(
                    clause_names(old(ps)@, old(ps)@.len()),
                    old(env)@.next,
                    false,
                )
                &&& named_patterns(old(ps)@, final(ps)@, old(env)@.next)
            },
            Err(e) => issue_many(Ok(old(env)@), clause_names(old(ps)@, old(ps)@.len()).len())
                == Err::<TrackerModel, SsaError>(e),
        },
{
    let ghost m0 = env@;
    let ghost ps0 = ps@;
    proof {
        env.lemma_next_bounded();
    }
    let mut scope: Vec<(ScopeDefinition, SSAVariable)> = Vec::new();
    let mut i: usize = 0;
    assert(scope_view(scope@) =~= fresh_scope(clause_names(ps0, 0), m0.next, false));
    while i < ps.len()
        invariant
            i <= ps.len(),
            ps@.len() == ps0.len(),
            m0 == old(env)@,
            ps0 == old(ps)@,
            env@ == (TrackerModel {
                next: (m0.next + clause_names(ps0, i as nat).len()) as nat,
                ..m0
            }),
            m0.next + clause_names(ps0, i as nat).len() <= u64::MAX,
            forall|j: int| i <= j < ps0.len() ==> ps@[j] == ps0[j],
            forall|j: int|
                0 <= j < i ==> named_pattern(
                    ps0[j],
                    #[trigger] ps@[j],
                    m0.next + clause_names(ps0, j as nat).len(),
                ),
            scope_view(scope@) == fresh_scope(clause_names(ps0, i as nat), m0.next, false),
        decreases ps.len() - i,
    {
        let ghost before = clause_names(ps0, i as nat);
        assert(clause_names(ps0, (i + 1) as nat) == before + pattern_names(ps0[i as int]));
        proof {
            lemma_clause_names_grow(ps0, (i + 1) as nat, ps0.len());
        }
        match bind_pattern(env, &mut ps[i], &mut scope) {
            Ok(()) => {},
            Err(e) => {
                return Err(e);
            },
        }
        assert(scope_view(scope@) =~= fresh_scope(
            clause_names(ps0, (i + 1) as nat),
            m0.next,
            false,
        ));
        i = i + 1;
    }
    Ok(scope)
}

/// The variables of the first patterns of a clause are among those of all.
proof fn lemma_clause_names_grow(ps: Seq<Pattern>, k: nat, n: nat)
    requires
        k <= n <= ps.len(),
    ensures
        clause_names(ps, k).len() <= clause_names(ps, n).len(),
    decreases n,
{
    if k < n {
        lemma_clause_names_grow(ps, k, (n - 1) as nat);
    }
}

/// Assigns names in a clause: the variables of its patterns get fresh
/// names, under which the guard and then the body are walked.
fn assign_clause(env: &mut ScopeTracker, c: &mut Clause) -> (r: Result<(), SsaError>)
    ensures
        walked(r, old(env)@, final(env)@, run_clause(Ok(old(env)@), *old(c))),
        r is Ok ==> named_clause(Ok(old(env)@), *old(c), *final(c)),
    decreases *old(c), 1nat,
{
    broadcast use group_sticky_errors;

    let ghost st0: PassState = Ok(env@);
    let ghost c0 = *c;
    let scope = match bind_patterns(env, &mut c.patterns) {
        Ok(s) => s,
        Err(e) => {
            return Err(e);
        },
    };
    env.push_scope(scope);
    let ghost s2: PassState = Ok(env@);
    match walk(env, &mut c.guard) {
        Ok(()) => {},
        Err(e) => {
            return Err(e);
        },
    }
    match walk(env, &mut c.body) {
        Ok(()) => {},
        Err(e) => {
            return Err(e);
        },
    }
    env.pop_scope();
    assert(env@.scopes =~= old(env)@.scopes);
    Ok(())
}

/// Assigns names in every clause, in order.
fn assign_clauses(env: &mut ScopeTracker, cs: &mut Vec<Clause>) -> (r: Result<(), SsaError>)
    ensures
        walked(r, old(env)@, final(env)@, run_clauses(Ok(old(env)@), old(cs)@, old(cs)@.len())),
        r is Ok ==> named_clauses(Ok(old(env)@), old(cs)@, final(cs)@),
    decreases *old(cs), 2nat,
{
    broadcast use group_sticky_errors;

    let ghost st0: PassState = Ok(env@);
    let ghost cs0 = *cs;
    let mut i: usize = 0;
    while i < cs.len()
        invariant
            i <= cs.len(),
            cs@.len() == cs0@.len(),
            cs0 == *old(cs),
            st0 == Ok::<TrackerModel, SsaError>(old(env)@),
            run_clauses(st0, cs0@, i as nat) == Ok::<TrackerModel, SsaError>(env@),
            env@.scopes == old(env)@.scopes,
            env@.frames.len() == old(env)@.frames.len(),
            forall|j: int| i <= j < cs0@.len() ==> cs@[j] == cs0@[j],
            forall|j: int|
                0 <= j < i ==> named_clause(
                    run_clauses(st0, cs0@, j as nat),
                    cs0@[j],
                    #[trigger] cs@[j],
                ),
        decreases cs.len() - i,
    {
        assert(run_clauses(st0, cs0@, (i + 1) as nat) == run_clause(
            run_clauses(st0, cs0@, i as nat),
            cs0@[i as int],
        ));
        match assign_clause(env, &mut cs[i]) {
            Ok(()) => {},
            Err(e) => {
                proof {
                    lemma_run_clauses_sticky(st0, cs0@, (i + 1) as nat, cs0@.len());
                }
                return Err(e);
            },
        }
        i = i + 1;
    }
    Ok(())
}

/// Assigns names in a function: the parameters get fresh names, under
/// which the body is walked.
fn assign_function(env: &mut ScopeTracker, f: &mut FunctionDefinition) -> (r: Result<(), SsaError>)
    ensures
        walked(r, old(env)@, final(env)@, run_function(Ok(old(env)@), *old(f))),
        r is Ok ==> named_function(Ok(old(env)@), *old(f), *final(f)),
    decreases *old(f), 1nat,
{
    broadcast use group_sticky_errors;

    let ghost f0 = *f;
    let scope = match bind_fresh(env, &mut f.args) {
        Ok(s) => s,
        Err(e) => {
            return Err(e);
        },
    };
    env.push_scope(scope);
    match walk(env, &mut f.body) {
        Ok(()) => {},
        Err(e) => {
            return Err(e);
        },
    }
    env.pop_scope();
    assert(env@.scopes =~= old(env)@.scopes);
    Ok(())
}

/// Issues a fresh name for the alias of each closure of a group. Returns the
/// scope that binds the aliases as functions, and the names in order.
fn bind_aliases(env: &mut ScopeTracker, cs: &Vec<AliasedClosure>) -> (r: Result<
    (Vec<(ScopeDefinition, SSAVariable)>, Vec<SSAVariable>),
    SsaError,
>)
    ensures
        match r {
            Ok((scope, names)) => {
                &&& issue_many(Ok(old(env)@), cs@.len()) == Ok::<TrackerModel, SsaError>(
                    final(env)@,
                )
                &&& scope_view(scope@) == fresh_scope(alias_names(cs@), old(env)@.next, true)
                &&& names@.len() == cs@.len()
                &&& forall|i: int|
                    0 <= i < cs@.len() ==> #[trigger] names@[i] == SSAVariable(
                        (old(env)@.next + i) as u64,
                    )
            },
            Err(e) => issue_many(Ok(old(env)@), cs@.len()) == Err::<TrackerModel, SsaError>(e),
        },
{
    let ghost m0 = env@;
    proof {
        env.lemma_next_bounded();
    }
    let mut scope: Vec<(ScopeDefinition, SSAVariable)> = Vec::new();
    let mut names: Vec<SSAVariable> = Vec::new();
    let mut i: usize = 0;
    while i < cs.len()
        invariant
            i <= cs.len(),
            m0 == old(env)@,
            env@ == (TrackerModel { next: (m0.next + i) as nat, ..m0 }),
            m0.next + i <= u64::MAX,
            scope@.len() == i,
            names@.len() == i,
            forall|j: int|
                0 <= j < i ==> (#[trigger] scope@[j]).0@ == fun_key(cs@[j].alias.var@) && scope@[j].1
                    == SSAVariable((m0.next + j) as u64),
            forall|j: int| 0 <= j < i ==> #[trigger] names@[j] == SSAVariable((m0.next + j) as u64),
        decreases cs.len() - i,
    {
        let ssa = match env.new_ssa() {
            Some(s) => s,
            None => {
                return Err(SsaError::NamesExhausted);
            },
        };
        let name = cs[i].alias.var.clone();
        scope.push((ScopeDefinition::Function(name), ssa));
        names.push(ssa);
        i = i + 1;
    }
    assert(scope_view(scope@) =~= fresh_scope(alias_names(cs@), m0.next, true));
    Ok((scope, names))
}

/// Assigns names in the function of every closure of a group, in order.
fn assign_closures(env: &mut ScopeTracker, cs: &mut Vec<AliasedClosure>) -> (r: Result<(), SsaError>)
    ensures
        walked(r, old(env)@, final(env)@, run_closures(Ok(old(env)@), old(cs)@, old(cs)@.len())),
        r is Ok ==> {
            &&& final(cs)@.len() == old(cs)@.len()
            &&& forall|i: int|
                0 <= i < old(cs)@.len() ==> {
                    &&& (#[trigger] final(cs)@[i]).alias == old(cs)@[i].alias
                    &&& final(cs)@[i].closure.env == old(cs)@[i].closure.env
                    &&& named_function(
                        run_closures(Ok(old(env)@), old(cs)@, i as nat),
                        old(cs)@[i].closure.fun,
                        final(cs)@[i].closure.fun,
                    )
                }
        },
    decreases *old(cs), 2nat,
{
    broadcast use group_sticky_errors;

    let ghost st0: PassState = Ok(env@);
    let ghost cs0 = *cs;
    let mut i: usize = 0;
    while i < cs.len()
        invariant
            i <= cs.len(),
            cs@.len() == cs0@.len(),
            cs0 == *old(cs),
            st0 == Ok::<TrackerModel, SsaError>(old(env)@),
            run_closures(st0, cs0@, i as nat) == Ok::<TrackerModel, SsaError>(env@),
            env@.scopes == old(env)@.scopes,
            env@.frames.len() == old(env)@.frames.len(),
            forall|j: int| i <= j < cs0@.len() ==> cs@[j] == cs0@[j],
            forall|j: int|
                0 <= j < i ==> {
                    &&& (#[trigger] cs@[j]).alias == cs0@[j].alias
                    &&& cs@[j].closure.env == cs0@[j].closure.env
                    &&& named_function(
                        run_closures(st0, cs0@, j as nat),
                        cs0@[j].closure.fun,
                        cs@[j].closure.fun,
                    )
                },
        decreases cs.len() - i,
    {
        assert(run_closures(st0, cs0@, (i + 1) as nat) == run_function(
            run_closures(st0, cs0@, i as nat),
            cs0@[i as int].closure.fun,
        ));
        match assign_function(env, &mut cs[i].closure.fun) {
            Ok(()) => {},
            Err(e) => {
                proof {
                    lemma_run_closures_sticky(st0, cs0@, (i + 1) as nat, cs0@.len());
                }
                return Err(e);
            },
        }
        i = i + 1;
    }
    Ok(())
}

/// Records on each closure of a group the name of its alias and the
/// environment of the group.
fn install_group(cs: &mut Vec<AliasedClosure>, names: &Vec<SSAVariable>, idx: LambdaEnvIdx)
    requires
        names@.len() == old(cs)@.len(),
    ensures
        final(cs)@.len() == old(cs)@.len(),
        forall|i: int|
            0 <= i < old(cs)@.len() ==> {
                &&& (#[trigger] final(cs)@[i]).alias.var == old(cs)@[i].alias.var
                &&& final(cs)@[i].alias.ssa == names@[i]
                &&& final(cs)@[i].closure.fun == old(cs)@[i].closure.fun
                &&& final(cs)@[i].closure.env == Some(idx)
            },
{
    let ghost cs0 = cs@;
    let mut i: usize = 0;
    while i < cs.len()
        invariant
            i <= cs.len(),
            cs@.len() == cs0.len(),
            names@.len() == cs0.len(),
            cs0 == old(cs)@,
            forall|j: int| i <= j < cs0.len() ==> cs@[j] == cs0[j],
            forall|j: int|
                0 <= j < i ==> {
                    &&& (#[trigger] cs@[j]).alias.var == cs0[j].alias.var
                    &&& cs@[j].alias.ssa == names@[j]
                    &&& cs@[j].closure.fun == cs0[j].closure.fun
                    &&& cs@[j].closure.env == Some(idx)
                },
        decreases cs.len() - i,
    {
        cs[i].alias.ssa = names[i];
        cs[i].closure.env = Some(idx);
        i = i + 1;
    }
}

/// Names a node without children: a reference to a variable or to a
/// function, or a literal.
fn assign_leaf(env: &mut ScopeTracker, expr: &mut SingleExpression) -> (r: Result<(), SsaError>)
    requires
        old(expr).kind is Variable || old(expr).kind is Atomic || old(expr).kind is NamedFunction
            || old(expr).kind is ExternalNamedFunction,
    ensures
        walked(r, old(env)@, final(env)@, run(Ok(old(env)@), *old(expr)).0),
        r is Ok ==> named(Ok(old(env)@), *old(expr), *final(expr)),
{
    match &mut expr.kind {
        SingleExpressionKind::Variable(var) => {
            let key = ScopeDefinition::Variable(var.var.clone());
            match env.get(&key) {
                Some(ssa) => {
                    var.ssa = ssa;
                    expr.ssa = ssa;
                },
                None => {
                    return Err(SsaError::UnboundVariable);
                },
            }
        },
        SingleExpressionKind::NamedFunction { name, is_lambda } => {
            let key = ScopeDefinition::Function(name.clone());
            match env.get(&key) {
                Some(ssa) => {
                    *is_lambda = true;
                    expr.ssa = ssa;
                },
                None => {
                    *is_lambda = false;
                    match fresh_result(env) {
                        Ok(ssa) => {
                            expr.ssa = ssa;
                        },
                        Err(e) => {
                            return Err(e);
                        },
                    }
                },
            }
        },
        _ => {
            match fresh_result(env) {
                Ok(ssa) => {
                    expr.ssa = ssa;
                },
                Err(e) => {
                    return Err(e);
                },
            }
        },
    }
    Ok(())
}

/// Names a call: its operands first, then its result.
fn assign_call(env: &mut ScopeTracker, expr: &mut SingleExpression) -> (r: Result<(), SsaError>)
    requires
        old(expr).kind is InterModuleCall || old(expr).kind is ApplyCall,
    ensures
        walked(r, old(env)@, final(env)@, run(Ok(old(env)@), *old(expr)).0),
        r is Ok ==> named(Ok(old(env)@), *old(expr), *final(expr)),
    decreases *old(expr), 0nat,
{
    broadcast use group_sticky_errors;

    let ghost st0: PassState = Ok(env@);
    let ghost e0 = *expr;
    match &mut expr.kind {
        SingleExpressionKind::InterModuleCall { module, name, args } => {
            let ghost s1 = run(st0, **module).0;
            let ghost s2 = run(s1, **name).0;
            let ghost s3 = run_seq(s2, args@, args@.len());
            assert(run(st0, e0) == fresh(s3));
            match walk(env, module) {
                Ok(()) => {},
                Err(e) => {
                    return Err(e);
                },
            }
            match walk(env, name) {
                Ok(()) => {},
                Err(e) => {
                    return Err(e);
                },
            }
            match assign_list(env, args) {
                Ok(()) => {},
                Err(e) => {
                    return Err(e);
                },
            }
        },
        SingleExpressionKind::ApplyCall { fun, args } => {
            let ghost s1 = run_seq(st0, args@, args@.len());
            let ghost s2 = run(s1, **fun).0;
            assert(run(st0, e0) == fresh(s2));
            match assign_list(env, args) {
                Ok(()) => {},
                Err(e) => {
                    return Err(e);
                },
            }
            match walk(env, fun) {
                Ok(()) => {},
                Err(e) => {
                    return Err(e);
                },
            }
        },
        _ => {},
    }
    match fresh_result(env) {
        Ok(ssa) => {
            expr.ssa = ssa;
        },
        Err(e) => {
            return Err(e);
        },
    }
    Ok(())
}


/// Names a node that builds a value from its members: the members first,
/// then the result.
fn assign_constructor(env: &mut ScopeTracker, expr: &mut SingleExpression) -> (r: Result<
    (),
    SsaError,
>)
    requires
        old(expr).kind is Tuple || old(expr).kind is List || old(expr).kind is MakeMap || old(
            expr,
        ).kind is Binary || old(expr).kind is PrimOp,
    ensures
        walked(r, old(env)@, final(env)@, run(Ok(old(env)@), *old(expr)).0),
        r is Ok ==> named(Ok(old(env)@), *old(expr), *final(expr)),
    decreases *old(expr), 0nat,
{
    broadcast use group_sticky_errors;

    let ghost st0: PassState = Ok(env@);
    let ghost e0 = *expr;
    match &mut expr.kind {
        SingleExpressionKind::Tuple(vals) => {
            assert(run(st0, e0) == fresh(run_seq(st0, vals@, vals@.len())));
            match assign_list(env, vals) {
                Ok(()) => {},
                Err(e) => {
                    return Err(e);
                },
            }
        },
        SingleExpressionKind::PrimOp { name: _, args } => {
            assert(run(st0, e0) == fresh(run_seq(st0, args@, args@.len())));
            match assign_list(env, args) {
                Ok(()) => {},
                Err(e) => {
                    return Err(e);
                },
            }
        },
        SingleExpressionKind::List { head, tail } => {
            let ghost s1 = run_seq(st0, head@, head@.len());
            let ghost s2 = run(s1, **tail).0;
            assert(run(st0, e0) == fresh(s2));
            match assign_list(env, head) {
                Ok(()) => {},
                Err(e) => {
                    return Err(e);
                },
            }
            match walk(env, tail) {
                Ok(()) => {},
                Err(e) => {
                    return Err(e);
                },
            }
        },
        SingleExpressionKind::MakeMap { values, merge } => {
            let ghost merge0 = *merge;
            let ghost s1 = run_pairs(st0, values@, values@.len());
            let ghost s2 = match merge0 {
                Some(b) => run(s1, *b).0,
                None => s1,
            };
            assert(run(st0, e0) == fresh(s2));
            match assign_pairs(env, values) {
                Ok(()) => {},
                Err(e) => {
                    return Err(e);
                },
            }
            match merge {
                Some(m) => {
                    match walk(env, m) {
                        Ok(()) => {},
                        Err(e) => {
                            return Err(e);
                        },
                    }
                },
                None => {},
            }
        },
        SingleExpressionKind::Binary(elems) => {
            assert(run(st0, e0) == fresh(run_segments(st0, elems@, elems@.len())));
            match assign_segments(env, elems) {
                Ok(()) => {},
                Err(e) => {
                    return Err(e);
                },
            }
        },
        _ => {},
    }
    match fresh_result(env) {
        Ok(ssa) => {
            expr.ssa = ssa;
        },
        Err(e) => {
            return Err(e);
        },
    }
    Ok(())
}

/// Names a `let` or a sequence: the result is that of the last part.
fn assign_binding(env: &mut ScopeTracker, expr: &mut SingleExpression) -> (r: Result<(), SsaError>)
    requires
        old(expr).kind is Let || old(expr).kind is Do,
    ensures
        walked(r, old(env)@, final(env)@, run(Ok(old(env)@), *old(expr)).0),
        r is Ok ==> named(Ok(old(env)@), *old(expr), *final(expr)),
    decreases *old(expr), 0nat,
{
    broadcast use group_sticky_errors;

    let ghost st0: PassState = Ok(env@);
    let ghost e0 = *expr;
    match &mut expr.kind {
        SingleExpressionKind::Do(e1, e2) => {
            let ghost s1 = run_seq(st0, e1.values@, e1.values@.len());
            assert(run(st0, e0) == run(s1, **e2));
            match assign_ssa_expression(env, e1) {
                Ok(()) => {},
                Err(e) => {
                    return Err(e);
                },
            }
            match walk(env, e2) {
                Ok(()) => {},
                Err(e) => {
                    return Err(e);
                },
            }
            expr.ssa = e2.ssa;
        },
        SingleExpressionKind::Let { val, vars, body } => {
            if vars.len() > val.values.len() {
                return Err(SsaError::ArityMismatch);
            }
            let ghost val0 = *val;
            let ghost vars0 = *vars;
            let ghost s1 = run_seq(st0, val0.values@, val0.values@.len());
            let ghost s2 = st_push(s1, bound_scope(st0, vars0@, val0.values@));
            let ghost r3 = run(s2, **body);
            assert(run(st0, e0) == (st_pop(r3.0), r3.1));
            match assign_ssa_expression(env, val) {
                Ok(()) => {},
                Err(e) => {
                    return Err(e);
                },
            }
            let scope = bind_values(vars, &val.values);
            proof {
                lemma_named_seq_names(st0, val0.values@, val.values@);
                assert(scope_view(scope@) =~= bound_scope(st0, vars0@, val0.values@));
            }
            env.push_scope(scope);
            match walk(env, body) {
                Ok(()) => {},
                Err(e) => {
                    return Err(e);
                },
            }
            env.pop_scope();
            assert(env@.scopes =~= old(env)@.scopes);
            expr.ssa = body.ssa;
        },
        _ => {},
    }
    Ok(())
}

/// Names a `try`: the body, the continuation under the body's values, and
/// the handler under fresh names for what was thrown.
fn assign_try(env: &mut ScopeTracker, expr: &mut SingleExpression) -> (r: Result<(), SsaError>)
    requires
        old(expr).kind is Try,
    ensures
        walked(r, old(env)@, final(env)@, run(Ok(old(env)@), *old(expr)).0),
        r is Ok ==> named(Ok(old(env)@), *old(expr), *final(expr)),
    decreases *old(expr), 0nat,
{
    broadcast use group_sticky_errors;

    let ghost st0: PassState = Ok(env@);
    let ghost e0 = *expr;
    match &mut expr.kind {
        SingleExpressionKind::Try { body, then_vars, then, catch_vars, catch } => {
            if then_vars.len() != body.values.len() {
                return Err(SsaError::ArityMismatch);
            }
            let ghost body0 = *body;
            let ghost tv0 = *then_vars;
            let ghost cv0 = *catch_vars;
            let ghost s1 = run_seq(st0, body0.values@, body0.values@.len());
            let ghost s1p = st_push(s1, bound_scope(st0, tv0@, body0.values@));
            let ghost s2 = st_pop(run(s1p, **then).0);
            let ghost s3 = issue_many(s2, cv0@.len());
            let ghost s3p = st_push(s3, fresh_scope(variable_names(cv0@), first_free(s2), false));
            let ghost s4 = st_pop(run(s3p, **catch).0);
            assert(run(st0, e0) == fresh(s4));
            match assign_ssa_expression(env, body) {
                Ok(()) => {},
                Err(e) => {
                    return Err(e);
                },
            }
            let scope = bind_values(then_vars, &body.values);
            proof {
                lemma_named_seq_names(st0, body0.values@, body.values@);
                assert(scope_view(scope@) =~= bound_scope(st0, tv0@, body0.values@));
            }
            env.push_scope(scope);
            match walk(env, then) {
                Ok(()) => {},
                Err(e) => {
                    return Err(e);
                },
            }
            env.pop_scope();
            assert(env@.scopes =~= old(env)@.scopes);
            let scope = match bind_fresh(env, catch_vars) {
                Ok(s) => s,
                Err(e) => {
                    return Err(e);
                },
            };
            env.push_scope(scope);
            match walk(env, catch) {
                Ok(()) => {},
                Err(e) => {
                    return Err(e);
                },
            }
            env.pop_scope();
            assert(env@.scopes =~= old(env)@.scopes);
        },
        _ => {},
    }
    match fresh_result(env) {
        Ok(ssa) => {
            expr.ssa = ssa;
        },
        Err(e) => {
            return Err(e);
        },
    }
    Ok(())
}

/// Names a `case` or a `receive`.
fn assign_match(env: &mut ScopeTracker, expr: &mut SingleExpression) -> (r: Result<(), SsaError>)
    requires
        old(expr).kind is Case || old(expr).kind is Receive,
    ensures
        walked(r, old(env)@, final(env)@, run(Ok(old(env)@), *old(expr)).0),
        r is Ok ==> named(Ok(old(env)@), *old(expr), *final(expr)),
    decreases *old(expr), 0nat,
{
    broadcast use group_sticky_errors;

    let ghost st0: PassState = Ok(env@);
    let ghost e0 = *expr;
    match &mut expr.kind {
        SingleExpressionKind::Case { val, clauses, values } => {
            let ghost s1 = run_seq(st0, val.values@, val.values@.len());
            let ghost s2 = run_seq(s1, values@, values@.len());
            let ghost s3 = run_clauses(s2, clauses@, clauses@.len());
            assert(run(st0, e0) == fresh(s3));
            match assign_ssa_expression(env, val) {
                Ok(()) => {},
                Err(e) => {
                    return Err(e);
                },
            }
            match assign_list(env, values) {
                Ok(()) => {},
                Err(e) => {
                    return Err(e);
                },
            }
            match assign_clauses(env, clauses) {
                Ok(()) => {},
                Err(e) => {
                    return Err(e);
                },
            }
        },
        SingleExpressionKind::Receive { clauses, pattern_values, timeout_time, timeout_body } => {
            let ghost s1 = run_seq(st0, pattern_values@, pattern_values@.len());
            let ghost s2 = run_clauses(s1, clauses@, clauses@.len());
            let ghost s3 = run(s2, **timeout_time).0;
            let ghost s4 = run(s3, **timeout_body).0;
            assert(run(st0, e0) == fresh(s4));
            match assign_list(env, pattern_values) {
                Ok(()) => {},
                Err(e) => {
                    return Err(e);
                },
            }
            match assign_clauses(env, clauses) {
                Ok(()) => {},
                Err(e) => {
                    return Err(e);
                },
            }
            match walk(env, timeout_time) {
                Ok(()) => {},
                Err(e) => {
                    return Err(e);
                },
            }
            match walk(env, timeout_body) {
                Ok(()) => {},
                Err(e) => {
                    return Err(e);
                },
            }
        },
        _ => {},
    }
    match fresh_result(env) {
        Ok(ssa) => {
            expr.ssa = ssa;
        },
        Err(e) => {
            return Err(e);
        },
    }
    Ok(())
}

/// Names a closure and registers its environment: the variables that its
/// body refers to and that are bound outside of it.
fn assign_closure(env: &mut ScopeTracker, expr: &mut SingleExpression) -> (r: Result<(), SsaError>)
    requires
        old(expr).kind is BindClosure,
    ensures
        walked(r, old(env)@, final(env)@, run(Ok(old(env)@), *old(expr)).0),
        r is Ok ==> named(Ok(old(env)@), *old(expr), *final(expr)),
    decreases *old(expr), 0nat,
{
    broadcast use group_sticky_errors;

    let ghost st0: PassState = Ok(env@);
    let ghost e0 = *expr;
    match &mut expr.kind {
        SingleExpressionKind::BindClosure { closure, lambda_env, env_ssa } => {
            let ghost s1 = run_function(st_push_tracking(st0), closure.fun);
            let ghost s2 = st_close_env(s1);
            let ghost s3 = fresh(s2).0;
            assert(run(st0, e0) == fresh(s3));
            env.push_tracking();
            match assign_function(env, &mut closure.fun) {
                Ok(()) => {},
                Err(e) => {
                    return Err(e);
                },
            }
            let captures = env.pop_tracking();
            let record = LambdaEnv { captures: captures, meta_binds: Vec::new() };
            assert(record@.meta_binds =~= Seq::<Seq<char>>::empty());
            let idx = env.add_lambda_env(record);
            assert(Ok::<TrackerModel, SsaError>(env@) == s2);
            *lambda_env = Some(idx);
            closure.env = Some(idx);
            match fresh_result(env) {
                Ok(ssa) => {
                    *env_ssa = ssa;
                },
                Err(e) => {
                    return Err(e);
                },
            }
        },
        _ => {},
    }
    match fresh_result(env) {
        Ok(ssa) => {
            expr.ssa = ssa;
        },
        Err(e) => {
            return Err(e);
        },
    }
    Ok(())
}

/// Names a group of mutually recursive closures. The aliases are in scope
/// in every body and in the expression that follows; the group shares one
/// environment.
fn assign_closure_group(env: &mut ScopeTracker, expr: &mut SingleExpression) -> (r: Result<
    (),
    SsaError,
>)
    requires
        old(expr).kind is BindClosures,
    ensures
        walked(r, old(env)@, final(env)@, run(Ok(old(env)@), *old(expr)).0),
        r is Ok ==> named(Ok(old(env)@), *old(expr), *final(expr)),
    decreases *old(expr), 0nat,
{
    broadcast use group_sticky_errors;

    let ghost st0: PassState = Ok(env@);
    let ghost e0 = *expr;
    match &mut expr.kind {
        SingleExpressionKind::BindClosures { closures, body, lambda_env, env_ssa } => {
            let ghost c0 = *closures;
            let ghost s1 = st_push(
                issue_many(st0, c0@.len()),
                fresh_scope(alias_names(c0@), first_free(st0), true),
            );
            let ghost s2 = run_closures(st_push_tracking(s1), c0@, c0@.len());
            let ghost s2c = st_close_env(s2);
            let ghost s3 = st_pop(run(s2c, **body).0);
            let ghost s4 = fresh(s3).0;
            assert(run(st0, e0) == fresh(s4));
            let (scope, names) = match bind_aliases(env, closures) {
                Ok(s) => s,
                Err(e) => {
                    return Err(e);
                },
            };
            env.push_scope(scope);
            env.push_tracking();
            match assign_closures(env, closures) {
                Ok(()) => {},
                Err(e) => {
                    return Err(e);
                },
            }
            let captures = env.pop_tracking();
            let record = LambdaEnv { captures: captures, meta_binds: Vec::new() };
            assert(record@.meta_binds =~= Seq::<Seq<char>>::empty());
            let idx = env.add_lambda_env(record);
            assert(Ok::<TrackerModel, SsaError>(env@) == s2c);
            *lambda_env = Some(idx);
            install_group(closures, &names, idx);
            assert(named_closures(
                st_push_tracking(s1),
                c0@,
                closures@,
                first_free(st0),
                st_env_index(s2),
            ));
            match walk(env, body) {
                Ok(()) => {},
                Err(e) => {
                    return Err(e);
                },
            }
            env.pop_scope();
            assert(env@.scopes =~= old(env)@.scopes);
            assert(env@.frames.len() == old(env)@.frames.len());
            match fresh_result(env) {
                Ok(ssa) => {
                    *env_ssa = ssa;
                },
                Err(e) => {
                    return Err(e);
                },
            }
        },
        _ => {},
    }
    match fresh_result(env) {
        Ok(ssa) => {
            expr.ssa = ssa;
        },
        Err(e) => {
            return Err(e);
        },
    }
    Ok(())
}

/// Walks `expr` and everything below it.
fn walk(env: &mut ScopeTracker, expr: &mut SingleExpression) -> (r: Result<(), SsaError>)
    ensures
        walked(r, old(env)@, final(env)@, run(Ok(old(env)@), *old(expr)).0),
        r is Ok ==> named(Ok(old(env)@), *old(expr), *final(expr)),
    decreases *old(expr), 1nat,
{
    match expr.kind {
        SingleExpressionKind::Variable(_)
        | SingleExpressionKind::Atomic(_)
        | SingleExpressionKind::NamedFunction { .. }
        | SingleExpressionKind::ExternalNamedFunction { .. } => assign_leaf(env, expr),
        SingleExpressionKind::InterModuleCall { .. } | SingleExpressionKind::ApplyCall { .. } => assign_call(
            env,
            expr,
        ),
        SingleExpressionKind::Tuple(_)
        | SingleExpressionKind::List { .. }
        | SingleExpressionKind::MakeMap { .. }
        | SingleExpressionKind::Binary(_)
        | SingleExpressionKind::PrimOp { .. } => assign_constructor(env, expr),
        SingleExpressionKind::Let { .. } | SingleExpressionKind::Do(_, _) => assign_binding(env, expr),
        SingleExpressionKind::Try { .. } => assign_try(env, expr),
        SingleExpressionKind::Case { .. } | SingleExpressionKind::Receive { .. } => assign_match(
            env,
            expr,
        ),
        SingleExpressionKind::BindClosure { .. } => assign_closure(env, expr),
        SingleExpressionKind::BindClosures { .. } => assign_closure_group(env, expr),
    }
}

/// Assigns names in `expr` and everything below it: every node and every
/// binding occurrence gets its name, every reference the name of its
/// innermost enclosing binding, and every closure its environment.
///
/// The walk fails on a reference that no enclosing scope binds, on a binding
/// whose arity does not match the values bound, and when the names run out.
/// What it leaves of `expr` and `env` when it fails is of no use.
///
/// After the walk the scope stack of `env` is as it was, and where the open
/// frames of `env` fit its scope stack, every reference in `expr` carries
/// the name of its innermost enclosing binding and every open frame has
/// recorded the free references of `expr`.
pub fn assign_ssa_single_expression(env: &mut ScopeTracker, expr: &mut SingleExpression) -> (r:
    Result<(), SsaError>)
    ensures
        walked(r, old(env)@, final(env)@, run(Ok(old(env)@), *old(expr)).0),
        r is Ok ==> named(Ok(old(env)@), *old(expr), *final(expr)),
        r is Ok && frames_fit(old(env)@) ==> well_scoped(*final(expr), old(env)@.scopes) && effect(
            old(env)@,
            Ok(final(env)@),
            free_refs(*old(expr)),
        ),
{
    let r = walk(env, expr);
    proof {
        if r is Ok && frames_fit(old(env)@) {
            lemma_well_scoped(old(env)@, *old(expr), *expr);
            lemma_effect(old(env)@, *old(expr));
        }
    }
    r
}

} // verus!

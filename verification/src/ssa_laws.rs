//! What holds of scope lowering for every tree: the scope stack is left as
//! it was found, and a closure captures exactly the variables that its body
//! refers to and that are bound outside of it.

use vstd::prelude::*;
use crate::ssa_variable::SSAVariable;
use crate::scope_tracker::{CaptureModel, FrameModel, ScopeKey, TrackerModel, lookup_scope, resolve};
use crate::hir::{
    AVariable, AliasedClosure, Clause, FunctionDefinition, Pattern, SingleExpression,
    SingleExpressionKind,
};
use crate::ssa_model::{
    PassState, alias_names, bound_scope, clause_names, clause_scope, first_free, fresh,
    fresh_scope, fun_key, function_scope, issue_many, run, run_clause, run_clauses, run_closures,
    run_function, run_pairs, run_segments, run_seq, st_close_env, st_pop, st_push,
    st_push_tracking, var_key, variable_names, named, named_seq, named_pairs, named_segments,
    named_clause, named_clauses, named_function, named_closures, named_bound, named_fresh,
    named_pattern, named_patterns, pattern_names, name_in_seq, st_env_index, lemma_named_seq_names,
    lemma_run_seq_sticky, lemma_run_pairs_sticky, lemma_run_segments_sticky,
    lemma_run_clauses_sticky, lemma_run_closures_sticky,
};

verus! {

/// The keys that a scope binds, in the order of its bindings.
pub open spec fn scope_keys(s: Seq<(ScopeKey, SSAVariable)>) -> Seq<ScopeKey> {
    Seq::new(s.len(), |i: int| s[i].0)
}

/// The keys of a list of names, all of one kind.
pub open spec fn keys_of(names: Seq<Seq<char>>, function: bool) -> Seq<ScopeKey> {
    Seq::new(names.len(), |i: int| ScopeKey { function: function, name: names[i] })
}

/// Those of `refs` that `bound` does not bind, in order.
pub open spec fn remove_bound(refs: Seq<ScopeKey>, bound: Seq<ScopeKey>) -> Seq<ScopeKey>
    decreases refs.len(),
{
    if refs.len() == 0 {
        Seq::empty()
    } else if bound.contains(refs.last()) {
        remove_bound(refs.drop_last(), bound)
    } else {
        remove_bound(refs.drop_last(), bound).push(refs.last())
    }
}

/// The references of `e` to names that `e` itself does not bind, in the
/// order in which the walk meets them. A name is referred to by a variable
/// or by a function reference.
pub open spec fn free_refs(e: SingleExpression) -> Seq<ScopeKey>
    decreases e, 0nat,
{
    match e.kind {
        SingleExpressionKind::Variable(v) => seq![var_key(v.var@)],
        SingleExpressionKind::InterModuleCall { module, name, args } => free_refs(*module)
            + free_refs(*name) + free_refs_seq(args@, args@.len()),
        SingleExpressionKind::ApplyCall { fun, args } => free_refs_seq(args@, args@.len())
            + free_refs(*fun),
        SingleExpressionKind::Let { val, vars, body } => free_refs_seq(
            val.values@,
            val.values@.len(),
        ) + remove_bound(free_refs(*body), keys_of(variable_names(vars@), false)),
        SingleExpressionKind::Try { body, then_vars, then, catch_vars, catch } => free_refs_seq(
            body.values@,
            body.values@.len(),
        ) + remove_bound(free_refs(*then), keys_of(variable_names(then_vars@), false))
            + remove_bound(free_refs(*catch), keys_of(variable_names(catch_vars@), false)),
        SingleExpressionKind::Case { val, clauses, values } => free_refs_seq(
            val.values@,
            val.values@.len(),
        ) + free_refs_seq(values@, values@.len()) + free_refs_clauses(clauses@, clauses@.len()),
        SingleExpressionKind::Atomic(_) => Seq::empty(),
        SingleExpressionKind::NamedFunction { name, is_lambda } => seq![fun_key(name@)],
        SingleExpressionKind::ExternalNamedFunction { module, name } => Seq::empty(),
        SingleExpressionKind::Tuple(vals) => free_refs_seq(vals@, vals@.len()),
        SingleExpressionKind::List { head, tail } => free_refs_seq(head@, head@.len())
            + free_refs(*tail),
        SingleExpressionKind::MakeMap { values, merge } => free_refs_pairs(values@, values@.len())
            + (match merge {
            Some(b) => free_refs(*b),
            None => Seq::empty(),
        }),
        SingleExpressionKind::Binary(elems) => free_refs_segments(elems@, elems@.len()),
        SingleExpressionKind::PrimOp { name, args } => free_refs_seq(args@, args@.len()),
        SingleExpressionKind::Do(e1, e2) => free_refs_seq(e1.values@, e1.values@.len())
            + free_refs(*e2),
        SingleExpressionKind::Receive { clauses, pattern_values, timeout_time, timeout_body } => free_refs_seq(
            pattern_values@,
            pattern_values@.len(),
        ) + free_refs_clauses(clauses@, clauses@.len()) + free_refs(*timeout_time) + free_refs(
            *timeout_body,
        ),
        SingleExpressionKind::BindClosure { closure, lambda_env, env_ssa } => free_refs_function(
            closure.fun,
        ),
        SingleExpressionKind::BindClosures { closures, body, lambda_env, env_ssa } => remove_bound(
            free_refs_closures(closures@, closures@.len()) + free_refs(*body),
            keys_of(alias_names(closures@), true),
        ),
    }
}

/// The free references of the first `k` members of a list.
pub open spec fn free_refs_seq(es: Seq<SingleExpression>, k: nat) -> Seq<ScopeKey>
    decreases es, k,
{
    if k == 0 || k > es.len() {
        Seq::empty()
    } else {
        free_refs_seq(es, (k - 1) as nat) + free_refs(es[k - 1])
    }
}

/// The free references of the first `k` pairs.
pub open spec fn free_refs_pairs(ps: Seq<(SingleExpression, SingleExpression)>, k: nat) -> Seq<
    ScopeKey,
>
    decreases ps, k,
{
    if k == 0 || k > ps.len() {
        Seq::empty()
    } else {
        free_refs_pairs(ps, (k - 1) as nat) + free_refs(ps[k - 1].0) + free_refs(ps[k - 1].1)
    }
}

/// The free references of the first `k` segments of a binary.
pub open spec fn free_refs_segments(segs: Seq<(SingleExpression, Vec<SingleExpression>)>, k: nat) -> Seq<
    ScopeKey,
>
    decreases segs, k,
{
    if k == 0 || k > segs.len() {
        Seq::empty()
    } else {
        free_refs_segments(segs, (k - 1) as nat) + free_refs(segs[k - 1].0) + free_refs_seq(
            segs[k - 1].1@,
            segs[k - 1].1@.len(),
        )
    }
}

/// The free references of a clause: those of its guard and body that its
/// patterns do not bind.
pub open spec fn free_refs_clause(c: Clause) -> Seq<ScopeKey>
    decreases c, 0nat,
{
    remove_bound(
        free_refs(c.guard) + free_refs(c.body),
        keys_of(clause_names(c.patterns@, c.patterns@.len()), false),
    )
}

/// The free references of the first `k` clauses.
pub open spec fn free_refs_clauses(cs: Seq<Clause>, k: nat) -> Seq<ScopeKey>
    decreases cs, k,
{
    if k == 0 || k > cs.len() {
        Seq::empty()
    } else {
        free_refs_clauses(cs, (k - 1) as nat) + free_refs_clause(cs[k - 1])
    }
}

/// The free references of a function: those of its body that are no
/// parameters.
pub open spec fn free_refs_function(f: FunctionDefinition) -> Seq<ScopeKey>
    decreases f, 0nat,
{
    remove_bound(free_refs(*f.body), keys_of(variable_names(f.args@), false))
}

/// The free references of the functions of the first `k` closures of a
/// group.
pub open spec fn free_refs_closures(cs: Seq<AliasedClosure>, k: nat) -> Seq<ScopeKey>
    decreases cs, k,
{
    if k == 0 || k > cs.len() {
        Seq::empty()
    } else {
        free_refs_closures(cs, (k - 1) as nat) + free_refs_function(cs[k - 1].closure.fun)
    }
}

/// The frame after the lookups of `keys`, in order, in the scope stack
/// `scopes`.
pub open spec fn absorb_one(f: FrameModel, scopes: Seq<Seq<(ScopeKey, SSAVariable)>>, keys: Seq<
    ScopeKey,
>) -> FrameModel
    decreases keys.len(),
{
    if keys.len() == 0 {
        f
    } else {
        let g = absorb_one(f, scopes, keys.drop_last());
        match resolve(scopes, keys.last()) {
            Some((d, v)) => g.record(d, keys.last(), v),
            None => g,
        }
    }
}

/// The frames after the lookups of `keys`, in order.
pub open spec fn absorb(
    fs: Seq<FrameModel>,
    scopes: Seq<Seq<(ScopeKey, SSAVariable)>>,
    keys: Seq<ScopeKey>,
) -> Seq<FrameModel> {
    Seq::new(fs.len(), |i: int| absorb_one(fs[i], scopes, keys))
}

/// What a closure captures whose body refers freely to `keys` and that is
/// bound where the scope stack is `scopes`: of the value variables among
/// `keys` that `scopes` binds, each once, in the order in which they are
/// first met, with the name that `scopes` gives them.
pub open spec fn capture_list(scopes: Seq<Seq<(ScopeKey, SSAVariable)>>, keys: Seq<ScopeKey>) -> Seq<
    CaptureModel,
> {
    absorb_one(FrameModel { start: scopes.len(), captures: Seq::empty() }, scopes, keys).captures
}

/// Whether every open frame was opened at a height that the scope stack
/// still has.
pub open spec fn frames_fit(m: TrackerModel) -> bool {
    forall|i: int| 0 <= i < m.frames.len() ==> (#[trigger] m.frames[i]).start <= m.scopes.len()
}

/// What a walk does to the tracker: the scope stack is as before; every
/// open frame has recorded the free references `refs` of what was walked;
/// names were issued and environments registered, none taken back.
pub open spec fn effect(m: TrackerModel, st: PassState, refs: Seq<ScopeKey>) -> bool {
    st matches Ok(m1) ==> {
        &&& m1.scopes == m.scopes
        &&& m1.frames == absorb(m.frames, m.scopes, refs)
        &&& m1.next >= m.next
        &&& m1.envs.len() >= m.envs.len()
        &&& forall|i: int| 0 <= i < m.envs.len() ==> #[trigger] m1.envs[i] == m.envs[i]
    }
}

/// Lookups leave a frame where it was opened and add to its captures.
pub proof fn lemma_absorb_one_start(
    f: FrameModel,
    scopes: Seq<Seq<(ScopeKey, SSAVariable)>>,
    keys: Seq<ScopeKey>,
)
    ensures
        absorb_one(f, scopes, keys).start == f.start,
        absorb_one(f, scopes, keys).captures.len() >= f.captures.len(),
        forall|i: int|
            0 <= i < f.captures.len() ==> #[trigger] absorb_one(f, scopes, keys).captures[i]
                == f.captures[i],
    decreases keys.len(),
{
    if keys.len() > 0 {
        lemma_absorb_one_start(f, scopes, keys.drop_last());
    }
}

/// Lookups one after the other are the lookups of the one list after the
/// other.
pub proof fn lemma_absorb_one_concat(
    f: FrameModel,
    scopes: Seq<Seq<(ScopeKey, SSAVariable)>>,
    a: Seq<ScopeKey>,
    b: Seq<ScopeKey>,
)
    ensures
        absorb_one(f, scopes, a + b) == absorb_one(absorb_one(f, scopes, a), scopes, b),
    decreases b.len(),
{
    if b.len() == 0 {
        assert(a + b =~= a);
    } else {
        lemma_absorb_one_concat(f, scopes, a, b.drop_last());
        assert((a + b).drop_last() =~= a + b.drop_last());
        assert((a + b).last() == b.last());
    }
}

/// Lookups one after the other are the lookups of the one list after the
/// other, for every frame.
pub proof fn lemma_absorb_concat(
    fs: Seq<FrameModel>,
    scopes: Seq<Seq<(ScopeKey, SSAVariable)>>,
    a: Seq<ScopeKey>,
    b: Seq<ScopeKey>,
)
    ensures
        absorb(fs, scopes, a + b) == absorb(absorb(fs, scopes, a), scopes, b),
{
    assert forall|i: int| 0 <= i < fs.len() implies absorb_one(fs[i], scopes, a + b) == absorb_one(
        absorb_one(fs[i], scopes, a),
        scopes,
        b,
    ) by {
        lemma_absorb_one_concat(fs[i], scopes, a, b);
    }
    assert(absorb(fs, scopes, a + b) =~= absorb(absorb(fs, scopes, a), scopes, b));
}

/// No lookup changes no frame.
pub proof fn lemma_absorb_empty(fs: Seq<FrameModel>, scopes: Seq<Seq<(ScopeKey, SSAVariable)>>)
    ensures
        absorb(fs, scopes, Seq::empty()) == fs,
{
    assert(absorb(fs, scopes, Seq::empty()) =~= fs);
}

/// A scope binds a key exactly if the key is among its keys.
pub proof fn lemma_lookup_scope_keys(s: Seq<(ScopeKey, SSAVariable)>, key: ScopeKey)
    ensures
        lookup_scope(s, key) is Some <==> scope_keys(s).contains(key),
    decreases s.len(),
{
    if s.len() > 0 {
        lemma_lookup_scope_keys(s.drop_last(), key);
        if s.last().0 == key {
            assert(scope_keys(s)[s.len() - 1] == key);
        } else {
            if scope_keys(s).contains(key) {
                let i = choose|i: int| 0 <= i < scope_keys(s).len() && scope_keys(s)[i] == key;
                assert(scope_keys(s.drop_last())[i] == key);
            }
            if scope_keys(s.drop_last()).contains(key) {
                let i = choose|i: int|
                    0 <= i < scope_keys(s.drop_last()).len() && scope_keys(s.drop_last())[i] == key;
                assert(scope_keys(s)[i] == key);
            }
        }
    }
}

/// Under one more scope a frame records what it records without that
/// scope of the references that the scope does not bind: what the scope
/// binds is bound inside the frame.
pub proof fn lemma_absorb_one_push(
    f: FrameModel,
    scopes: Seq<Seq<(ScopeKey, SSAVariable)>>,
    s: Seq<(ScopeKey, SSAVariable)>,
    keys: Seq<ScopeKey>,
)
    requires
        f.start <= scopes.len(),
    ensures
        absorb_one(f, scopes.push(s), keys) == absorb_one(
            f,
            scopes,
            remove_bound(keys, scope_keys(s)),
        ),
    decreases keys.len(),
{
    if keys.len() > 0 {
        lemma_absorb_one_push(f, scopes, s, keys.drop_last());
        let k = keys.last();
        lemma_lookup_scope_keys(s, k);
        lemma_absorb_one_start(f, scopes.push(s), keys.drop_last());
        assert(scopes.push(s).drop_last() =~= scopes);
        assert(scopes.push(s).last() == s);
        if scope_keys(s).contains(k) {
        } else {
            let rest = remove_bound(keys.drop_last(), scope_keys(s));
            assert(rest.push(k).drop_last() =~= rest);
        }
    }
}

/// Under one more scope every frame records what it records without that
/// scope of the references that the scope does not bind.
pub proof fn lemma_absorb_push(
    fs: Seq<FrameModel>,
    scopes: Seq<Seq<(ScopeKey, SSAVariable)>>,
    s: Seq<(ScopeKey, SSAVariable)>,
    keys: Seq<ScopeKey>,
)
    requires
        forall|i: int| 0 <= i < fs.len() ==> (#[trigger] fs[i]).start <= scopes.len(),
    ensures
        absorb(fs, scopes.push(s), keys) == absorb(fs, scopes, remove_bound(keys, scope_keys(s))),
{
    assert forall|i: int| 0 <= i < fs.len() implies absorb_one(fs[i], scopes.push(s), keys)
        == absorb_one(fs[i], scopes, remove_bound(keys, scope_keys(s))) by {
        lemma_absorb_one_push(fs[i], scopes, s, keys);
    }
    assert(absorb(fs, scopes.push(s), keys) =~= absorb(
        fs,
        scopes,
        remove_bound(keys, scope_keys(s)),
    ));
}

/// A lookup changes the frames as the model of the tracker says.
pub proof fn lemma_get_is_absorb(m: TrackerModel, key: ScopeKey)
    ensures
        m.get_state(key).frames == absorb(m.frames, m.scopes, seq![key]),
        m.get_state(key).scopes == m.scopes,
        m.get_state(key).next == m.next,
        m.get_state(key).envs == m.envs,
{
    let keys = seq![key];
    assert(keys.drop_last() =~= Seq::<ScopeKey>::empty());
    assert(keys.last() == key);
    assert forall|i: int| 0 <= i < m.frames.len() implies m.get_state(key).frames[i] == absorb_one(
        m.frames[i],
        m.scopes,
        keys,
    ) by {
        assert(absorb_one(m.frames[i], m.scopes, keys.drop_last()) == m.frames[i]);
    }
    assert(m.get_state(key).frames =~= absorb(m.frames, m.scopes, keys));
}

/// After a walk the open frames still fit the scope stack.
pub proof fn lemma_fit_after(m: TrackerModel, m1: TrackerModel, refs: Seq<ScopeKey>)
    requires
        frames_fit(m),
        effect(m, Ok(m1), refs),
    ensures
        frames_fit(m1),
{
    assert forall|i: int| 0 <= i < m1.frames.len() implies (#[trigger] m1.frames[i]).start
        <= m1.scopes.len() by {
        lemma_absorb_one_start(m.frames[i], m.scopes, refs);
        assert(m.frames[i].start <= m.scopes.len());
    }
}

/// The effect of one walk after another is the effect of both.
pub proof fn lemma_chain(
    m: TrackerModel,
    m1: TrackerModel,
    st2: PassState,
    a: Seq<ScopeKey>,
    b: Seq<ScopeKey>,
)
    requires
        effect(m, Ok(m1), a),
        effect(m1, st2, b),
    ensures
        effect(m, st2, a + b),
{
    lemma_absorb_concat(m.frames, m.scopes, a, b);
}

/// Issuing names has no effect but on the names.
pub proof fn lemma_issue_after(m: TrackerModel, st: PassState, refs: Seq<ScopeKey>, n: nat)
    requires
        effect(m, st, refs),
    ensures
        effect(m, issue_many(st, n), refs),
        effect(m, fresh(st).0, refs),
{
}

/// No walk has no effect.
pub proof fn lemma_start(m: TrackerModel)
    ensures
        effect(m, Ok(m), Seq::empty()),
{
    lemma_absorb_empty(m.frames, m.scopes);
}

/// A walk under one more scope has, once the scope is left, the effect of
/// the references that the scope does not bind.
pub proof fn lemma_scoped(
    m: TrackerModel,
    s: Seq<(ScopeKey, SSAVariable)>,
    st2: PassState,
    refs: Seq<ScopeKey>,
)
    requires
        frames_fit(m),
        effect(m.push_scope(s), st2, refs),
    ensures
        effect(m, st_pop(st2), remove_bound(refs, scope_keys(s))),
{
    lemma_absorb_push(m.frames, m.scopes, s, refs);
    assert(m.scopes.push(s).drop_last() =~= m.scopes);
}

/// The keys of a scope of fresh names are the names it binds.
pub proof fn lemma_fresh_scope_keys(names: Seq<Seq<char>>, first: nat, function: bool)
    ensures
        scope_keys(fresh_scope(names, first, function)) == keys_of(names, function),
{
    assert(scope_keys(fresh_scope(names, first, function)) =~= keys_of(names, function));
}

/// The keys of a scope of bound values are the variables it binds.
pub proof fn lemma_bound_scope_keys(st: PassState, vars: Seq<AVariable>, vals: Seq<SingleExpression>)
    ensures
        scope_keys(bound_scope(st, vars, vals)) == keys_of(variable_names(vars), false),
{
    assert(scope_keys(bound_scope(st, vars, vals)) =~= keys_of(variable_names(vars), false));
}

/// The effect of the walk of `e` after a walk with the effect of `a`.
pub proof fn lemma_then_run(m: TrackerModel, st1: PassState, a: Seq<ScopeKey>, e: SingleExpression)
    requires
        frames_fit(m),
        effect(m, st1, a),
    ensures
        effect(m, run(st1, e).0, a + free_refs(e)),
    decreases e, 2nat,
{
    broadcast use crate::ssa_model::group_sticky_errors;

    match st1 {
        Ok(m1) => {
            lemma_fit_after(m, m1, a);
            lemma_effect(m1, e);
            lemma_chain(m, m1, run(st1, e).0, a, free_refs(e));
        },
        Err(_) => {},
    }
}

/// The effect of the walk of `e` under the scope `s`, which is then left.
pub proof fn lemma_then_scoped(
    m: TrackerModel,
    st1: PassState,
    a: Seq<ScopeKey>,
    s: Seq<(ScopeKey, SSAVariable)>,
    e: SingleExpression,
)
    requires
        frames_fit(m),
        effect(m, st1, a),
    ensures
        effect(
            m,
            st_pop(run(st_push(st1, s), e).0),
            a + remove_bound(free_refs(e), scope_keys(s)),
        ),
    decreases e, 2nat,
{
    broadcast use crate::ssa_model::group_sticky_errors;

    match st1 {
        Ok(m1) => {
            lemma_fit_after(m, m1, a);
            let mp = m1.push_scope(s);
            assert(frames_fit(mp));
            lemma_effect(mp, e);
            lemma_scoped(m1, s, run(Ok(mp), e).0, free_refs(e));
            lemma_chain(
                m,
                m1,
                st_pop(run(Ok(mp), e).0),
                a,
                remove_bound(free_refs(e), scope_keys(s)),
            );
        },
        Err(_) => {},
    }
}

/// The effect of the walk of the first `k` members of a list after a walk
/// with the effect of `a`.
pub proof fn lemma_then_seq(
    m: TrackerModel,
    st1: PassState,
    a: Seq<ScopeKey>,
    es: Seq<SingleExpression>,
    k: nat,
)
    requires
        frames_fit(m),
        effect(m, st1, a),
    ensures
        effect(m, run_seq(st1, es, k), a + free_refs_seq(es, k)),
    decreases es, k,
{
    if k == 0 || k > es.len() {
        assert(a + free_refs_seq(es, k) =~= a);
    } else {
        lemma_then_seq(m, st1, a, es, (k - 1) as nat);
        lemma_then_run(
            m,
            run_seq(st1, es, (k - 1) as nat),
            a + free_refs_seq(es, (k - 1) as nat),
            es[k - 1],
        );
        assert(run_seq(st1, es, k) == run(run_seq(st1, es, (k - 1) as nat), es[k - 1]).0);
        assert(a + free_refs_seq(es, k) =~= a + free_refs_seq(es, (k - 1) as nat) + free_refs(
            es[k - 1],
        ));
    }
}

/// The effect of the walk of the first `k` pairs after a walk with the
/// effect of `a`.
pub proof fn lemma_then_pairs(
    m: TrackerModel,
    st1: PassState,
    a: Seq<ScopeKey>,
    ps: Seq<(SingleExpression, SingleExpression)>,
    k: nat,
)
    requires
        frames_fit(m),
        effect(m, st1, a),
    ensures
        effect(m, run_pairs(st1, ps, k), a + free_refs_pairs(ps, k)),
    decreases ps, k,
{
    if k == 0 || k > ps.len() {
        assert(a + free_refs_pairs(ps, k) =~= a);
    } else {
        lemma_then_pairs(m, st1, a, ps, (k - 1) as nat);
        let s0 = run_pairs(st1, ps, (k - 1) as nat);
        let r0 = a + free_refs_pairs(ps, (k - 1) as nat);
        lemma_then_run(m, s0, r0, ps[k - 1].0);
        lemma_then_run(m, run(s0, ps[k - 1].0).0, r0 + free_refs(ps[k - 1].0), ps[k - 1].1);
        assert(run_pairs(st1, ps, k) == run(run(s0, ps[k - 1].0).0, ps[k - 1].1).0);
        assert(a + free_refs_pairs(ps, k) =~= r0 + free_refs(ps[k - 1].0) + free_refs(
            ps[k - 1].1,
        ));
    }
}

/// The effect of the walk of the first `k` segments after a walk with the
/// effect of `a`.
pub proof fn lemma_then_segments(
    m: TrackerModel,
    st1: PassState,
    a: Seq<ScopeKey>,
    segs: Seq<(SingleExpression, Vec<SingleExpression>)>,
    k: nat,
)
    requires
        frames_fit(m),
        effect(m, st1, a),
    ensures
        effect(m, run_segments(st1, segs, k), a + free_refs_segments(segs, k)),
    decreases segs, k,
{
    if k == 0 || k > segs.len() {
        assert(a + free_refs_segments(segs, k) =~= a);
    } else {
        lemma_then_segments(m, st1, a, segs, (k - 1) as nat);
        let s0 = run_segments(st1, segs, (k - 1) as nat);
        let r0 = a + free_refs_segments(segs, (k - 1) as nat);
        lemma_then_run(m, s0, r0, segs[k - 1].0);
        lemma_then_seq(
            m,
            run(s0, segs[k - 1].0).0,
            r0 + free_refs(segs[k - 1].0),
            segs[k - 1].1@,
            segs[k - 1].1@.len(),
        );
        assert(run_segments(st1, segs, k) == run_seq(
            run(s0, segs[k - 1].0).0,
            segs[k - 1].1@,
            segs[k - 1].1@.len(),
        ));
        assert(a + free_refs_segments(segs, k) =~= r0 + free_refs(segs[k - 1].0) + free_refs_seq(
            segs[k - 1].1@,
            segs[k - 1].1@.len(),
        ));
    }
}

/// The effect of the walk of a clause after a walk with the effect of `a`.
pub proof fn lemma_then_clause(m: TrackerModel, st1: PassState, a: Seq<ScopeKey>, c: Clause)
    requires
        frames_fit(m),
        effect(m, st1, a),
    ensures
        effect(m, run_clause(st1, c), a + free_refs_clause(c)),
    decreases c, 1nat,
{
    broadcast use crate::ssa_model::group_sticky_errors;

    let names = clause_names(c.patterns@, c.patterns@.len());
    let s1 = issue_many(st1, names.len());
    let scope = clause_scope(st1, c);
    lemma_issue_after(m, st1, a, names.len());
    match s1 {
        Ok(m1) => {
            lemma_fit_after(m, m1, a);
            let mp = m1.push_scope(scope);
            assert(frames_fit(mp));
            lemma_start(mp);
            lemma_then_run(mp, Ok(mp), Seq::empty(), c.guard);
            lemma_then_run(mp, run(Ok(mp), c.guard).0, Seq::empty() + free_refs(c.guard), c.body);
            let inner = Seq::<ScopeKey>::empty() + free_refs(c.guard) + free_refs(c.body);
            assert(inner =~= free_refs(c.guard) + free_refs(c.body));
            let out = run(run(Ok(mp), c.guard).0, c.body).0;
            lemma_scoped(m1, scope, out, inner);
            lemma_fresh_scope_keys(names, first_free(st1), false);
            lemma_chain(m, m1, st_pop(out), a, free_refs_clause(c));
        },
        Err(_) => {},
    }
}

/// The effect of the walk of the first `k` clauses after a walk with the
/// effect of `a`.
pub proof fn lemma_then_clauses(
    m: TrackerModel,
    st1: PassState,
    a: Seq<ScopeKey>,
    cs: Seq<Clause>,
    k: nat,
)
    requires
        frames_fit(m),
        effect(m, st1, a),
    ensures
        effect(m, run_clauses(st1, cs, k), a + free_refs_clauses(cs, k)),
    decreases cs, k,
{
    if k == 0 || k > cs.len() {
        assert(a + free_refs_clauses(cs, k) =~= a);
    } else {
        lemma_then_clauses(m, st1, a, cs, (k - 1) as nat);
        lemma_then_clause(
            m,
            run_clauses(st1, cs, (k - 1) as nat),
            a + free_refs_clauses(cs, (k - 1) as nat),
            cs[k - 1],
        );
        assert(run_clauses(st1, cs, k) == run_clause(
            run_clauses(st1, cs, (k - 1) as nat),
            cs[k - 1],
        ));
        assert(a + free_refs_clauses(cs, k) =~= a + free_refs_clauses(cs, (k - 1) as nat)
            + free_refs_clause(cs[k - 1]));
    }
}

/// The effect of the walk of a function after a walk with the effect of
/// `a`.
pub proof fn lemma_then_function(
    m: TrackerModel,
    st1: PassState,
    a: Seq<ScopeKey>,
    f: FunctionDefinition,
)
    requires
        frames_fit(m),
        effect(m, st1, a),
    ensures
        effect(m, run_function(st1, f), a + free_refs_function(f)),
    decreases f, 1nat,
{
    let s1 = issue_many(st1, f.args@.len());
    lemma_issue_after(m, st1, a, f.args@.len());
    lemma_then_scoped(m, s1, a, function_scope(st1, f), *f.body);
    lemma_fresh_scope_keys(variable_names(f.args@), first_free(st1), false);
}

/// The effect of the walk of the first `k` closures of a group after a walk
/// with the effect of `a`.
pub proof fn lemma_then_closures(
    m: TrackerModel,
    st1: PassState,
    a: Seq<ScopeKey>,
    cs: Seq<AliasedClosure>,
    k: nat,
)
    requires
        frames_fit(m),
        effect(m, st1, a),
    ensures
        effect(m, run_closures(st1, cs, k), a + free_refs_closures(cs, k)),
    decreases cs, k,
{
    if k == 0 || k > cs.len() {
        assert(a + free_refs_closures(cs, k) =~= a);
    } else {
        lemma_then_closures(m, st1, a, cs, (k - 1) as nat);
        lemma_then_function(
            m,
            run_closures(st1, cs, (k - 1) as nat),
            a + free_refs_closures(cs, (k - 1) as nat),
            cs[k - 1].closure.fun,
        );
        assert(run_closures(st1, cs, k) == run_function(
            run_closures(st1, cs, (k - 1) as nat),
            cs[k - 1].closure.fun,
        ));
        assert(a + free_refs_closures(cs, k) =~= a + free_refs_closures(cs, (k - 1) as nat)
            + free_refs_function(cs[k - 1].closure.fun));
    }
}

/// Once the innermost frame is closed and its captures are registered, the
/// frames that stay open have recorded what they would have recorded
/// without it, and the new environment holds what the closed frame
/// recorded.
pub proof fn lemma_tracked(m: TrackerModel, s1: PassState, refs: Seq<ScopeKey>)
    requires
        effect(m.push_tracking(), s1, refs),
    ensures
        effect(m, st_close_env(s1), refs),
        s1 matches Ok(m1) ==> st_close_env(s1) matches Ok(m2) && m2.envs.len() == m1.envs.len() + 1
            && m2.envs[m1.envs.len() as int].captures == capture_list(m.scopes, refs)
            && m2.envs[m1.envs.len() as int].meta_binds.len() == 0,
{
    match s1 {
        Ok(m1) => {
            let mt = m.push_tracking();
            let m2 = st_close_env(s1)->Ok_0;
            assert(m2.frames =~= absorb(m.frames, m.scopes, refs)) by {
                assert forall|i: int| 0 <= i < m.frames.len() implies m1.frames.drop_last()[i]
                    == absorb_one(m.frames[i], m.scopes, refs) by {
                    assert(mt.frames[i] == m.frames[i]);
                }
            }
            assert(m1.frames.last() == absorb_one(mt.frames[m.frames.len() as int], m.scopes, refs));
        },
        Err(_) => {},
    }
}

/// Where a key resolves, it resolves to a binding of a scope of the stack.
pub proof fn lemma_resolve_bound(scopes: Seq<Seq<(ScopeKey, SSAVariable)>>, key: ScopeKey)
    ensures
        resolve(scopes, key) matches Some((d, v)) ==> d < scopes.len() && exists|j: int|
            0 <= j < scopes[d as int].len() && #[trigger] scopes[d as int][j] == (key, v),
    decreases scopes.len(),
{
    if scopes.len() > 0 {
        lemma_lookup_scope_bound(scopes.last(), key);
        if lookup_scope(scopes.last(), key) is None {
            lemma_resolve_bound(scopes.drop_last(), key);
            if resolve(scopes, key) is Some {
                let (d, v) = resolve(scopes, key)->0;
                let j = choose|j: int|
                    0 <= j < scopes.drop_last()[d as int].len() && #[trigger] scopes.drop_last()[d as int][j]
                        == (key, v);
                assert(scopes[d as int][j] == (key, v));
            }
        }
    }
}

/// Where a scope binds a key, one of its bindings binds it.
pub proof fn lemma_lookup_scope_bound(s: Seq<(ScopeKey, SSAVariable)>, key: ScopeKey)
    ensures
        lookup_scope(s, key) matches Some(v) ==> exists|j: int|
            0 <= j < s.len() && #[trigger] s[j] == (key, v),
    decreases s.len(),
{
    if s.len() > 0 {
        if s.last().0 == key {
            assert(s[s.len() - 1] == (key, s.last().1));
        } else {
            lemma_lookup_scope_bound(s.drop_last(), key);
            if lookup_scope(s, key) is Some {
                let v = lookup_scope(s, key)->0;
                let j = choose|j: int| 0 <= j < s.drop_last().len() && #[trigger] s.drop_last()[j] == (key, v);
                assert(s[j] == (key, v));
            }
        }
    }
}

/// Whether `cs` are the captures of a closure whose body refers freely to
/// `keys` where the scope stack is `scopes`: every capture is a value
/// variable among `keys` with the name that `scopes` gives it; every value
/// variable among `keys` that `scopes` binds is captured; none is captured
/// twice; and the captures are numbered densely from zero.
pub open spec fn captures_exact(
    cs: Seq<CaptureModel>,
    scopes: Seq<Seq<(ScopeKey, SSAVariable)>>,
    keys: Seq<ScopeKey>,
) -> bool {
    &&& forall|i: int|
        0 <= i < cs.len() ==> (#[trigger] cs[i]).index == i && keys.contains(var_key(cs[i].name))
            && (resolve(scopes, var_key(cs[i].name)) matches Some((d, v)) && v == cs[i].ssa)
    &&& forall|j: int|
        0 <= j < keys.len() && !(#[trigger] keys[j]).function && resolve(scopes, keys[j]) is Some
            ==> exists|i: int| 0 <= i < cs.len() && (#[trigger] cs[i]).name == keys[j].name
    &&& forall|i: int, l: int| 0 <= i < l < cs.len() ==> (#[trigger] cs[i]).name != (#[trigger] cs[l]).name
}

/// The capture list is exact, and it lists the variables in the order in
/// which they are first met: the list of a longer walk starts with the list
/// of the walk so far.
pub proof fn lemma_capture_list_exact(
    scopes: Seq<Seq<(ScopeKey, SSAVariable)>>,
    keys: Seq<ScopeKey>,
)
    ensures
        captures_exact(capture_list(scopes, keys), scopes, keys),
        keys.len() > 0 ==> capture_list(scopes, keys.drop_last()).len() <= capture_list(
            scopes,
            keys,
        ).len() && forall|i: int|
            0 <= i < capture_list(scopes, keys.drop_last()).len() ==> #[trigger] capture_list(
                scopes,
                keys,
            )[i] == capture_list(scopes, keys.drop_last())[i],
    decreases keys.len(),
{
    let f0 = FrameModel { start: scopes.len(), captures: Seq::empty() };
    if keys.len() > 0 {
        let ks = keys.drop_last();
        let k = keys.last();
        lemma_capture_list_exact(scopes, ks);
        lemma_absorb_one_start(f0, scopes, ks);
        lemma_resolve_bound(scopes, k);
        let g = absorb_one(f0, scopes, ks);
        let cs0 = g.captures;
        let cs = capture_list(scopes, keys);
        assert forall|i: int| 0 <= i < cs0.len() implies keys.contains(var_key((#[trigger] cs0[i]).name)) by {
            let j = choose|j: int| 0 <= j < ks.len() && ks[j] == var_key(cs0[i].name);
            assert(keys[j] == var_key(cs0[i].name));
        }
        assert forall|j: int|
            0 <= j < keys.len() && !(#[trigger] keys[j]).function && resolve(scopes, keys[j]) is Some implies exists|
            i: int,
        | 0 <= i < cs.len() && (#[trigger] cs[i]).name == keys[j].name by {
            if j < ks.len() {
                assert(ks[j] == keys[j]);
                let i = choose|i: int| 0 <= i < cs0.len() && (#[trigger] cs0[i]).name == ks[j].name;
                assert(cs[i].name == keys[j].name);
            } else {
                if g.has(k.name) {
                    let i = choose|i: int| 0 <= i < cs0.len() && (#[trigger] cs0[i]).name == k.name;
                    assert(cs[i].name == keys[j].name);
                } else {
                    assert(cs[cs0.len() as int].name == k.name);
                }
            }
        }
        assert forall|i: int|
            0 <= i < cs.len() implies (#[trigger] cs[i]).index == i && keys.contains(
            var_key(cs[i].name),
        ) && (resolve(scopes, var_key(cs[i].name)) matches Some((d, v)) && v == cs[i].ssa) by {
            if i >= cs0.len() {
                assert(keys[keys.len() - 1] == k);
                assert(k == var_key(k.name));
            }
        }
    }
}

/// Capture completeness. The environment of a closure holds exactly the
/// value variables that its function refers to and that are bound outside
/// of it, each once, in the order in which the walk first meets them, each
/// with the name that it has outside. No parameter and nothing bound in the
/// body is among them.
pub proof fn lemma_capture_completeness(m: TrackerModel, e0: SingleExpression, e1: SingleExpression)
    requires
        frames_fit(m),
        e0.kind is BindClosure,
        run(Ok(m), e0).0 is Ok,
        run(Ok(m), e0).0->Ok_0.envs.len() <= usize::MAX,
        crate::ssa_model::named(Ok(m), e0, e1),
    ensures
        ({
            let m2 = run(Ok(m), e0).0->Ok_0;
            let refs = free_refs_function(e0.kind->BindClosure_closure.fun);
            &&& e1.kind matches SingleExpressionKind::BindClosure { closure, lambda_env, env_ssa }
            &&& lambda_env matches Some(idx)
            &&& closure.env == lambda_env
            &&& m.envs.len() <= idx.0 < m2.envs.len()
            &&& m2.envs[idx.0 as int].captures == capture_list(m.scopes, refs)
            &&& captures_exact(m2.envs[idx.0 as int].captures, m.scopes, refs)
        }),
{
    broadcast use crate::ssa_model::group_sticky_errors;

    let st0: PassState = Ok(m);
    let none = Seq::<ScopeKey>::empty();
    match e0.kind {
        SingleExpressionKind::BindClosure { closure, lambda_env, env_ssa } => {
            let mt = m.push_tracking();
            let s1 = run_function(Ok(mt), closure.fun);
            let s2 = st_close_env(s1);
            let s3 = fresh(s2).0;
            assert(run(st0, e0) == fresh(s3));
            assert(frames_fit(mt));
            lemma_start(mt);
            lemma_then_function(mt, Ok(mt), none, closure.fun);
            let refs = free_refs_function(closure.fun);
            assert(none + refs =~= refs);
            lemma_tracked(m, s1, refs);
            lemma_capture_list_exact(m.scopes, refs);
        },
        _ => {},
    }
}

/// Whether every name that the scope stack binds was issued.
pub open spec fn names_bounded(m: TrackerModel) -> bool {
    forall|i: int, j: int|
        0 <= i < m.scopes.len() && 0 <= j < m.scopes[i].len() ==> (#[trigger] m.scopes[i][j]).1.0
            < m.next
}

/// Mutual recursion is no capture. The closures of a group refer to each
/// other through their aliases. The shared environment of the group holds
/// none of the aliases: every capture carries a name that was issued before
/// the group was met, and the aliases get names that are issued for the
/// group.
pub proof fn lemma_aliases_are_not_captured(
    m: TrackerModel,
    e0: SingleExpression,
    e1: SingleExpression,
)
    requires
        frames_fit(m),
        names_bounded(m),
        e0.kind is BindClosures,
        run(Ok(m), e0).0 is Ok,
        run(Ok(m), e0).0->Ok_0.envs.len() <= usize::MAX,
        crate::ssa_model::named(Ok(m), e0, e1),
    ensures
        ({
            let m2 = run(Ok(m), e0).0->Ok_0;
            &&& e1.kind matches SingleExpressionKind::BindClosures {
                closures,
                body,
                lambda_env,
                env_ssa,
            }
            &&& lambda_env matches Some(idx)
            &&& m.envs.len() <= idx.0 < m2.envs.len()
            &&& forall|i: int, k: int|
                0 <= i < closures@.len() && 0 <= k < m2.envs[idx.0 as int].captures.len() ==> {
                    &&& (#[trigger] closures@[i]).closure.env == lambda_env
                    &&& (#[trigger] m2.envs[idx.0 as int].captures[k]).ssa != closures@[i].alias.ssa
                    &&& m2.envs[idx.0 as int].captures[k].ssa.0 < m.next
                    &&& closures@[i].alias.ssa.0 >= m.next
                }
        }),
{
    broadcast use crate::ssa_model::group_sticky_errors;

    let st0: PassState = Ok(m);
    let none = Seq::<ScopeKey>::empty();
    match e0.kind {
        SingleExpressionKind::BindClosures { closures, body, lambda_env, env_ssa } => {
            let s0 = issue_many(st0, closures@.len());
            let scope = fresh_scope(alias_names(closures@), first_free(st0), true);
            let s1 = st_push(s0, scope);
            let s2 = run_closures(st_push_tracking(s1), closures@, closures@.len());
            let s2c = st_close_env(s2);
            let s3 = st_pop(run(s2c, *body).0);
            let s4 = fresh(s3).0;
            assert(run(st0, e0) == fresh(s4));
            let m0 = s0->Ok_0;
            let mp = m0.push_scope(scope);
            let mt = mp.push_tracking();
            assert(frames_fit(mp));
            assert(frames_fit(mt));
            lemma_start(mt);
            lemma_then_closures(mt, Ok(mt), none, closures@, closures@.len());
            let rc = free_refs_closures(closures@, closures@.len());
            assert(none + rc =~= rc);
            lemma_tracked(mp, s2, rc);
            lemma_then_run(mp, s2c, rc, *body);
            lemma_capture_list_exact(mp.scopes, rc);
            let m2c = s2c->Ok_0;
            let idx = s2->Ok_0.envs.len() as int;
            let caps = m2c.envs[idx].captures;
            assert forall|k: int| 0 <= k < caps.len() implies (#[trigger] caps[k]).ssa.0 < m.next by {
                let key = var_key(caps[k].name);
                lemma_resolve_bound(mp.scopes, key);
                let (d, v) = resolve(mp.scopes, key)->0;
                let j = choose|j: int|
                    0 <= j < mp.scopes[d as int].len() && #[trigger] mp.scopes[d as int][j] == (key, v);
                if d == m.scopes.len() {
                    assert(scope[j].0.function);
                } else {
                    assert(mp.scopes[d as int] == m.scopes[d as int]);
                    assert(m.scopes[d as int][j].1.0 < m.next);
                }
            }
            lemma_fit_after(mp, m2c, rc);
            lemma_effect(m2c, *body);
            let m2 = run(st0, e0).0->Ok_0;
            assert(m2.envs[idx] == m2c.envs[idx]);
            assert(crate::ssa_model::named_closures(
                st_push_tracking(s1),
                closures@,
                e1.kind->BindClosures_closures@,
                first_free(st0),
                crate::ssa_model::st_env_index(s2),
            ));
            let cl1 = e1.kind->BindClosures_closures@;
            assert forall|i: int| 0 <= i < cl1.len() implies (#[trigger] cl1[i]).alias.ssa.0
                >= m.next && cl1[i].closure.env == e1.kind->BindClosures_lambda_env by {
                assert(cl1[i].alias.ssa == SSAVariable((first_free(st0) + i) as u64));
            }
        },
        _ => {},
    }
}

/// The scope that binds `vars` to the names they carry.
pub open spec fn scope_of_vars(vars: Seq<AVariable>) -> Seq<(ScopeKey, SSAVariable)> {
    Seq::new(vars.len(), |i: int| (var_key(vars[i].var@), vars[i].ssa))
}

/// The scope that binds what the first `k` patterns bind to the names the
/// binds carry.
pub open spec fn scope_of_patterns(ps: Seq<Pattern>, k: nat) -> Seq<(ScopeKey, SSAVariable)>
    decreases k,
{
    if k == 0 || k > ps.len() {
        Seq::empty()
    } else {
        scope_of_patterns(ps, (k - 1) as nat) + Seq::new(
            ps[k - 1].binds@.len(),
            |i: int| (var_key(ps[k - 1].binds@[i].0@), ps[k - 1].binds@[i].1),
        )
    }
}

/// The scope that binds the aliases of a group to the names they carry.
pub open spec fn scope_of_aliases(cs: Seq<AliasedClosure>) -> Seq<(ScopeKey, SSAVariable)> {
    Seq::new(cs.len(), |i: int| (fun_key(cs[i].alias.var@), cs[i].alias.ssa))
}

/// Whether every reference in `e` carries the name of its innermost
/// enclosing binding, where `scopes` are the bindings that enclose `e`. The
/// bindings that enclose a part of `e` are `scopes` and what the binders
/// between `e` and the part bind; what a sibling or a descendant of the
/// part binds is not among them.
pub open spec fn well_scoped(e: SingleExpression, scopes: Seq<Seq<(ScopeKey, SSAVariable)>>) -> bool
    decreases e, 0nat,
{
    match e.kind {
        SingleExpressionKind::Variable(v) => {
            &&& v.ssa == e.ssa
            &&& resolve(scopes, var_key(v.var@)) matches Some((_, s))
            &&& s == e.ssa
        },
        SingleExpressionKind::NamedFunction { name, is_lambda } => {
            &&& is_lambda == resolve(scopes, fun_key(name@)).is_some()
            &&& is_lambda ==> (resolve(scopes, fun_key(name@))->0).1 == e.ssa
        },
        SingleExpressionKind::Atomic(_) => true,
        SingleExpressionKind::ExternalNamedFunction { module, name } => true,
        SingleExpressionKind::InterModuleCall { module, name, args } => {
            &&& well_scoped(*module, scopes)
            &&& well_scoped(*name, scopes)
            &&& all_scoped(args@, scopes)
        },
        SingleExpressionKind::ApplyCall { fun, args } => {
            &&& all_scoped(args@, scopes)
            &&& well_scoped(*fun, scopes)
        },
        SingleExpressionKind::Let { val, vars, body } => {
            &&& all_scoped(val.values@, scopes)
            &&& well_scoped(*body, scopes.push(scope_of_vars(vars@)))
        },
        SingleExpressionKind::Try { body, then_vars, then, catch_vars, catch } => {
            &&& all_scoped(body.values@, scopes)
            &&& well_scoped(*then, scopes.push(scope_of_vars(then_vars@)))
            &&& well_scoped(*catch, scopes.push(scope_of_vars(catch_vars@)))
        },
        SingleExpressionKind::Case { val, clauses, values } => {
            &&& all_scoped(val.values@, scopes)
            &&& all_scoped(values@, scopes)
            &&& clauses_scoped(clauses@, scopes)
        },
        SingleExpressionKind::Tuple(vals) => all_scoped(vals@, scopes),
        SingleExpressionKind::List { head, tail } => {
            &&& all_scoped(head@, scopes)
            &&& well_scoped(*tail, scopes)
        },
        SingleExpressionKind::MakeMap { values, merge } => {
            &&& pairs_scoped(values@, scopes)
            &&& match merge {
                Some(b) => well_scoped(*b, scopes),
                None => true,
            }
        },
        SingleExpressionKind::Binary(elems) => segments_scoped(elems@, scopes),
        SingleExpressionKind::PrimOp { name, args } => all_scoped(args@, scopes),
        SingleExpressionKind::Do(e1, e2) => {
            &&& all_scoped(e1.values@, scopes)
            &&& well_scoped(*e2, scopes)
        },
        SingleExpressionKind::Receive { clauses, pattern_values, timeout_time, timeout_body } => {
            &&& all_scoped(pattern_values@, scopes)
            &&& clauses_scoped(clauses@, scopes)
            &&& well_scoped(*timeout_time, scopes)
            &&& well_scoped(*timeout_body, scopes)
        },
        SingleExpressionKind::BindClosure { closure, lambda_env, env_ssa } => function_scoped(
            closure.fun,
            scopes,
        ),
        SingleExpressionKind::BindClosures { closures, body, lambda_env, env_ssa } => {
            &&& closures_scoped(closures@, scopes.push(scope_of_aliases(closures@)))
            &&& well_scoped(*body, scopes.push(scope_of_aliases(closures@)))
        },
    }
}

/// Whether every member of a list is well scoped.
pub open spec fn all_scoped(es: Seq<SingleExpression>, scopes: Seq<Seq<(ScopeKey, SSAVariable)>>) -> bool
    decreases es, 1nat,
{
    forall|i: int| 0 <= i < es.len() ==> well_scoped(#[trigger] es[i], scopes)
}

/// Whether both parts of every pair are well scoped.
pub open spec fn pairs_scoped(
    ps: Seq<(SingleExpression, SingleExpression)>,
    scopes: Seq<Seq<(ScopeKey, SSAVariable)>>,
) -> bool
    decreases ps, 1nat,
{
    forall|i: int|
        0 <= i < ps.len() ==> well_scoped((#[trigger] ps[i]).0, scopes) && well_scoped(
            ps[i].1,
            scopes,
        )
}

/// Whether the value and the options of every segment are well scoped.
pub open spec fn segments_scoped(
    segs: Seq<(SingleExpression, Vec<SingleExpression>)>,
    scopes: Seq<Seq<(ScopeKey, SSAVariable)>>,
) -> bool
    decreases segs, 2nat,
{
    forall|i: int|
        0 <= i < segs.len() ==> well_scoped((#[trigger] segs[i]).0, scopes) && all_scoped(
            segs[i].1@,
            scopes,
        )
}

/// The guard and the body of a clause stand under what its patterns bind.
pub open spec fn clause_scoped(c: Clause, scopes: Seq<Seq<(ScopeKey, SSAVariable)>>) -> bool
    decreases c, 0nat,
{
    let inner = scopes.push(scope_of_patterns(c.patterns@, c.patterns@.len()));
    well_scoped(c.guard, inner) && well_scoped(c.body, inner)
}

/// Whether every clause is well scoped.
pub open spec fn clauses_scoped(cs: Seq<Clause>, scopes: Seq<Seq<(ScopeKey, SSAVariable)>>) -> bool
    decreases cs, 1nat,
{
    forall|i: int| 0 <= i < cs.len() ==> clause_scoped(#[trigger] cs[i], scopes)
}

/// The body of a function stands under its parameters.
pub open spec fn function_scoped(f: FunctionDefinition, scopes: Seq<Seq<(ScopeKey, SSAVariable)>>) -> bool
    decreases f, 0nat,
{
    well_scoped(*f.body, scopes.push(scope_of_vars(f.args@)))
}

/// Whether the function of every closure of a group is well scoped.
pub open spec fn closures_scoped(
    cs: Seq<AliasedClosure>,
    scopes: Seq<Seq<(ScopeKey, SSAVariable)>>,
) -> bool
    decreases cs, 1nat,
{
    forall|i: int| 0 <= i < cs.len() ==> function_scoped((#[trigger] cs[i]).closure.fun, scopes)
}

/// Variables that were given the names of bound values are bound as the
/// model binds them.
pub proof fn lemma_bound_scope_of_vars(
    st: PassState,
    vars0: Seq<AVariable>,
    vars1: Seq<AVariable>,
    vals0: Seq<SingleExpression>,
    vals1: Seq<SingleExpression>,
)
    requires
        vars0.len() <= vals0.len(),
        named_seq(st, vals0, vals1),
        named_bound(vars0, vars1, vals1),
    ensures
        scope_of_vars(vars1) == bound_scope(st, vars0, vals0),
{
    lemma_named_seq_names(st, vals0, vals1);
    assert forall|i: int| 0 <= i < vars1.len() implies scope_of_vars(vars1)[i] == bound_scope(
        st,
        vars0,
        vals0,
    )[i] by {
        assert(vars1[i].var == vars0[i].var);
        assert(vals1[i].ssa == name_in_seq(st, vals0, i));
    }
    assert(scope_of_vars(vars1) =~= bound_scope(st, vars0, vals0));
}

/// Variables that were given fresh names are bound as the model binds
/// them.
pub proof fn lemma_fresh_scope_of_vars(vars0: Seq<AVariable>, vars1: Seq<AVariable>, first: nat)
    requires
        named_fresh(vars0, vars1, first),
    ensures
        scope_of_vars(vars1) == fresh_scope(variable_names(vars0), first, false),
{
    assert forall|i: int| 0 <= i < vars1.len() implies scope_of_vars(vars1)[i] == fresh_scope(
        variable_names(vars0),
        first,
        false,
    )[i] by {
        assert(vars1[i].var == vars0[i].var);
    }
    assert(scope_of_vars(vars1) =~= fresh_scope(variable_names(vars0), first, false));
}

/// Patterns whose binds were given fresh names bind as the model binds
/// them.
pub proof fn lemma_scope_of_patterns(ps0: Seq<Pattern>, ps1: Seq<Pattern>, first: nat, k: nat)
    requires
        named_patterns(ps0, ps1, first),
        k <= ps0.len(),
    ensures
        scope_of_patterns(ps1, k) == fresh_scope(clause_names(ps0, k), first, false),
    decreases k,
{
    if k == 0 {
        assert(scope_of_patterns(ps1, k) =~= fresh_scope(clause_names(ps0, k), first, false));
    } else {
        lemma_scope_of_patterns(ps0, ps1, first, (k - 1) as nat);
        let before = clause_names(ps0, (k - 1) as nat);
        let p0 = ps0[k - 1];
        let p1 = ps1[k - 1];
        assert(named_pattern(p0, p1, first + before.len()));
        let a = scope_of_patterns(ps1, k);
        let b = fresh_scope(clause_names(ps0, k), first, false);
        assert(clause_names(ps0, k) == before + pattern_names(p0));
        assert(a.len() == b.len());
        assert forall|j: int| 0 <= j < a.len() implies a[j] == b[j] by {
            if j >= before.len() {
                let i = j - before.len();
                assert(p1.binds@[i].0 == p0.binds@[i].0);
                assert(p1.binds@[i].1 == SSAVariable((first + before.len() + i) as u64));
                assert(clause_names(ps0, k)[j] == pattern_names(p0)[i]);
            } else {
                assert(a[j] == scope_of_patterns(ps1, (k - 1) as nat)[j]);
                assert(clause_names(ps0, k)[j] == before[j]);
            }
        }
        assert(a =~= b);
    }
}

/// Scope correctness. After the walk every reference carries the name of
/// its innermost enclosing binding: a variable the name that the innermost
/// scope that binds it gives it, a function reference that is marked as a
/// closure the name of the alias, and one that is not marked is bound
/// nowhere. The bindings that enclose a reference are those of the binders
/// above it in the tree; no sibling and no descendant binds for it.
pub proof fn lemma_well_scoped(m: TrackerModel, e0: SingleExpression, e1: SingleExpression)
    requires
        frames_fit(m),
        named(Ok(m), e0, e1),
        run(Ok(m), e0).0 is Ok,
    ensures
        well_scoped(e1, m.scopes),
    decreases e0, 1nat,
{
    match e0.kind {
        SingleExpressionKind::Variable(_)
        | SingleExpressionKind::Atomic(_)
        | SingleExpressionKind::NamedFunction { .. }
        | SingleExpressionKind::ExternalNamedFunction { .. } => {},
        SingleExpressionKind::InterModuleCall { .. } | SingleExpressionKind::ApplyCall { .. } => lemma_ws_call(
            m,
            e0,
            e1,
        ),
        SingleExpressionKind::Tuple(_)
        | SingleExpressionKind::List { .. }
        | SingleExpressionKind::MakeMap { .. }
        | SingleExpressionKind::Binary(_)
        | SingleExpressionKind::PrimOp { .. } => lemma_ws_constructor(m, e0, e1),
        SingleExpressionKind::Let { .. } | SingleExpressionKind::Do(_, _) => lemma_ws_binding(
            m,
            e0,
            e1,
        ),
        SingleExpressionKind::Try { .. } => lemma_ws_try(m, e0, e1),
        SingleExpressionKind::Case { .. } | SingleExpressionKind::Receive { .. } => lemma_ws_match(
            m,
            e0,
            e1,
        ),
        SingleExpressionKind::BindClosure { .. } => lemma_ws_closure(m, e0, e1),
        SingleExpressionKind::BindClosures { .. } => lemma_ws_group(m, e0, e1),
    }
}

proof fn lemma_ws_at(
    m: TrackerModel,
    st1: PassState,
    a: Seq<ScopeKey>,
    e0: SingleExpression,
    e1: SingleExpression,
)
    requires
        frames_fit(m),
        effect(m, st1, a),
        named(st1, e0, e1),
        run(st1, e0).0 is Ok,
    ensures
        well_scoped(e1, m.scopes),
    decreases e0, 2nat,
{
    broadcast use crate::ssa_model::group_sticky_errors;

    match st1 {
        Ok(m1) => {
            lemma_fit_after(m, m1, a);
            lemma_well_scoped(m1, e0, e1);
        },
        Err(_) => {},
    }
}

proof fn lemma_ws_under(
    m: TrackerModel,
    st1: PassState,
    a: Seq<ScopeKey>,
    s: Seq<(ScopeKey, SSAVariable)>,
    e0: SingleExpression,
    e1: SingleExpression,
)
    requires
        frames_fit(m),
        effect(m, st1, a),
        named(st_push(st1, s), e0, e1),
        run(st_push(st1, s), e0).0 is Ok,
    ensures
        well_scoped(e1, m.scopes.push(s)),
    decreases e0, 2nat,
{
    broadcast use crate::ssa_model::group_sticky_errors;

    match st1 {
        Ok(m1) => {
            lemma_fit_after(m, m1, a);
            let mp = m1.push_scope(s);
            assert(frames_fit(mp));
            lemma_well_scoped(mp, e0, e1);
        },
        Err(_) => {},
    }
}

/// After the walk of a list every member is well scoped.
pub proof fn lemma_well_scoped_seq(
    m: TrackerModel,
    st1: PassState,
    a: Seq<ScopeKey>,
    es0: Seq<SingleExpression>,
    es1: Seq<SingleExpression>,
)
    requires
        frames_fit(m),
        effect(m, st1, a),
        named_seq(st1, es0, es1),
        run_seq(st1, es0, es0.len()) is Ok,
    ensures
        all_scoped(es1, m.scopes),
    decreases es0, 0nat,
{
    assert forall|i: int| 0 <= i < es1.len() implies well_scoped(#[trigger] es1[i], m.scopes) by {
        let si = run_seq(st1, es0, i as nat);
        lemma_then_seq(m, st1, a, es0, i as nat);
        assert(run_seq(st1, es0, (i + 1) as nat) == run(si, es0[i]).0);
        if run_seq(st1, es0, (i + 1) as nat) is Err {
            lemma_run_seq_sticky(st1, es0, (i + 1) as nat, es0.len());
        }
        lemma_ws_at(m, si, a + free_refs_seq(es0, i as nat), es0[i], es1[i]);
    }
}

proof fn lemma_ws_pairs(
    m: TrackerModel,
    st1: PassState,
    a: Seq<ScopeKey>,
    ps0: Seq<(SingleExpression, SingleExpression)>,
    ps1: Seq<(SingleExpression, SingleExpression)>,
)
    requires
        frames_fit(m),
        effect(m, st1, a),
        named_pairs(st1, ps0, ps1),
        run_pairs(st1, ps0, ps0.len()) is Ok,
    ensures
        pairs_scoped(ps1, m.scopes),
    decreases ps0, 0nat,
{
    broadcast use crate::ssa_model::group_sticky_errors;

    assert forall|i: int| 0 <= i < ps1.len() implies well_scoped((#[trigger] ps1[i]).0, m.scopes)
        && well_scoped(ps1[i].1, m.scopes) by {
        let si = run_pairs(st1, ps0, i as nat);
        lemma_then_pairs(m, st1, a, ps0, i as nat);
        let ri = a + free_refs_pairs(ps0, i as nat);
        assert(run_pairs(st1, ps0, (i + 1) as nat) == run(run(si, ps0[i].0).0, ps0[i].1).0);
        if run_pairs(st1, ps0, (i + 1) as nat) is Err {
            lemma_run_pairs_sticky(st1, ps0, (i + 1) as nat, ps0.len());
        }
        lemma_ws_at(m, si, ri, ps0[i].0, ps1[i].0);
        lemma_then_run(m, si, ri, ps0[i].0);
        lemma_ws_at(m, run(si, ps0[i].0).0, ri + free_refs(ps0[i].0), ps0[i].1, ps1[i].1);
    }
}

proof fn lemma_ws_segments(
    m: TrackerModel,
    st1: PassState,
    a: Seq<ScopeKey>,
    sg0: Seq<(SingleExpression, Vec<SingleExpression>)>,
    sg1: Seq<(SingleExpression, Vec<SingleExpression>)>,
)
    requires
        frames_fit(m),
        effect(m, st1, a),
        named_segments(st1, sg0, sg1),
        run_segments(st1, sg0, sg0.len()) is Ok,
    ensures
        segments_scoped(sg1, m.scopes),
    decreases sg0, 0nat,
{
    broadcast use crate::ssa_model::group_sticky_errors;

    assert forall|i: int| 0 <= i < sg1.len() implies well_scoped((#[trigger] sg1[i]).0, m.scopes)
        && all_scoped(sg1[i].1@, m.scopes) by {
        let si = run_segments(st1, sg0, i as nat);
        lemma_then_segments(m, st1, a, sg0, i as nat);
        let ri = a + free_refs_segments(sg0, i as nat);
        assert(run_segments(st1, sg0, (i + 1) as nat) == run_seq(
            run(si, sg0[i].0).0,
            sg0[i].1@,
            sg0[i].1@.len(),
        ));
        if run_segments(st1, sg0, (i + 1) as nat) is Err {
            lemma_run_segments_sticky(st1, sg0, (i + 1) as nat, sg0.len());
        }
        lemma_ws_at(m, si, ri, sg0[i].0, sg1[i].0);
        lemma_then_run(m, si, ri, sg0[i].0);
        lemma_well_scoped_seq(m, run(si, sg0[i].0).0, ri + free_refs(sg0[i].0), sg0[i].1@, sg1[i].1@);
    }
}

proof fn lemma_ws_clause(
    m: TrackerModel,
    st1: PassState,
    a: Seq<ScopeKey>,
    c0: Clause,
    c1: Clause,
)
    requires
        frames_fit(m),
        effect(m, st1, a),
        named_clause(st1, c0, c1),
        run_clause(st1, c0) is Ok,
    ensures
        clause_scoped(c1, m.scopes),
    decreases c0, 1nat,
{
    broadcast use crate::ssa_model::group_sticky_errors;

    let names = clause_names(c0.patterns@, c0.patterns@.len());
    let s1 = issue_many(st1, names.len());
    let scope = clause_scope(st1, c0);
    lemma_issue_after(m, st1, a, names.len());
    match s1 {
        Ok(m1) => {
            lemma_fit_after(m, m1, a);
            let mp = m1.push_scope(scope);
            assert(frames_fit(mp));
            lemma_scope_of_patterns(c0.patterns@, c1.patterns@, first_free(st1), c0.patterns@.len());
            assert(c1.patterns@.len() == c0.patterns@.len());
            lemma_well_scoped(mp, c0.guard, c1.guard);
            lemma_effect(mp, c0.guard);
            lemma_ws_at(mp, run(Ok(mp), c0.guard).0, free_refs(c0.guard), c0.body, c1.body);
        },
        Err(_) => {},
    }
}

proof fn lemma_ws_clauses(
    m: TrackerModel,
    st1: PassState,
    a: Seq<ScopeKey>,
    cs0: Seq<Clause>,
    cs1: Seq<Clause>,
)
    requires
        frames_fit(m),
        effect(m, st1, a),
        named_clauses(st1, cs0, cs1),
        run_clauses(st1, cs0, cs0.len()) is Ok,
    ensures
        clauses_scoped(cs1, m.scopes),
    decreases cs0, 0nat,
{
    assert forall|i: int| 0 <= i < cs1.len() implies clause_scoped(#[trigger] cs1[i], m.scopes) by {
        let si = run_clauses(st1, cs0, i as nat);
        lemma_then_clauses(m, st1, a, cs0, i as nat);
        assert(run_clauses(st1, cs0, (i + 1) as nat) == run_clause(si, cs0[i]));
        if run_clauses(st1, cs0, (i + 1) as nat) is Err {
            lemma_run_clauses_sticky(st1, cs0, (i + 1) as nat, cs0.len());
        }
        lemma_ws_clause(m, si, a + free_refs_clauses(cs0, i as nat), cs0[i], cs1[i]);
    }
}

proof fn lemma_ws_function(
    m: TrackerModel,
    st1: PassState,
    a: Seq<ScopeKey>,
    f0: FunctionDefinition,
    f1: FunctionDefinition,
)
    requires
        frames_fit(m),
        effect(m, st1, a),
        named_function(st1, f0, f1),
        run_function(st1, f0) is Ok,
    ensures
        function_scoped(f1, m.scopes),
    decreases f0, 1nat,
{
    broadcast use crate::ssa_model::group_sticky_errors;

    let s1 = issue_many(st1, f0.args@.len());
    lemma_issue_after(m, st1, a, f0.args@.len());
    lemma_fresh_scope_of_vars(f0.args@, f1.args@, first_free(st1));
    lemma_ws_under(m, s1, a, function_scope(st1, f0), *f0.body, *f1.body);
}

proof fn lemma_ws_closures(
    m: TrackerModel,
    st1: PassState,
    a: Seq<ScopeKey>,
    cs0: Seq<AliasedClosure>,
    cs1: Seq<AliasedClosure>,
    first: nat,
    env: Option<crate::scope_tracker::LambdaEnvIdx>,
)
    requires
        frames_fit(m),
        effect(m, st1, a),
        named_closures(st1, cs0, cs1, first, env),
        run_closures(st1, cs0, cs0.len()) is Ok,
    ensures
        closures_scoped(cs1, m.scopes),
    decreases cs0, 0nat,
{
    assert forall|i: int| 0 <= i < cs1.len() implies function_scoped(
        (#[trigger] cs1[i]).closure.fun,
        m.scopes,
    ) by {
        let si = run_closures(st1, cs0, i as nat);
        lemma_then_closures(m, st1, a, cs0, i as nat);
        assert(run_closures(st1, cs0, (i + 1) as nat) == run_function(si, cs0[i].closure.fun));
        if run_closures(st1, cs0, (i + 1) as nat) is Err {
            lemma_run_closures_sticky(st1, cs0, (i + 1) as nat, cs0.len());
        }
        lemma_ws_function(
            m,
            si,
            a + free_refs_closures(cs0, i as nat),
            cs0[i].closure.fun,
            cs1[i].closure.fun,
        );
    }
}

proof fn lemma_ws_call(m: TrackerModel, e0: SingleExpression, e1: SingleExpression)
    requires
        frames_fit(m),
        named(Ok(m), e0, e1),
        run(Ok(m), e0).0 is Ok,
        e0.kind is InterModuleCall || e0.kind is ApplyCall,
    ensures
        well_scoped(e1, m.scopes),
    decreases e0, 0nat,
{
    broadcast use crate::ssa_model::group_sticky_errors;

    let st0: PassState = Ok(m);
    let none = Seq::<ScopeKey>::empty();
    lemma_start(m);
    match e0.kind {
        SingleExpressionKind::InterModuleCall { module, name, args } => {
            let s1 = run(st0, *module).0;
            let s2 = run(s1, *name).0;
            let s3 = run_seq(s2, args@, args@.len());
            assert(run(st0, e0) == fresh(s3));
            lemma_then_run(m, st0, none, *module);
            lemma_then_run(m, s1, none + free_refs(*module), *name);
            let m1 = e1.kind->InterModuleCall_module;
            let n1 = e1.kind->InterModuleCall_name;
            let a1 = e1.kind->InterModuleCall_args;
            lemma_ws_at(m, st0, none, *module, *m1);
            lemma_ws_at(m, s1, none + free_refs(*module), *name, *n1);
            lemma_well_scoped_seq(m, s2, none + free_refs(*module) + free_refs(*name), args@, a1@);
        },
        SingleExpressionKind::ApplyCall { fun, args } => {
            let s1 = run_seq(st0, args@, args@.len());
            let s2 = run(s1, *fun).0;
            assert(run(st0, e0) == fresh(s2));
            lemma_then_seq(m, st0, none, args@, args@.len());
            let f1 = e1.kind->ApplyCall_fun;
            let a1 = e1.kind->ApplyCall_args;
            lemma_well_scoped_seq(m, st0, none, args@, a1@);
            lemma_ws_at(m, s1, none + free_refs_seq(args@, args@.len()), *fun, *f1);
        },
        _ => {},
    }
}

proof fn lemma_ws_constructor(m: TrackerModel, e0: SingleExpression, e1: SingleExpression)
    requires
        frames_fit(m),
        named(Ok(m), e0, e1),
        run(Ok(m), e0).0 is Ok,
        e0.kind is Tuple || e0.kind is List || e0.kind is MakeMap || e0.kind is Binary
            || e0.kind is PrimOp,
    ensures
        well_scoped(e1, m.scopes),
    decreases e0, 0nat,
{
    broadcast use crate::ssa_model::group_sticky_errors;

    let st0: PassState = Ok(m);
    let none = Seq::<ScopeKey>::empty();
    lemma_start(m);
    match e0.kind {
        SingleExpressionKind::Tuple(vals) => {
            assert(run(st0, e0) == fresh(run_seq(st0, vals@, vals@.len())));
            lemma_well_scoped_seq(m, st0, none, vals@, e1.kind->Tuple_0@);
        },
        SingleExpressionKind::PrimOp { name, args } => {
            assert(run(st0, e0) == fresh(run_seq(st0, args@, args@.len())));
            lemma_well_scoped_seq(m, st0, none, args@, e1.kind->PrimOp_args@);
        },
        SingleExpressionKind::List { head, tail } => {
            let s1 = run_seq(st0, head@, head@.len());
            assert(run(st0, e0) == fresh(run(s1, *tail).0));
            lemma_then_seq(m, st0, none, head@, head@.len());
            lemma_well_scoped_seq(m, st0, none, head@, e1.kind->List_head@);
            lemma_ws_at(
                m,
                s1,
                none + free_refs_seq(head@, head@.len()),
                *tail,
                *e1.kind->List_tail,
            );
        },
        SingleExpressionKind::MakeMap { values, merge } => {
            let s1 = run_pairs(st0, values@, values@.len());
            lemma_then_pairs(m, st0, none, values@, values@.len());
            match merge {
                Some(b) => {
                    assert(run(st0, e0) == fresh(run(s1, *b).0));
                    lemma_ws_pairs(m, st0, none, values@, e1.kind->MakeMap_values@);
                    lemma_ws_at(
                        m,
                        s1,
                        none + free_refs_pairs(values@, values@.len()),
                        *b,
                        *e1.kind->MakeMap_merge->0,
                    );
                },
                None => {
                    assert(run(st0, e0) == fresh(s1));
                    lemma_ws_pairs(m, st0, none, values@, e1.kind->MakeMap_values@);
                },
            }
        },
        SingleExpressionKind::Binary(elems) => {
            assert(run(st0, e0) == fresh(run_segments(st0, elems@, elems@.len())));
            lemma_ws_segments(m, st0, none, elems@, e1.kind->Binary_0@);
        },
        _ => {},
    }
}

proof fn lemma_ws_binding(m: TrackerModel, e0: SingleExpression, e1: SingleExpression)
    requires
        frames_fit(m),
        named(Ok(m), e0, e1),
        run(Ok(m), e0).0 is Ok,
        e0.kind is Let || e0.kind is Do,
    ensures
        well_scoped(e1, m.scopes),
    decreases e0, 0nat,
{
    broadcast use crate::ssa_model::group_sticky_errors;

    let st0: PassState = Ok(m);
    let none = Seq::<ScopeKey>::empty();
    lemma_start(m);
    match e0.kind {
        SingleExpressionKind::Do(x0, y0) => {
            let s1 = run_seq(st0, x0.values@, x0.values@.len());
            assert(run(st0, e0) == run(s1, *y0));
            lemma_then_seq(m, st0, none, x0.values@, x0.values@.len());
            lemma_well_scoped_seq(m, st0, none, x0.values@, e1.kind->Do_0.values@);
            lemma_ws_at(
                m,
                s1,
                none + free_refs_seq(x0.values@, x0.values@.len()),
                *y0,
                *e1.kind->Do_1,
            );
        },
        SingleExpressionKind::Let { val, vars, body } => {
            let s1 = run_seq(st0, val.values@, val.values@.len());
            let scope = bound_scope(st0, vars@, val.values@);
            let r = run(st_push(s1, scope), *body);
            assert(run(st0, e0) == (st_pop(r.0), r.1));
            let val1 = e1.kind->Let_val;
            let vars1 = e1.kind->Let_vars;
            let body1 = e1.kind->Let_body;
            lemma_then_seq(m, st0, none, val.values@, val.values@.len());
            lemma_well_scoped_seq(m, st0, none, val.values@, val1.values@);
            lemma_bound_scope_of_vars(st0, vars@, vars1@, val.values@, val1.values@);
            lemma_ws_under(
                m,
                s1,
                none + free_refs_seq(val.values@, val.values@.len()),
                scope,
                *body,
                *body1,
            );
        },
        _ => {},
    }
}

proof fn lemma_ws_try(m: TrackerModel, e0: SingleExpression, e1: SingleExpression)
    requires
        frames_fit(m),
        named(Ok(m), e0, e1),
        run(Ok(m), e0).0 is Ok,
        e0.kind is Try,
    ensures
        well_scoped(e1, m.scopes),
    decreases e0, 0nat,
{
    broadcast use crate::ssa_model::group_sticky_errors;

    let st0: PassState = Ok(m);
    let none = Seq::<ScopeKey>::empty();
    lemma_start(m);
    match e0.kind {
        SingleExpressionKind::Try { body, then_vars, then, catch_vars, catch } => {
            let s1 = run_seq(st0, body.values@, body.values@.len());
            let scope1 = bound_scope(st0, then_vars@, body.values@);
            let s2 = st_pop(run(st_push(s1, scope1), *then).0);
            let s3 = issue_many(s2, catch_vars@.len());
            let scope2 = fresh_scope(variable_names(catch_vars@), first_free(s2), false);
            let s4 = st_pop(run(st_push(s3, scope2), *catch).0);
            assert(run(st0, e0) == fresh(s4));
            let r1 = none + free_refs_seq(body.values@, body.values@.len());
            let r2 = r1 + remove_bound(free_refs(*then), scope_keys(scope1));
            let body1 = e1.kind->Try_body;
            let tv1 = e1.kind->Try_then_vars;
            let then1 = e1.kind->Try_then;
            let cv1 = e1.kind->Try_catch_vars;
            let catch1 = e1.kind->Try_catch;
            lemma_then_seq(m, st0, none, body.values@, body.values@.len());
            lemma_then_scoped(m, s1, r1, scope1, *then);
            lemma_issue_after(m, s2, r2, catch_vars@.len());
            lemma_well_scoped_seq(m, st0, none, body.values@, body1.values@);
            lemma_bound_scope_of_vars(st0, then_vars@, tv1@, body.values@, body1.values@);
            lemma_ws_under(m, s1, r1, scope1, *then, *then1);
            lemma_fresh_scope_of_vars(catch_vars@, cv1@, first_free(s2));
            lemma_ws_under(m, s3, r2, scope2, *catch, *catch1);
        },
        _ => {},
    }
}

proof fn lemma_ws_match(m: TrackerModel, e0: SingleExpression, e1: SingleExpression)
    requires
        frames_fit(m),
        named(Ok(m), e0, e1),
        run(Ok(m), e0).0 is Ok,
        e0.kind is Case || e0.kind is Receive,
    ensures
        well_scoped(e1, m.scopes),
    decreases e0, 0nat,
{
    broadcast use crate::ssa_model::group_sticky_errors;

    let st0: PassState = Ok(m);
    let none = Seq::<ScopeKey>::empty();
    lemma_start(m);
    match e0.kind {
        SingleExpressionKind::Case { val, clauses, values } => {
            let s1 = run_seq(st0, val.values@, val.values@.len());
            let s2 = run_seq(s1, values@, values@.len());
            let s3 = run_clauses(s2, clauses@, clauses@.len());
            assert(run(st0, e0) == fresh(s3));
            let r1 = none + free_refs_seq(val.values@, val.values@.len());
            let r2 = r1 + free_refs_seq(values@, values@.len());
            lemma_then_seq(m, st0, none, val.values@, val.values@.len());
            lemma_then_seq(m, s1, r1, values@, values@.len());
            lemma_well_scoped_seq(m, st0, none, val.values@, e1.kind->Case_val.values@);
            lemma_well_scoped_seq(m, s1, r1, values@, e1.kind->Case_values@);
            lemma_ws_clauses(m, s2, r2, clauses@, e1.kind->Case_clauses@);
        },
        SingleExpressionKind::Receive { clauses, pattern_values, timeout_time, timeout_body } => {
            let s1 = run_seq(st0, pattern_values@, pattern_values@.len());
            let s2 = run_clauses(s1, clauses@, clauses@.len());
            let s3 = run(s2, *timeout_time).0;
            let s4 = run(s3, *timeout_body).0;
            assert(run(st0, e0) == fresh(s4));
            let r1 = none + free_refs_seq(pattern_values@, pattern_values@.len());
            let r2 = r1 + free_refs_clauses(clauses@, clauses@.len());
            let r3 = r2 + free_refs(*timeout_time);
            lemma_then_seq(m, st0, none, pattern_values@, pattern_values@.len());
            lemma_then_clauses(m, s1, r1, clauses@, clauses@.len());
            lemma_then_run(m, s2, r2, *timeout_time);
            lemma_well_scoped_seq(m, st0, none, pattern_values@, e1.kind->Receive_pattern_values@);
            lemma_ws_clauses(m, s1, r1, clauses@, e1.kind->Receive_clauses@);
            lemma_ws_at(m, s2, r2, *timeout_time, *e1.kind->Receive_timeout_time);
            lemma_ws_at(m, s3, r3, *timeout_body, *e1.kind->Receive_timeout_body);
        },
        _ => {},
    }
}

proof fn lemma_ws_closure(m: TrackerModel, e0: SingleExpression, e1: SingleExpression)
    requires
        frames_fit(m),
        named(Ok(m), e0, e1),
        run(Ok(m), e0).0 is Ok,
        e0.kind is BindClosure,
    ensures
        well_scoped(e1, m.scopes),
    decreases e0, 0nat,
{
    broadcast use crate::ssa_model::group_sticky_errors;

    let st0: PassState = Ok(m);
    let none = Seq::<ScopeKey>::empty();
    match e0.kind {
        SingleExpressionKind::BindClosure { closure, lambda_env, env_ssa } => {
            let mt = m.push_tracking();
            let s1 = run_function(Ok(mt), closure.fun);
            let s2 = st_close_env(s1);
            let s3 = fresh(s2).0;
            assert(run(st0, e0) == fresh(s3));
            assert(frames_fit(mt));
            lemma_start(mt);
            lemma_ws_function(
                mt,
                Ok(mt),
                none,
                closure.fun,
                e1.kind->BindClosure_closure.fun,
            );
        },
        _ => {},
    }
}

proof fn lemma_ws_group(m: TrackerModel, e0: SingleExpression, e1: SingleExpression)
    requires
        frames_fit(m),
        named(Ok(m), e0, e1),
        run(Ok(m), e0).0 is Ok,
        e0.kind is BindClosures,
    ensures
        well_scoped(e1, m.scopes),
    decreases e0, 0nat,
{
    broadcast use crate::ssa_model::group_sticky_errors;

    let st0: PassState = Ok(m);
    let none = Seq::<ScopeKey>::empty();
    match e0.kind {
        SingleExpressionKind::BindClosures { closures, body, lambda_env, env_ssa } => {
            let s0 = issue_many(st0, closures@.len());
            let scope = fresh_scope(alias_names(closures@), first_free(st0), true);
            let s1 = st_push(s0, scope);
            let s2 = run_closures(st_push_tracking(s1), closures@, closures@.len());
            let s2c = st_close_env(s2);
            let s3 = st_pop(run(s2c, *body).0);
            let s4 = fresh(s3).0;
            assert(run(st0, e0) == fresh(s4));
            let m0 = s0->Ok_0;
            let mp = m0.push_scope(scope);
            let mt = mp.push_tracking();
            assert(frames_fit(mp));
            assert(frames_fit(mt));
            let cl1 = e1.kind->BindClosures_closures;
            let body1 = e1.kind->BindClosures_body;
            assert(named_closures(
                st_push_tracking(s1),
                closures@,
                cl1@,
                first_free(st0),
                st_env_index(s2),
            ));
            assert(scope_of_aliases(cl1@) =~= scope) by {
                assert forall|i: int| 0 <= i < cl1@.len() implies scope_of_aliases(cl1@)[i]
                    == scope[i] by {
                    assert(cl1@[i].alias.var == closures@[i].alias.var);
                }
            }
            lemma_start(mt);
            lemma_ws_closures(
                mt,
                Ok(mt),
                none,
                closures@,
                cl1@,
                first_free(st0),
                st_env_index(s2),
            );
            lemma_then_closures(mt, Ok(mt), none, closures@, closures@.len());
            let rc = free_refs_closures(closures@, closures@.len());
            assert(none + rc =~= rc);
            lemma_tracked(mp, s2, rc);
            lemma_ws_at(mp, s2c, rc, *body, *body1);
        },
        _ => {},
    }
}

/// The effect of a walk: it leaves the scope stack as it was, and every
/// open frame records the free references of what was walked.
pub proof fn lemma_effect(m: TrackerModel, e: SingleExpression)
    requires
        frames_fit(m),
    ensures
        effect(m, run(Ok(m), e).0, free_refs(e)),
    decreases e, 1nat,
{
    match e.kind {
        SingleExpressionKind::Variable(_)
        | SingleExpressionKind::Atomic(_)
        | SingleExpressionKind::NamedFunction { .. }
        | SingleExpressionKind::ExternalNamedFunction { .. } => lemma_effect_leaf(m, e),
        SingleExpressionKind::InterModuleCall { .. } | SingleExpressionKind::ApplyCall { .. } => lemma_effect_call(
            m,
            e,
        ),
        SingleExpressionKind::Tuple(_)
        | SingleExpressionKind::List { .. }
        | SingleExpressionKind::MakeMap { .. }
        | SingleExpressionKind::Binary(_)
        | SingleExpressionKind::PrimOp { .. } => lemma_effect_constructor(m, e),
        SingleExpressionKind::Let { .. } | SingleExpressionKind::Do(_, _) => lemma_effect_binding(
            m,
            e,
        ),
        SingleExpressionKind::Try { .. } => lemma_effect_try(m, e),
        SingleExpressionKind::Case { .. } | SingleExpressionKind::Receive { .. } => lemma_effect_match(
            m,
            e,
        ),
        SingleExpressionKind::BindClosure { .. } => lemma_effect_closure(m, e),
        SingleExpressionKind::BindClosures { .. } => lemma_effect_group(m, e),
    }
}

proof fn lemma_effect_leaf(m: TrackerModel, e: SingleExpression)
    requires
        frames_fit(m),
        e.kind is Variable || e.kind is Atomic || e.kind is NamedFunction
            || e.kind is ExternalNamedFunction,
    ensures
        effect(m, run(Ok(m), e).0, free_refs(e)),
{
    lemma_start(m);
    match e.kind {
        SingleExpressionKind::Variable(v) => {
            lemma_get_is_absorb(m, var_key(v.var@));
        },
        SingleExpressionKind::NamedFunction { name, is_lambda } => {
            lemma_get_is_absorb(m, fun_key(name@));
            if m.get_result(fun_key(name@)) is None {
                assert(m.get_state(fun_key(name@)) == m);
            }
        },
        _ => {},
    }
}

proof fn lemma_effect_call(m: TrackerModel, e: SingleExpression)
    requires
        frames_fit(m),
        e.kind is InterModuleCall || e.kind is ApplyCall,
    ensures
        effect(m, run(Ok(m), e).0, free_refs(e)),
    decreases e, 0nat,
{
    let st0: PassState = Ok(m);
    let none = Seq::<ScopeKey>::empty();
    lemma_start(m);
    match e.kind {
        SingleExpressionKind::InterModuleCall { module, name, args } => {
            let s1 = run(st0, *module).0;
            let s2 = run(s1, *name).0;
            let s3 = run_seq(s2, args@, args@.len());
            assert(run(st0, e) == fresh(s3));
            lemma_then_run(m, st0, none, *module);
            lemma_then_run(m, s1, none + free_refs(*module), *name);
            lemma_then_seq(m, s2, none + free_refs(*module) + free_refs(*name), args@, args@.len());
            lemma_issue_after(m, s3, free_refs(e), 1);
            assert(free_refs(e) =~= none + free_refs(*module) + free_refs(*name) + free_refs_seq(
                args@,
                args@.len(),
            ));
        },
        SingleExpressionKind::ApplyCall { fun, args } => {
            let s1 = run_seq(st0, args@, args@.len());
            let s2 = run(s1, *fun).0;
            assert(run(st0, e) == fresh(s2));
            lemma_then_seq(m, st0, none, args@, args@.len());
            lemma_then_run(m, s1, none + free_refs_seq(args@, args@.len()), *fun);
            assert(free_refs(e) =~= none + free_refs_seq(args@, args@.len()) + free_refs(*fun));
            lemma_issue_after(m, s2, free_refs(e), 1);
        },
        _ => {},
    }
}

proof fn lemma_effect_constructor(m: TrackerModel, e: SingleExpression)
    requires
        frames_fit(m),
        e.kind is Tuple || e.kind is List || e.kind is MakeMap || e.kind is Binary
            || e.kind is PrimOp,
    ensures
        effect(m, run(Ok(m), e).0, free_refs(e)),
    decreases e, 0nat,
{
    let st0: PassState = Ok(m);
    let none = Seq::<ScopeKey>::empty();
    lemma_start(m);
    match e.kind {
        SingleExpressionKind::Tuple(vals) => {
            let s1 = run_seq(st0, vals@, vals@.len());
            assert(run(st0, e) == fresh(s1));
            lemma_then_seq(m, st0, none, vals@, vals@.len());
            assert(free_refs(e) =~= none + free_refs_seq(vals@, vals@.len()));
            lemma_issue_after(m, s1, free_refs(e), 1);
        },
        SingleExpressionKind::PrimOp { name, args } => {
            let s1 = run_seq(st0, args@, args@.len());
            assert(run(st0, e) == fresh(s1));
            lemma_then_seq(m, st0, none, args@, args@.len());
            assert(free_refs(e) =~= none + free_refs_seq(args@, args@.len()));
            lemma_issue_after(m, s1, free_refs(e), 1);
        },
        SingleExpressionKind::List { head, tail } => {
            let s1 = run_seq(st0, head@, head@.len());
            let s2 = run(s1, *tail).0;
            assert(run(st0, e) == fresh(s2));
            lemma_then_seq(m, st0, none, head@, head@.len());
            lemma_then_run(m, s1, none + free_refs_seq(head@, head@.len()), *tail);
            assert(free_refs(e) =~= none + free_refs_seq(head@, head@.len()) + free_refs(*tail));
            lemma_issue_after(m, s2, free_refs(e), 1);
        },
        SingleExpressionKind::MakeMap { values, merge } => {
            let s1 = run_pairs(st0, values@, values@.len());
            lemma_then_pairs(m, st0, none, values@, values@.len());
            match merge {
                Some(b) => {
                    let s2 = run(s1, *b).0;
                    assert(run(st0, e) == fresh(s2));
                    lemma_then_run(m, s1, none + free_refs_pairs(values@, values@.len()), *b);
                    assert(free_refs(e) =~= none + free_refs_pairs(values@, values@.len())
                        + free_refs(*b));
                    lemma_issue_after(m, s2, free_refs(e), 1);
                },
                None => {
                    assert(run(st0, e) == fresh(s1));
                    assert(free_refs(e) =~= none + free_refs_pairs(values@, values@.len()));
                    lemma_issue_after(m, s1, free_refs(e), 1);
                },
            }
        },
        SingleExpressionKind::Binary(elems) => {
            let s1 = run_segments(st0, elems@, elems@.len());
            assert(run(st0, e) == fresh(s1));
            lemma_then_segments(m, st0, none, elems@, elems@.len());
            assert(free_refs(e) =~= none + free_refs_segments(elems@, elems@.len()));
            lemma_issue_after(m, s1, free_refs(e), 1);
        },
        _ => {},
    }
}

proof fn lemma_effect_binding(m: TrackerModel, e: SingleExpression)
    requires
        frames_fit(m),
        e.kind is Let || e.kind is Do,
    ensures
        effect(m, run(Ok(m), e).0, free_refs(e)),
    decreases e, 0nat,
{
    let st0: PassState = Ok(m);
    let none = Seq::<ScopeKey>::empty();
    lemma_start(m);
    match e.kind {
        SingleExpressionKind::Do(e1, e2) => {
            let s1 = run_seq(st0, e1.values@, e1.values@.len());
            assert(run(st0, e) == run(s1, *e2));
            lemma_then_seq(m, st0, none, e1.values@, e1.values@.len());
            lemma_then_run(m, s1, none + free_refs_seq(e1.values@, e1.values@.len()), *e2);
            assert(free_refs(e) =~= none + free_refs_seq(e1.values@, e1.values@.len())
                + free_refs(*e2));
        },
        SingleExpressionKind::Let { val, vars, body } => {
            if vars@.len() <= val.values@.len() {
                let s1 = run_seq(st0, val.values@, val.values@.len());
                let scope = bound_scope(st0, vars@, val.values@);
                let r = run(st_push(s1, scope), *body);
                assert(run(st0, e) == (st_pop(r.0), r.1));
                lemma_then_seq(m, st0, none, val.values@, val.values@.len());
                lemma_then_scoped(
                    m,
                    s1,
                    none + free_refs_seq(val.values@, val.values@.len()),
                    scope,
                    *body,
                );
                lemma_bound_scope_keys(st0, vars@, val.values@);
                assert(free_refs(e) =~= none + free_refs_seq(val.values@, val.values@.len())
                    + remove_bound(free_refs(*body), scope_keys(scope)));
            }
        },
        _ => {},
    }
}

proof fn lemma_effect_try(m: TrackerModel, e: SingleExpression)
    requires
        frames_fit(m),
        e.kind is Try,
    ensures
        effect(m, run(Ok(m), e).0, free_refs(e)),
    decreases e, 0nat,
{
    let st0: PassState = Ok(m);
    let none = Seq::<ScopeKey>::empty();
    lemma_start(m);
    match e.kind {
        SingleExpressionKind::Try { body, then_vars, then, catch_vars, catch } => {
            if then_vars@.len() == body.values@.len() {
                let s1 = run_seq(st0, body.values@, body.values@.len());
                let scope1 = bound_scope(st0, then_vars@, body.values@);
                let s2 = st_pop(run(st_push(s1, scope1), *then).0);
                let s3 = issue_many(s2, catch_vars@.len());
                let scope2 = fresh_scope(variable_names(catch_vars@), first_free(s2), false);
                let s4 = st_pop(run(st_push(s3, scope2), *catch).0);
                assert(run(st0, e) == fresh(s4));
                let r1 = none + free_refs_seq(body.values@, body.values@.len());
                let r2 = r1 + remove_bound(free_refs(*then), scope_keys(scope1));
                let r3 = r2 + remove_bound(free_refs(*catch), scope_keys(scope2));
                lemma_then_seq(m, st0, none, body.values@, body.values@.len());
                lemma_then_scoped(m, s1, r1, scope1, *then);
                lemma_issue_after(m, s2, r2, catch_vars@.len());
                lemma_then_scoped(m, s3, r2, scope2, *catch);
                lemma_bound_scope_keys(st0, then_vars@, body.values@);
                lemma_fresh_scope_keys(variable_names(catch_vars@), first_free(s2), false);
                assert(free_refs(e) =~= r3);
                lemma_issue_after(m, s4, r3, 1);
            }
        },
        _ => {},
    }
}

proof fn lemma_effect_match(m: TrackerModel, e: SingleExpression)
    requires
        frames_fit(m),
        e.kind is Case || e.kind is Receive,
    ensures
        effect(m, run(Ok(m), e).0, free_refs(e)),
    decreases e, 0nat,
{
    let st0: PassState = Ok(m);
    let none = Seq::<ScopeKey>::empty();
    lemma_start(m);
    match e.kind {
        SingleExpressionKind::Case { val, clauses, values } => {
            let s1 = run_seq(st0, val.values@, val.values@.len());
            let s2 = run_seq(s1, values@, values@.len());
            let s3 = run_clauses(s2, clauses@, clauses@.len());
            assert(run(st0, e) == fresh(s3));
            let r1 = none + free_refs_seq(val.values@, val.values@.len());
            let r2 = r1 + free_refs_seq(values@, values@.len());
            let r3 = r2 + free_refs_clauses(clauses@, clauses@.len());
            lemma_then_seq(m, st0, none, val.values@, val.values@.len());
            lemma_then_seq(m, s1, r1, values@, values@.len());
            lemma_then_clauses(m, s2, r2, clauses@, clauses@.len());
            assert(free_refs(e) =~= r3);
            lemma_issue_after(m, s3, r3, 1);
        },
        SingleExpressionKind::Receive { clauses, pattern_values, timeout_time, timeout_body } => {
            let s1 = run_seq(st0, pattern_values@, pattern_values@.len());
            let s2 = run_clauses(s1, clauses@, clauses@.len());
            let s3 = run(s2, *timeout_time).0;
            let s4 = run(s3, *timeout_body).0;
            assert(run(st0, e) == fresh(s4));
            let r1 = none + free_refs_seq(pattern_values@, pattern_values@.len());
            let r2 = r1 + free_refs_clauses(clauses@, clauses@.len());
            let r3 = r2 + free_refs(*timeout_time);
            let r4 = r3 + free_refs(*timeout_body);
            lemma_then_seq(m, st0, none, pattern_values@, pattern_values@.len());
            lemma_then_clauses(m, s1, r1, clauses@, clauses@.len());
            lemma_then_run(m, s2, r2, *timeout_time);
            lemma_then_run(m, s3, r3, *timeout_body);
            assert(free_refs(e) =~= r4);
            lemma_issue_after(m, s4, r4, 1);
        },
        _ => {},
    }
}

proof fn lemma_effect_closure(m: TrackerModel, e: SingleExpression)
    requires
        frames_fit(m),
        e.kind is BindClosure,
    ensures
        effect(m, run(Ok(m), e).0, free_refs(e)),
    decreases e, 0nat,
{
    let st0: PassState = Ok(m);
    let none = Seq::<ScopeKey>::empty();
    match e.kind {
        SingleExpressionKind::BindClosure { closure, lambda_env, env_ssa } => {
            let mt = m.push_tracking();
            let s1 = run_function(Ok(mt), closure.fun);
            let s2 = st_close_env(s1);
            let s3 = fresh(s2).0;
            assert(run(st0, e) == fresh(s3));
            assert(frames_fit(mt));
            lemma_start(mt);
            lemma_then_function(mt, Ok(mt), none, closure.fun);
            assert(none + free_refs_function(closure.fun) =~= free_refs(e));
            lemma_tracked(m, s1, free_refs(e));
            lemma_issue_after(m, s2, free_refs(e), 1);
            lemma_issue_after(m, s3, free_refs(e), 1);
        },
        _ => {},
    }
}

proof fn lemma_effect_group(m: TrackerModel, e: SingleExpression)
    requires
        frames_fit(m),
        e.kind is BindClosures,
    ensures
        effect(m, run(Ok(m), e).0, free_refs(e)),
    decreases e, 0nat,
{
    broadcast use crate::ssa_model::group_sticky_errors;

    let st0: PassState = Ok(m);
    let none = Seq::<ScopeKey>::empty();
    match e.kind {
        SingleExpressionKind::BindClosures { closures, body, lambda_env, env_ssa } => {
            let s0 = issue_many(st0, closures@.len());
            let scope = fresh_scope(alias_names(closures@), first_free(st0), true);
            let s1 = st_push(s0, scope);
            let s2 = run_closures(st_push_tracking(s1), closures@, closures@.len());
            let s2c = st_close_env(s2);
            let s3 = st_pop(run(s2c, *body).0);
            let s4 = fresh(s3).0;
            assert(run(st0, e) == fresh(s4));
            lemma_fresh_scope_keys(alias_names(closures@), first_free(st0), true);
            match s0 {
                Ok(m0) => {
                    assert(frames_fit(m0));
                    let mp = m0.push_scope(scope);
                    assert(frames_fit(mp));
                    let mt = mp.push_tracking();
                    assert(frames_fit(mt));
                    lemma_start(mt);
                    lemma_then_closures(mt, Ok(mt), none, closures@, closures@.len());
                    let rc = free_refs_closures(closures@, closures@.len());
                    assert(none + rc =~= rc);
                    lemma_tracked(mp, s2, rc);
                    lemma_then_run(mp, s2c, rc, *body);
                    lemma_scoped(m0, scope, run(s2c, *body).0, rc + free_refs(*body));
                    lemma_start(m);
                    assert(effect(m, Ok(m0), none));
                    lemma_chain(m, m0, s3, none, free_refs(e));
                    assert(none + free_refs(e) =~= free_refs(e));
                    lemma_issue_after(m, s3, free_refs(e), 1);
                    lemma_issue_after(m, s4, free_refs(e), 1);
                },
                Err(_) => {},
            }
        },
        _ => {},
    }
}

/// A lookup keeps the invariants of the tracker: what a frame records is a
/// name that was issued, under the next number of the frame, and no name
/// that the frame holds already.
pub proof fn lemma_lookup_keeps_wf(m: TrackerModel, key: ScopeKey)
    requires
        m.wf(),
    ensures
        m.get_state(key).wf(),
{
    let n = m.get_state(key);
    lemma_resolve_bound(m.scopes, key);
    if resolve(m.scopes, key) is Some {
        let (d, v) = resolve(m.scopes, key)->0;
        let j = choose|j: int|
            0 <= j < m.scopes[d as int].len() && #[trigger] m.scopes[d as int][j] == (key, v);
        assert(1 <= m.scopes[d as int][j].1.0 < m.next);
        assert forall|i: int, k: int|
            0 <= i < n.frames.len() && 0 <= k < n.frames[i].captures.len() implies {
            &&& (#[trigger] n.frames[i].captures[k]).index == k
            &&& 1 <= n.frames[i].captures[k].ssa.0 < n.next
        } by {
            if k < m.frames[i].captures.len() {
                assert(n.frames[i].captures[k] == m.frames[i].captures[k]);
            }
        }
        assert forall|i: int, k: int, l: int|
            0 <= i < n.frames.len() && 0 <= k < l < n.frames[i].captures.len() implies (
        #[trigger] n.frames[i].captures[k]).name != (#[trigger] n.frames[i].captures[l]).name by {
            assert(n.frames[i].captures[k] == m.frames[i].captures[k]);
            if l < m.frames[i].captures.len() {
                assert(n.frames[i].captures[l] == m.frames[i].captures[l]);
            }
        }
        assert forall|i: int, j2: int| 0 <= i <= j2 < n.frames.len() implies (
        #[trigger] n.frames[i]).start <= (#[trigger] n.frames[j2]).start by {
            assert(m.frames[i].start <= m.frames[j2].start);
        }
    }
}

/// Issuing a name, opening a frame, closing a frame and registering an
/// environment keep the invariants of the tracker. So does entering a scope
/// that binds names that were issued.
pub proof fn lemma_steps_keep_wf(m: TrackerModel, scope: Seq<(ScopeKey, SSAVariable)>)
    requires
        m.wf(),
    ensures
        m.can_issue() ==> m.issue().wf(),
        m.push_tracking().wf(),
        m.frames.len() > 0 ==> m.pop_tracking().wf(),
        forall|env: crate::scope_tracker::LambdaEnvModel| #[trigger] m.add_lambda_env(env).wf(),
        (forall|j: int| 0 <= j < scope.len() ==> 1 <= (#[trigger] scope[j]).1.0 < m.next)
            ==> m.push_scope(scope).wf(),
{
    if m.can_issue() {
        let n = m.issue();
        assert forall|i: int, j: int|
            0 <= i < n.scopes.len() && 0 <= j < n.scopes[i].len() implies 1 <= (
        #[trigger] n.scopes[i][j]).1.0 < n.next by {
            assert(1 <= m.scopes[i][j].1.0 < m.next);
        }
        assert forall|i: int, k: int|
            0 <= i < n.frames.len() && 0 <= k < n.frames[i].captures.len() implies {
            &&& (#[trigger] n.frames[i].captures[k]).index == k
            &&& 1 <= n.frames[i].captures[k].ssa.0 < n.next
        } by {
            assert(m.frames[i].captures[k].index == k);
        }
    }
    let t = m.push_tracking();
    assert forall|i: int, j: int| 0 <= i <= j < t.frames.len() implies (#[trigger] t.frames[i]).start
        <= (#[trigger] t.frames[j]).start by {
        if j < m.frames.len() {
            assert(m.frames[i].start <= m.frames[j].start);
        } else if i < m.frames.len() {
            assert(m.frames[i].start <= m.scopes.len());
        }
    }
    assert forall|i: int, k: int|
        0 <= i < t.frames.len() && 0 <= k < t.frames[i].captures.len() implies {
        &&& (#[trigger] t.frames[i].captures[k]).index == k
        &&& 1 <= t.frames[i].captures[k].ssa.0 < t.next
    } by {
        assert(m.frames[i].captures[k].index == k);
    }
    assert forall|i: int, k: int, l: int|
        0 <= i < t.frames.len() && 0 <= k < l < t.frames[i].captures.len() implies (
    #[trigger] t.frames[i].captures[k]).name != (#[trigger] t.frames[i].captures[l]).name by {
        assert(m.frames[i].captures[k].name != m.frames[i].captures[l].name);
    }
    if m.frames.len() > 0 {
        let p = m.pop_tracking();
        assert forall|i: int, j: int| 0 <= i <= j < p.frames.len() implies (
        #[trigger] p.frames[i]).start <= (#[trigger] p.frames[j]).start by {
            assert(m.frames[i].start <= m.frames[j].start);
        }
        assert forall|i: int, k: int|
            0 <= i < p.frames.len() && 0 <= k < p.frames[i].captures.len() implies {
            &&& (#[trigger] p.frames[i].captures[k]).index == k
            &&& 1 <= p.frames[i].captures[k].ssa.0 < p.next
        } by {
            assert(m.frames[i].captures[k].index == k);
        }
        assert forall|i: int, k: int, l: int|
            0 <= i < p.frames.len() && 0 <= k < l < p.frames[i].captures.len() implies (
        #[trigger] p.frames[i].captures[k]).name != (#[trigger] p.frames[i].captures[l]).name by {
            assert(m.frames[i].captures[k].name != m.frames[i].captures[l].name);
        }
        assert forall|i: int| 0 <= i < p.frames.len() implies (#[trigger] p.frames[i]).start
            <= p.scopes.len() by {
            assert(m.frames[i].start <= m.scopes.len());
        }
    }
    if forall|j: int| 0 <= j < scope.len() ==> 1 <= (#[trigger] scope[j]).1.0 < m.next {
        let q = m.push_scope(scope);
        assert forall|i: int, j: int|
            0 <= i < q.scopes.len() && 0 <= j < q.scopes[i].len() implies 1 <= (
        #[trigger] q.scopes[i][j]).1.0 < q.next by {
            if i < m.scopes.len() {
                assert(1 <= m.scopes[i][j].1.0 < m.next);
            } else {
                assert(1 <= scope[j].1.0 < m.next);
            }
        }
        assert forall|i: int| 0 <= i < q.frames.len() implies (#[trigger] q.frames[i]).start
            <= q.scopes.len() by {
            assert(m.frames[i].start <= m.scopes.len());
        }
    }
}

} // verus!

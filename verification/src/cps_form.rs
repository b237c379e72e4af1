//! The shape of a function in continuation-passing style, and the
//! invariant under which a chunk is built.

use vstd::prelude::*;
use crate::lir::{
    AttributeKey, AttributeValue, CallType, ClosureEnv, Dialect, Ebb, FunctionIdent,
    FunctionModel, Op, OpKind, Value, ValueData,
};
use crate::module::store_function;
use crate::cps_model::{
    ChunkModel, ContSite, SharedModel, bind_spec, continuation_ident, find_function_at,
    find_site, ident_lt, intern_site, select_min,
};

verus! {

/// Whether an operation of this kind can stand in a function in
/// continuation-passing style: it does not return, and if it calls, it
/// calls in tail position.
pub open spec fn cps_kind(k: OpKind) -> bool {
    match k {
        OpKind::ReturnOk => false,
        OpKind::ReturnThrow => false,
        OpKind::Call { call_type, arity } => call_type == CallType::Tail,
        OpKind::Apply { call_type } => call_type == CallType::Tail,
        _ => true,
    }
}

/// Whether no operation of `f` returns and every call is a tail call.
pub open spec fn cps_kinds(f: FunctionModel) -> bool {
    forall|o: int| 0 <= o < f.ops.len() ==> cps_kind((#[trigger] f.ops[o]).kind)
}

/// Whether `f` is a function in continuation-passing style: it is well
/// formed, so every result is a value of its own and only the last
/// operation of an EBB ends it; its entry takes at least two arguments; no
/// operation returns; and every call is a tail call, which ends its EBB.
pub open spec fn cps_form(f: FunctionModel) -> bool {
    &&& f.wf()
    &&& f.dialect == Dialect::CPS
    &&& f.entry matches Some(e)
    &&& f.has_ebb(e)
    &&& f.ebbs[e.0 as int].args.len() >= 2
    &&& cps_kinds(f)
}

/// Whether every function of `fs` is in continuation-passing style.
pub open spec fn all_cps(fs: Seq<FunctionModel>) -> bool {
    forall|i: int| 0 <= i < fs.len() ==> cps_form(#[trigger] fs[i])
}

/// Whether every value in the table is a value of `f`.
pub open spec fn values_ok(vm: Seq<Option<Value>>, f: FunctionModel) -> bool {
    forall|i: int| 0 <= i < vm.len() ==> ((#[trigger] vm[i]) matches Some(v) ==> f.has_value(v))
}

/// Whether every EBB in the table is an EBB of `f`.
pub open spec fn ebbs_ok(em: Seq<Option<Ebb>>, f: FunctionModel) -> bool {
    forall|i: int| 0 <= i < em.len() ==> ((#[trigger] em[i]) matches Some(e) ==> f.has_ebb(e))
}

/// The invariant of a chunk under construction: the function built so far
/// is in continuation-passing style with `Ebb(0)` as its entry, and the
/// tables and the continuations refer to values and EBBs of it.
pub open spec fn chunk_ok(c: ChunkModel) -> bool {
    &&& cps_form(c.b.fun)
    &&& c.b.fun.entry == Some(Ebb(0))
    &&& values_ok(c.val_map, c.b.fun)
    &&& ebbs_ok(c.ebb_map, c.b.fun)
    &&& c.b.fun.has_value(c.ok_ret_cont)
    &&& c.b.fun.has_value(c.err_ret_cont)
}

/// Whether `g` has the head of `f`: the identity, the dialect, the
/// attributes and the entry are the same, and so are the arguments of the
/// first EBB, where `f` has one.
pub open spec fn same_head(f: FunctionModel, g: FunctionModel) -> bool {
    &&& g.ident == f.ident
    &&& g.dialect == f.dialect
    &&& g.attributes == f.attributes
    &&& g.entry == f.entry
    &&& g.ebbs.len() >= f.ebbs.len()
    &&& f.has_ebb(Ebb(0)) ==> g.ebbs[0].args == f.ebbs[0].args
}

/// Whether `f` has the head of the chunk of `src` that starts at `site`:
/// an entry point keeps the identity of `src` and takes the two
/// continuations and then the arguments of the EBB it starts in; a
/// continuation has the identity of a closure of `src`, is marked as a
/// continuation and takes an environment and a result.
pub open spec fn chunk_head(
    src: FunctionModel,
    site: ContSite,
    cont: Option<ClosureEnv>,
    f: FunctionModel,
) -> bool {
    &&& f.dialect == Dialect::CPS
    &&& f.entry == Some(Ebb(0))
    &&& f.has_ebb(Ebb(0))
    &&& match cont {
        Some(env) => {
            &&& f.ident == continuation_ident(src.ident, env)
            &&& f.attributes == seq![(AttributeKey::Continuation, AttributeValue::Unit)]
            &&& f.ebbs[0].args == seq![Value(0), Value(1)]
        },
        None => {
            &&& f.ident == src.ident
            &&& f.attributes == Seq::<(AttributeKey, AttributeValue)>::empty()
            &&& site matches ContSite::Op(op)
            &&& f.ebbs[0].args.len() == 2 + src.ebbs[src.ops[op.0 as int].ebb.0 as int].args.len()
            &&& f.ebbs[0].args[0] == Value(0)
            &&& f.ebbs[0].args[1] == Value(1)
        },
    }
}

/// Whether `vals` are values of `f`.
pub open spec fn all_values(vals: Seq<Value>, f: FunctionModel) -> bool {
    forall|i: int| 0 <= i < vals.len() ==> f.has_value(#[trigger] vals[i])
}

/// Binding keeps a table within the function where the new values are
/// within it.
pub proof fn lemma_bind_ok(
    vm: Seq<Option<Value>>,
    keys: Seq<Value>,
    news: Seq<Value>,
    k: nat,
    f: FunctionModel,
)
    requires
        values_ok(vm, f),
        all_values(news, f),
    ensures
        values_ok(bind_spec(vm, keys, news, k), f),
        bind_spec(vm, keys, news, k).len() == vm.len(),
    decreases k,
{
    if !(k == 0 || k > keys.len() || k > news.len()) {
        lemma_bind_ok(vm, keys, news, (k - 1) as nat, f);
        assert(f.has_value(news[k - 1]));
    }
}

/// A table stays within a function that grows.
pub proof fn lemma_values_ok_grow(vm: Seq<Option<Value>>, f: FunctionModel, g: FunctionModel)
    requires
        values_ok(vm, f),
        f.values.len() <= g.values.len(),
    ensures
        values_ok(vm, g),
{
    assert forall|i: int| 0 <= i < vm.len() implies ((#[trigger] vm[i]) matches Some(v)
        ==> g.has_value(v)) by {
        if vm[i] is Some {
            assert(f.has_value(vm[i]->0));
        }
    }
}

/// A table of EBBs stays within a function that grows.
pub proof fn lemma_ebbs_ok_grow(em: Seq<Option<Ebb>>, f: FunctionModel, g: FunctionModel)
    requires
        ebbs_ok(em, f),
        f.ebbs.len() <= g.ebbs.len(),
    ensures
        ebbs_ok(em, g),
{
    assert forall|i: int| 0 <= i < em.len() implies ((#[trigger] em[i]) matches Some(e)
        ==> g.has_ebb(e)) by {
        if em[i] is Some {
            assert(f.has_ebb(em[i]->0));
        }
    }
}

/// In a well-formed function every result is a value of its own: two
/// results that are the same value are the same result of the same
/// operation, and no result is an argument of an EBB.
pub proof fn lemma_writes_unique(f: FunctionModel, o1: Op, i1: int, o2: Op, i2: int)
    requires
        f.wf(),
        f.has_op(o1),
        f.has_op(o2),
        0 <= i1 < f.ops[o1.0 as int].writes.len(),
        0 <= i2 < f.ops[o2.0 as int].writes.len(),
        f.ops[o1.0 as int].writes[i1] == f.ops[o2.0 as int].writes[i2],
    ensures
        o1 == o2,
        i1 == i2,
        forall|e: int, k: int|
            0 <= e < f.ebbs.len() && 0 <= k < f.ebbs[e].args.len() ==> f.ebbs[e].args[k]
                != f.ops[o1.0 as int].writes[i1],
{
    assert(f.wf_op(o1.0 as int));
    assert(f.wf_op(o2.0 as int));
    let w = f.ops[o1.0 as int].writes[i1];
    assert(f.values[w.0 as int] == ValueData::Result { op: o1, index: i1 as usize });
    assert(f.values[f.ops[o2.0 as int].writes[i2].0 as int] == ValueData::Result {
        op: o2,
        index: i2 as usize,
    });
    assert forall|e: int, k: int|
        0 <= e < f.ebbs.len() && 0 <= k < f.ebbs[e].args.len() implies f.ebbs[e].args[k] != w by {
        assert(f.wf_ebb(e));
        assert(f.has_value(f.ebbs[e].args[k]));
    }
}

/// In a function in continuation-passing style every call is the last
/// operation of its EBB.
pub proof fn lemma_calls_end_their_ebb(f: FunctionModel, o: Op)
    requires
        cps_form(f),
        f.has_op(o),
        f.ops[o.0 as int].kind.is_call(),
    ensures
        f.ops[o.0 as int].kind.is_terminator(),
        f.op_after(o) is None,
{
    assert(cps_kind(f.ops[o.0 as int].kind));
    assert(f.wf_op(o.0 as int));
    let d = f.ops[o.0 as int];
    assert(f.wf_ebb(d.ebb.0 as int));
    if d.pos + 1 < f.ebbs[d.ebb.0 as int].ops.len() {
        assert(f.ebbs[d.ebb.0 as int].ops[d.pos as int] == o);
    }
}

/// What is found among the first `k` entries depends on those entries
/// only.
pub proof fn lemma_find_site_prefix(
    a: Seq<(ContSite, ClosureEnv)>,
    b: Seq<(ContSite, ClosureEnv)>,
    site: ContSite,
    k: nat,
)
    requires
        k <= a.len(),
        k <= b.len(),
        forall|i: int| 0 <= i < k ==> a[i] == b[i],
    ensures
        find_site(a, site, k) == find_site(b, site, k),
    decreases k,
{
    if k > 0 {
        lemma_find_site_prefix(a, b, site, (k - 1) as nat);
    }
}

/// Continuation sharing: a site has one closure environment, and so one
/// continuation function, however often it is met. Meeting it again gives
/// the environment it got when it was first met, and changes nothing: no
/// second environment is made and no second chunk is scheduled.
pub proof fn lemma_site_interned_once(s: SharedModel, site: ContSite, n: usize, m: usize)
    ensures
        intern_site(intern_site(s, site, n).0, site, m) == intern_site(s, site, n),
        find_site(
            intern_site(s, site, n).0.continuations,
            site,
            intern_site(s, site, n).0.continuations.len(),
        ) == Some(intern_site(s, site, n).1),
{
    let (s1, e1) = intern_site(s, site, n);
    if find_site(s.continuations, site, s.continuations.len()) is None {
        lemma_find_site_prefix(s.continuations, s1.continuations, site, s.continuations.len());
    }
}

/// Meeting a site leaves every site that was met before with the closure
/// environment it has.
pub proof fn lemma_sites_keep_their_env(s: SharedModel, site: ContSite, n: usize, other: ContSite)
    requires
        find_site(s.continuations, other, s.continuations.len()) is Some,
    ensures
        find_site(
            intern_site(s, site, n).0.continuations,
            other,
            intern_site(s, site, n).0.continuations.len(),
        ) == find_site(s.continuations, other, s.continuations.len()),
{
    let (s1, e1) = intern_site(s, site, n);
    if find_site(s.continuations, site, s.continuations.len()) is None {
        lemma_find_site_prefix(s.continuations, s1.continuations, other, s.continuations.len());
    }
}

/// Storing a function in continuation-passing style among such functions
/// leaves such functions.
pub proof fn lemma_store_keeps_cps(fs: Seq<FunctionModel>, f: FunctionModel)
    requires
        all_cps(fs),
        cps_form(f),
    ensures
        all_cps(store_function(fs, f)),
{
    find_function_at(fs, f.ident, fs.len());
}

/// The order of identities is transitive.
pub proof fn lemma_ident_lt_transitive(a: FunctionIdent, b: FunctionIdent, c: FunctionIdent)
    requires
        ident_lt(a, b),
        ident_lt(b, c),
    ensures
        ident_lt(a, c),
{
}

/// The order of identities is strict and total: of two identities exactly
/// one comes first, unless they are the same.
pub proof fn lemma_ident_lt_total(a: FunctionIdent, b: FunctionIdent)
    ensures
        !(ident_lt(a, b) && ident_lt(b, a)),
        a != b ==> ident_lt(a, b) || ident_lt(b, a),
        !ident_lt(a, a),
{
}

/// The function that is rewritten next is one that is not done, none that
/// is not done comes before it, and of those with the same identity it is
/// the first. Where none is chosen, all are done.
pub proof fn lemma_select_min_least(fs: Seq<FunctionModel>, done: Seq<bool>, k: nat)
    requires
        k <= fs.len(),
        k <= done.len(),
    ensures
        match select_min(fs, done, k) {
            Some(i) => {
                &&& 0 <= i < k
                &&& !done[i]
                &&& forall|j: int|
                    0 <= j < k && !#[trigger] done[j] ==> !ident_lt(fs[j].ident, fs[i].ident)
                &&& forall|j: int|
                    0 <= j < i && !#[trigger] done[j] ==> fs[j].ident != fs[i].ident
            },
            None => forall|j: int| 0 <= j < k ==> #[trigger] done[j],
        },
    decreases k,
{
    if k > 0 {
        lemma_select_min_least(fs, done, (k - 1) as nat);
        let prev = select_min(fs, done, (k - 1) as nat);
        if !done[k - 1] {
            if prev is Some {
                let j0 = prev->0;
                if ident_lt(fs[k - 1].ident, fs[j0].ident) {
                    assert forall|j: int| 0 <= j < k && !#[trigger] done[j] implies !ident_lt(
                        fs[j].ident,
                        fs[k - 1].ident,
                    ) by {
                        if j < k - 1 && ident_lt(fs[j].ident, fs[k - 1].ident) {
                            lemma_ident_lt_transitive(fs[j].ident, fs[k - 1].ident, fs[j0].ident);
                        }
                        lemma_ident_lt_total(fs[k - 1].ident, fs[k - 1].ident);
                    }
                    assert forall|j: int| 0 <= j < k - 1 && !#[trigger] done[j] implies fs[j].ident
                        != fs[k - 1].ident by {
                        if fs[j].ident == fs[k - 1].ident {
                            assert(ident_lt(fs[j].ident, fs[j0].ident));
                        }
                    }
                }
            } else {
                lemma_ident_lt_total(fs[k - 1].ident, fs[k - 1].ident);
            }
        }
    }
}

} // verus!

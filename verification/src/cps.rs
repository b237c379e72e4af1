//! The rewrite into continuation-passing style.
//!
//! For every call of a function two closures are made, one for the case
//! that the callee returns and one for the case that it throws. They are
//! handed to the callee as its first two arguments, and the call becomes a
//! tail call. So every function takes two more arguments than before: the
//! continuation to return to and the continuation to throw to.
//!
//! The rewrite produces three kinds of functions. An entry point keeps the
//! identity of its source; its entry EBB takes the two continuations before
//! the arguments of the source. A continuation has the identity of a closure
//! of its source; it takes an environment and the value that the call
//! yielded. The environment carries the two continuations of the function
//! and the values that are live where the continuation takes up.

use vstd::prelude::*;
use crate::lir::{
    AttributeKey, AttributeValue, CallType, ClosureEnv, Dialect, Ebb, EbbCall, Function,
    FunctionIdent, FunctionModel, Lambda, Op, OpKind, Value,
};
use crate::builder::{FunctionBuilder, extend};
use crate::live::{LiveValues};
use crate::module::ModuleEnvs;
use crate::cps_model::{
    ChunkModel, ContSite, CpsError, SharedModel, bind_spec, branch_targets, call_site_spec,
    continuation_ident,
    copy_branch_spec, copy_branches_spec, copy_op_spec, copy_read_spec, copy_values_spec,
    emit_call_spec, err_selection, filter_live, find_site, entry_at, live_at, intern_site,
    lookup_all, normal_conts_spec, rename_spec, return_spec, with_entry, successors, target_spec,
    bind_continuation, handle_op_spec, read_copied, branch_copied, op_copied, reads_map,
    empty_table, init_entry_spec, continuation_entry, init_continuation_spec, gen_chunk_spec,
    run_spec, call_sites, drain_spec, transform_function_spec, function_transformed, ident_lt,
    select_min, transform_all_spec, transform_module_spec, module_transformed, too_large,
};
use crate::flags::{count_false, lemma_count_false_update, new_flags, contains_value};
use crate::module::{Module, ModuleModel, functions_view, insert_function, store_function};
use crate::live::{live_values, liveness};
use crate::cps_form::{
    chunk_head, same_head,
    all_cps, all_values, chunk_ok, cps_form, cps_kind, ebbs_ok, lemma_bind_ok,
    lemma_values_ok_grow, lemma_ebbs_ok_grow, lemma_store_keeps_cps,
};

verus! {

/// The chunk under construction.
pub struct Chunk {
    pub b: FunctionBuilder,
    pub val_map: Vec<Option<Value>>,
    pub ebb_map: Vec<Option<Ebb>>,
    pub ok_ret_cont: Value,
    pub err_ret_cont: Value,
}

impl View for Chunk {
    type V = ChunkModel;

    open spec fn view(&self) -> ChunkModel {
        ChunkModel {
            b: self.b@,
            val_map: self.val_map@,
            ebb_map: self.ebb_map@,
            ok_ret_cont: self.ok_ret_cont,
            err_ret_cont: self.err_ret_cont,
        }
    }
}

/// What the chunks of one module share: the closure environments, the
/// continuations whose chunks are still to be generated, and the closure
/// environment of every continuation site met so far.
pub struct Shared {
    pub envs: ModuleEnvs,
    pub needed: Vec<(ContSite, ClosureEnv)>,
    pub continuations: Vec<(ContSite, ClosureEnv)>,
}

impl View for Shared {
    type V = SharedModel;

    open spec fn view(&self) -> SharedModel {
        SharedModel {
            envs: self.envs@,
            needed: self.needed@,
            continuations: self.continuations@,
        }
    }
}

/// The entry of a table at `i`, if there is one.
pub fn table_get<T: Copy>(m: &Vec<Option<T>>, i: usize) -> (r: Option<T>)
    ensures
        r == entry_at(m@, i),
{
    if i < m.len() {
        m[i]
    } else {
        None
    }
}

/// Puts `v` into the table at `i`. A table is never extended.
pub fn table_set<T>(m: &mut Vec<Option<T>>, i: usize, v: T)
    ensures
        final(m)@ == with_entry(old(m)@, i, v),
{
    if i < m.len() {
        m[i] = Some(v);
    }
}

/// Maps each of `keys`, in order, to the value at the same position of
/// `news` after the first `skip`.
pub fn bind(vm: &mut Vec<Option<Value>>, keys: &Vec<Value>, news: &Vec<Value>, skip: usize)
    requires
        skip <= news@.len(),
        keys@.len() <= news@.len() - skip,
    ensures
        final(vm)@ == bind_spec(
            old(vm)@,
            keys@,
            news@.subrange(skip as int, news@.len() as int),
            keys@.len(),
        ),
{
    let ghost vm0 = vm@;
    let ghost rest = news@.subrange(skip as int, news@.len() as int);
    let n = news.len();
    let mut i: usize = 0;
    while i < keys.len()
        invariant
            i <= keys.len(),
            n == news@.len(),
            skip <= news@.len(),
            keys@.len() <= news@.len() - skip,
            rest == news@.subrange(skip as int, news@.len() as int),
            vm@ == bind_spec(vm0, keys@, rest, i as nat),
        decreases keys.len() - i,
    {
        assert(bind_spec(vm0, keys@, rest, (i + 1) as nat) == with_entry(
            bind_spec(vm0, keys@, rest, i as nat),
            keys@[i as int].0,
            rest[i as int],
        ));
        table_set(vm, keys[i].0, news[skip + i]);
        i = i + 1;
    }
}

/// The value of the chunk that stands for the source value `v`.
pub fn copy_read(src_fun: &Function, c: &mut Chunk, v: Value) -> (r: Result<Value, CpsError>)
    requires
        src_fun@.has_value(v),
    ensures
        match copy_read_spec(src_fun@, old(c)@, v) {
            Ok((c1, d)) => r == Ok::<Value, CpsError>(d) && final(c)@ == c1,
            Err(e) => r == Err::<Value, CpsError>(e),
        },
        chunk_ok(old(c)@) ==> (r matches Ok(d) ==> chunk_ok(final(c)@) && final(c)@.b.fun.has_value(
            d,
        )),
        r matches Ok(d) ==> read_copied(src_fun@, old(c)@.val_map, final(c)@.b.fun, v, d),
        r is Ok ==> same_head(old(c)@.b.fun, final(c)@.b.fun),
{
    if src_fun.value_is_constant(v) {
        let value = c.b.create_constant(src_fun.value_constant(v));
        proof {
            if chunk_ok(old(c)@) {
                lemma_values_ok_grow(c@.val_map, old(c)@.b.fun, c@.b.fun);
                lemma_ebbs_ok_grow(c@.ebb_map, old(c)@.b.fun, c@.b.fun);
            }
        }
        Ok(value)
    } else {
        match table_get(&c.val_map, v.0) {
            Some(d) => Ok(d),
            None => Err(CpsError::MalformedOp),
        }
    }
}

/// The copy of a value makes a constant or nothing: the tables, the
/// operations and the EBBs stay, and the values that are there stay.
pub proof fn lemma_copy_read_frame(src: FunctionModel, c: ChunkModel, v: Value)
    ensures
        copy_read_spec(src, c, v) matches Ok((c1, d)) ==> {
            &&& c1.val_map == c.val_map
            &&& c1.ebb_map == c.ebb_map
            &&& c1.b.position == c.b.position
            &&& c1.b.current == c.b.current
            &&& c1.b.fun.ops == c.b.fun.ops
            &&& c1.b.fun.ebbs == c.b.fun.ebbs
            &&& c1.b.fun.values.len() >= c.b.fun.values.len()
        },
{
}

/// The copy of a value leaves the values that are there as they are.
pub proof fn lemma_copy_read_values(src: FunctionModel, c: ChunkModel, v: Value)
    ensures
        copy_read_spec(src, c, v) matches Ok((c1, d)) ==> forall|i: int|
            0 <= i < c.b.fun.values.len() ==> #[trigger] c1.b.fun.values[i] == c.b.fun.values[i],
{
}

/// The values of the chunk that stand for `vals` after the first `from`.
pub fn copy_values(src_fun: &Function, c: &mut Chunk, vals: &Vec<Value>, from: usize) -> (r: Result<
    Vec<Value>,
    CpsError,
>)
    requires
        from <= vals@.len(),
        forall|i: int| 0 <= i < vals@.len() ==> src_fun@.has_value(#[trigger] vals@[i]),
    ensures
        match copy_values_spec(
            src_fun@,
            old(c)@,
            vals@.subrange(from as int, vals@.len() as int),
            (vals@.len() - from) as nat,
        ) {
            Ok((c1, out)) => r matches Ok(v) && v@ == out && final(c)@ == c1,
            Err(e) => r == Err::<Vec<Value>, CpsError>(e),
        },
        chunk_ok(old(c)@) ==> (r matches Ok(v) ==> chunk_ok(final(c)@) && all_values(
            v@,
            final(c)@.b.fun,
        )),
        r matches Ok(v) ==> v@.len() == vals@.len() - from && forall|j: int|
            0 <= j < v@.len() ==> read_copied(
                src_fun@,
                old(c)@.val_map,
                final(c)@.b.fun,
                vals@[from + j],
                #[trigger] v@[j],
            ),
        r is Ok ==> same_head(old(c)@.b.fun, final(c)@.b.fun),
{
    let ghost c0 = c@;
    let ghost rest = vals@.subrange(from as int, vals@.len() as int);
    let mut out: Vec<Value> = Vec::new();
    let mut i: usize = from;
    while i < vals.len()
        invariant
            from <= i <= vals.len(),
            c0 == old(c)@,
            rest == vals@.subrange(from as int, vals@.len() as int),
            forall|i: int| 0 <= i < vals@.len() ==> src_fun@.has_value(#[trigger] vals@[i]),
            copy_values_spec(src_fun@, c0, rest, (i - from) as nat) == Ok::<
                (ChunkModel, Seq<Value>),
                CpsError,
            >((c@, out@)),
            chunk_ok(c0) ==> chunk_ok(c@) && all_values(out@, c@.b.fun),
            c@.val_map == c0.val_map,
            same_head(c0.b.fun, c@.b.fun),
            out@.len() == i - from,
            forall|j: int|
                0 <= j < out@.len() ==> read_copied(
                    src_fun@,
                    c0.val_map,
                    c@.b.fun,
                    vals@[from + j],
                    #[trigger] out@[j],
                ),
        decreases vals.len() - i,
    {
        let ghost before = c@;
        let ghost out0 = out@;
        proof {
            lemma_copy_read_frame(src_fun@, before, vals@[i as int]);
        }
        let ghost k = (i - from + 1) as nat;
        assert(copy_values_spec(src_fun@, c0, rest, k) == match copy_values_spec(
            src_fun@,
            c0,
            rest,
            (k - 1) as nat,
        ) {
            Err(e) => Err(e),
            Ok((c1, out)) => match copy_read_spec(src_fun@, c1, rest[k - 1]) {
                Err(e) => Err(e),
                Ok((c2, d)) => Ok((c2, out.push(d))),
            },
        });
        match copy_read(src_fun, c, vals[i]) {
            Ok(d) => {
                out.push(d);
                proof {
                    assert forall|j: int| 0 <= j < out@.len() implies read_copied(
                        src_fun@,
                        c0.val_map,
                        c@.b.fun,
                        vals@[from + j],
                        #[trigger] out@[j],
                    ) by {
                        if j < out0.len() {
                            assert(read_copied(
                                src_fun@,
                                c0.val_map,
                                before.b.fun,
                                vals@[from + j],
                                out0[j],
                            ));
                            lemma_copy_read_values(src_fun@, before, vals@[i as int]);
                        }
                    }
                    if chunk_ok(c0) {
                        assert forall|j: int| 0 <= j < out@.len() implies c@.b.fun.has_value(
                            #[trigger] out@[j],
                        ) by {
                            if j < out0.len() {
                                assert(before.b.fun.has_value(out0[j]));
                            }
                        }
                    }
                }
            },
            Err(e) => {
                proof {
                    lemma_copy_values_sticky(src_fun@, c0, rest, k, rest.len());
                }
                return Err(e);
            },
        }
        i = i + 1;
    }
    Ok(out)
}

/// Once the copy of a list of values has failed, it has failed for any
/// longer part of the list, with the same error.
pub proof fn lemma_copy_values_sticky(
    src: FunctionModel,
    c: ChunkModel,
    vals: Seq<Value>,
    k: nat,
    n: nat,
)
    requires
        copy_values_spec(src, c, vals, k) is Err,
        k <= n <= vals.len(),
    ensures
        copy_values_spec(src, c, vals, n) == copy_values_spec(src, c, vals, k),
    decreases n,
{
    if k < n {
        lemma_copy_values_sticky(src, c, vals, k, (n - 1) as nat);
        assert(copy_values_spec(src, c, vals, n) == match copy_values_spec(
            src,
            c,
            vals,
            (n - 1) as nat,
        ) {
            Err(e) => Err(e),
            Ok((c1, out)) => match copy_read_spec(src, c1, vals[n - 1]) {
                Err(e) => Err(e),
                Ok((c2, d)) => Ok((c2, out.push(d))),
            },
        });
    }
}

/// The EBB of the chunk that stands for the source EBB `target`, whose
/// first operation is `first`.
fn target_ebb(src_fun: &Function, c: &mut Chunk, target: Ebb, first: Op) -> (new: Ebb)
    requires
        src_fun@.has_ebb(target),
    ensures
        target_spec(src_fun@, old(c)@, target, first) == (final(c)@, new),
        chunk_ok(old(c)@) ==> chunk_ok(final(c)@) && final(c)@.b.fun.has_ebb(new),
        same_head(old(c)@.b.fun, final(c)@.b.fun),
{
    match table_get(&c.ebb_map, first.0) {
        Some(e) => e,
        None => {
            let _ = c.b.function().ebb_count();
            let new = c.b.insert_ebb();
            table_set(&mut c.ebb_map, first.0, new);
            let args = src_fun.ebb_args(target);
            let ghost f1 = c@.b.fun;
            let ghost vm1 = c@.val_map;
            let news = c.b.add_ebb_arguments(new, args.len());
            assert(news@.subrange(0, news@.len() as int) =~= news@);
            bind(&mut c.val_map, args, &news, 0);
            proof {
                if chunk_ok(old(c)@) {
                    lemma_values_ok_grow(vm1, old(c)@.b.fun, c@.b.fun);
                    lemma_ebbs_ok_grow(old(c)@.ebb_map, old(c)@.b.fun, c@.b.fun);
                    assert(all_values(news@, c@.b.fun));
                    lemma_bind_ok(vm1, args@, news@, args@.len(), c@.b.fun);
                }
            }
            new
        },
    }
}

/// Copies one branch of a source operation to the operation under
/// construction.
fn copy_branch(src_fun: &Function, c: &mut Chunk, branch: EbbCall) -> (r: Result<(), CpsError>)
    requires
        src_fun@.wf(),
        src_fun@.has_call(branch),
        old(c)@.b.current is Some,
        old(c)@.b.fun.has_op(old(c)@.b.current->0),
    ensures
        match copy_branch_spec(src_fun@, old(c)@, branch) {
            Ok(c1) => r is Ok && final(c)@ == c1 && c1.b.current == old(c)@.b.current
                && c1.b.fun.has_op(c1.b.current->0) && c1.b.position == old(c)@.b.position,
            Err(e) => r == Err::<(), CpsError>(e),
        },
        chunk_ok(old(c)@) ==> (r is Ok ==> chunk_ok(final(c)@)),
        r is Ok && old(c)@.ebb_map.len() == src_fun@.ops.len() ==> branch_added(
            src_fun@,
            old(c)@,
            final(c)@,
            branch,
        ),
        r is Ok ==> same_head(old(c)@.b.fun, final(c)@.b.fun),
{
    assert(src_fun@.wf_call(branch.0 as int));
    let _ = c.b.function().ebb_call_count();
    let old_target = src_fun.ebb_call_target(branch);
    let old_target_op = match src_fun.ebb_first_op(old_target) {
        Some(op) => op,
        None => {
            return Err(CpsError::MalformedOp);
        },
    };
    let new = target_ebb(src_fun, c, old_target, old_target_op);
    let args = src_fun.ebb_call_args(branch);
    assert(args@.subrange(0, args@.len() as int) =~= args@);
    let buf = match copy_values(src_fun, c, args, 0) {
        Ok(b) => b,
        Err(e) => {
            return Err(e);
        },
    };
    proof {
        lemma_copy_values_frame(
            src_fun@,
            target_spec(src_fun@, old(c)@, old_target, old_target_op).0,
            args@,
            args@.len(),
        );
    }
    let ghost c2 = c@;
    let call = c.b.create_ebb_call(new, &buf);
    c.b.op_build_ebb_call(call);
    let _ = c.b.function().ebb_call_count();
    proof {
        let t = target_spec(src_fun@, old(c)@, old_target, old_target_op);
        assert(t.0.b.fun.calls == old(c)@.b.fun.calls);
        assert(t.0.b.fun.ops == old(c)@.b.fun.ops);
        if old(c)@.ebb_map.len() == src_fun@.ops.len() {
            assert(entry_at(t.0.ebb_map, old_target_op.0) == Some(new)) by {
                assert(src_fun@.wf_ebb(old_target.0 as int));
                assert(src_fun@.has_op(src_fun@.ebbs[old_target.0 as int].ops[0]));
            }
            assert(branch_added(src_fun@, old(c)@, c@, branch));
        }
        if chunk_ok(old(c)@) {
            lemma_values_ok_grow(c2.val_map, c2.b.fun, c@.b.fun);
            lemma_ebbs_ok_grow(c2.ebb_map, c2.b.fun, c@.b.fun);
        }
    }
    Ok(())
}

/// The copy of values makes constants and nothing else: the operations, the
/// EBBs, the position and the operation under construction stay.
pub proof fn lemma_copy_values_frame(src: FunctionModel, c: ChunkModel, vals: Seq<Value>, k: nat)
    ensures
        copy_values_spec(src, c, vals, k) matches Ok((c1, out)) ==> {
            &&& c1.b.current == c.b.current
            &&& c1.b.position == c.b.position
            &&& c1.b.fun.ops == c.b.fun.ops
            &&& c1.b.fun.ebbs == c.b.fun.ebbs
            &&& c1.b.fun.calls == c.b.fun.calls
            &&& c1.val_map == c.val_map
            &&& c1.ebb_map == c.ebb_map
            &&& c1.ok_ret_cont == c.ok_ret_cont
            &&& c1.err_ret_cont == c.err_ret_cont
            &&& c1.b.fun.values.len() >= c.b.fun.values.len()
            &&& out.len() == (if k > vals.len() {
                0
            } else {
                k
            })
        },
    decreases k,
{
    if 0 < k <= vals.len() {
        lemma_copy_values_frame(src, c, vals, (k - 1) as nat);
        assert(copy_values_spec(src, c, vals, k) == match copy_values_spec(
            src,
            c,
            vals,
            (k - 1) as nat,
        ) {
            Err(e) => Err(e),
            Ok((c1, out)) => match copy_read_spec(src, c1, vals[k - 1]) {
                Err(e) => Err(e),
                Ok((c2, d)) => Ok((c2, out.push(d))),
            },
        });
    }
}

/// Whether `c1` is `c` after one branch of the operation under construction
/// was added, the copy of the source EBB call `branch`: the operations but
/// for that list of branches, the EBB calls that are there and the entries of
/// the EBB map stay.
pub open spec fn branch_added(src: FunctionModel, c: ChunkModel, c1: ChunkModel, branch: EbbCall) -> bool {
    let cur = c.b.current->0;
    let d = c.b.fun.ops[cur.0 as int];
    let d1 = c1.b.fun.ops[cur.0 as int];
    &&& c1.b.fun.ops.len() == c.b.fun.ops.len()
    &&& c1.b.fun.calls.len() == c.b.fun.calls.len() + 1
    &&& d1.kind == d.kind
    &&& d1.reads == d.reads
    &&& d1.writes == d.writes
    &&& d1.ebb == d.ebb
    &&& d1.branches == d.branches.push(EbbCall(c.b.fun.calls.len() as usize))
    &&& forall|i: int|
        0 <= i < c.b.fun.calls.len() ==> #[trigger] c1.b.fun.calls[i] == c.b.fun.calls[i]
    &&& c1.ebb_map.len() == c.ebb_map.len()
    &&& forall|i: int|
        0 <= i < c.ebb_map.len() && (#[trigger] c.ebb_map[i]) is Some ==> c1.ebb_map[i]
            == c.ebb_map[i]
    &&& branch_copied(src, c1, branch, EbbCall(c.b.fun.calls.len() as usize), cur)
}

/// Whether `c1` is `c` after the first `k` of `branches` were copied to the
/// operation under construction.
pub open spec fn branches_added(
    src: FunctionModel,
    c: ChunkModel,
    c1: ChunkModel,
    branches: Seq<EbbCall>,
    k: nat,
) -> bool {
    let cur = c.b.current->0;
    let d = c.b.fun.ops[cur.0 as int];
    let d1 = c1.b.fun.ops[cur.0 as int];
    &&& c1.b.fun.ops.len() == c.b.fun.ops.len()
    &&& c1.b.fun.calls.len() >= c.b.fun.calls.len()
    &&& d1.kind == d.kind
    &&& d1.reads == d.reads
    &&& d1.writes == d.writes
    &&& d1.ebb == d.ebb
    &&& d1.branches.len() == d.branches.len() + k
    &&& c1.ebb_map.len() == c.ebb_map.len()
    &&& forall|i: int|
        0 <= i < c.ebb_map.len() && (#[trigger] c.ebb_map[i]) is Some ==> c1.ebb_map[i]
            == c.ebb_map[i]
    &&& forall|i: int|
        0 <= i < k ==> branch_copied(
            src,
            c1,
            branches[i],
            #[trigger] d1.branches[d.branches.len() + i],
            cur,
        )
}

/// One more branch added to branches added gives branches added.
pub proof fn lemma_branches_added_step(
    src: FunctionModel,
    c0: ChunkModel,
    c: ChunkModel,
    c1: ChunkModel,
    branches: Seq<EbbCall>,
    k: nat,
)
    requires
        k < branches.len(),
        c0.b.current is Some,
        c.b.current == c0.b.current,
        c0.b.fun.has_op(c0.b.current->0),
        branches_added(src, c0, c, branches, k),
        branch_added(src, c, c1, branches[k as int]),
    ensures
        branches_added(src, c0, c1, branches, (k + 1) as nat),
{
    let cur = c0.b.current->0;
    let d = c0.b.fun.ops[cur.0 as int];
    let dm = c.b.fun.ops[cur.0 as int];
    let d1 = c1.b.fun.ops[cur.0 as int];
    assert forall|i: int| 0 <= i < k + 1 implies branch_copied(
        src,
        c1,
        branches[i],
        #[trigger] d1.branches[d.branches.len() + i],
        cur,
    ) by {
        if i < k {
            let b1 = dm.branches[d.branches.len() + i];
            assert(branch_copied(src, c, branches[i], b1, cur));
            assert(d1.branches[d.branches.len() + i] == b1);
            assert(c1.b.fun.calls[b1.0 as int] == c.b.fun.calls[b1.0 as int]);
            let first = src.ebb_first_op(src.calls[branches[i].0 as int].target)->0;
            assert(c.ebb_map[first.0 as int] is Some);
        }
    }
}

/// Copies the branches of a source operation to the operation under
/// construction.
fn copy_branches(src_fun: &Function, c: &mut Chunk, branches: &Vec<EbbCall>) -> (r: Result<
    (),
    CpsError,
>)
    requires
        src_fun@.wf(),
        forall|i: int| 0 <= i < branches@.len() ==> src_fun@.has_call(#[trigger] branches@[i]),
        old(c)@.b.current is Some,
        old(c)@.b.fun.has_op(old(c)@.b.current->0),
    ensures
        match copy_branches_spec(src_fun@, old(c)@, branches@, branches@.len()) {
            Ok(c1) => r is Ok && final(c)@ == c1 && c1.b.current == old(c)@.b.current
                && c1.b.position == old(c)@.b.position,
            Err(e) => r == Err::<(), CpsError>(e),
        },
        chunk_ok(old(c)@) ==> (r is Ok ==> chunk_ok(final(c)@)),
        r is Ok && old(c)@.ebb_map.len() == src_fun@.ops.len() ==> branches_added(
            src_fun@,
            old(c)@,
            final(c)@,
            branches@,
            branches@.len(),
        ),
        r is Ok ==> same_head(old(c)@.b.fun, final(c)@.b.fun),
{
    let ghost c0 = c@;
    let mut i: usize = 0;
    while i < branches.len()
        invariant
            i <= branches.len(),
            c0 == old(c)@,
            src_fun@.wf(),
            forall|i: int| 0 <= i < branches@.len() ==> src_fun@.has_call(#[trigger] branches@[i]),
            c@.b.current is Some,
            c@.b.current == c0.b.current,
            c@.b.position == c0.b.position,
            c@.b.fun.has_op(c@.b.current->0),
            copy_branches_spec(src_fun@, c0, branches@, i as nat) == Ok::<ChunkModel, CpsError>(c@),
            chunk_ok(c0) ==> chunk_ok(c@),
            c0.b.fun.has_op(c0.b.current->0),
            same_head(c0.b.fun, c@.b.fun),
            c0.ebb_map.len() == src_fun@.ops.len() ==> branches_added(
                src_fun@,
                c0,
                c@,
                branches@,
                i as nat,
            ),
        decreases branches.len() - i,
    {
        let ghost k = (i + 1) as nat;
        let ghost before = c@;
        assert(copy_branches_spec(src_fun@, c0, branches@, k) == match copy_branches_spec(
            src_fun@,
            c0,
            branches@,
            (k - 1) as nat,
        ) {
            Err(e) => Err(e),
            Ok(c1) => copy_branch_spec(src_fun@, c1, branches@[k - 1]),
        });
        match copy_branch(src_fun, c, branches[i]) {
            Ok(()) => {},
            Err(e) => {
                proof {
                    lemma_copy_branches_sticky(src_fun@, c0, branches@, k, branches@.len());
                }
                return Err(e);
            },
        }
        proof {
            if c0.ebb_map.len() == src_fun@.ops.len() {
                lemma_branches_added_step(src_fun@, c0, before, c@, branches@, i as nat);
            }
        }
        i = i + 1;
    }
    Ok(())
}

/// Once the copy of a list of branches has failed, it has failed for any
/// longer part of the list, with the same error.
pub proof fn lemma_copy_branches_sticky(
    src: FunctionModel,
    c: ChunkModel,
    branches: Seq<EbbCall>,
    k: nat,
    n: nat,
)
    requires
        copy_branches_spec(src, c, branches, k) is Err,
        k <= n <= branches.len(),
    ensures
        copy_branches_spec(src, c, branches, n) == copy_branches_spec(src, c, branches, k),
    decreases n,
{
    if k < n {
        lemma_copy_branches_sticky(src, c, branches, k, (n - 1) as nat);
        assert(copy_branches_spec(src, c, branches, n) == match copy_branches_spec(
            src,
            c,
            branches,
            (n - 1) as nat,
        ) {
            Err(e) => Err(e),
            Ok(c1) => copy_branch_spec(src, c1, branches[n - 1]),
        });
    }
}

/// The copy of branches adds EBBs and leaves those that are there.
pub proof fn lemma_copy_branches_ebbs(
    src: FunctionModel,
    c: ChunkModel,
    branches: Seq<EbbCall>,
    k: nat,
)
    ensures
        copy_branches_spec(src, c, branches, k) matches Ok(c1) ==> c1.b.fun.ebbs.len()
            >= c.b.fun.ebbs.len() && c1.b.position == c.b.position,
    decreases k,
{
    if !(k == 0 || k > branches.len()) {
        lemma_copy_branches_ebbs(src, c, branches, (k - 1) as nat);
        assert(copy_branches_spec(src, c, branches, k) == match copy_branches_spec(
            src,
            c,
            branches,
            (k - 1) as nat,
        ) {
            Err(e) => Err(e),
            Ok(c1) => copy_branch_spec(src, c1, branches[k - 1]),
        });
        if copy_branches_spec(src, c, branches, (k - 1) as nat) is Ok {
            let c1 = copy_branches_spec(src, c, branches, (k - 1) as nat)->Ok_0;
            let cd = src.calls[branches[k - 1].0 as int];
            if src.ebb_first_op(cd.target) is Some {
                let first = src.ebb_first_op(cd.target)->0;
                let t = target_spec(src, c1, cd.target, first);
                lemma_copy_values_frame(src, t.0, cd.args, cd.args.len());
            }
        }
    }
}

/// The copy of branches leaves the values that are there as they are.
pub proof fn lemma_copy_branches_values(
    src: FunctionModel,
    c: ChunkModel,
    branches: Seq<EbbCall>,
    k: nat,
)
    ensures
        copy_branches_spec(src, c, branches, k) matches Ok(c1) ==> c.b.fun.values.len()
            <= c1.b.fun.values.len() && forall|i: int|
            0 <= i < c.b.fun.values.len() ==> #[trigger] c1.b.fun.values[i] == c.b.fun.values[i],
    decreases k,
{
    if !(k == 0 || k > branches.len()) {
        lemma_copy_branches_values(src, c, branches, (k - 1) as nat);
        assert(copy_branches_spec(src, c, branches, k) == match copy_branches_spec(
            src,
            c,
            branches,
            (k - 1) as nat,
        ) {
            Err(e) => Err(e),
            Ok(c1) => copy_branch_spec(src, c1, branches[k - 1]),
        });
        if copy_branches_spec(src, c, branches, (k - 1) as nat) is Ok {
            let c1 = copy_branches_spec(src, c, branches, (k - 1) as nat)->Ok_0;
            let cd = src.calls[branches[k - 1].0 as int];
            if src.ebb_first_op(cd.target) is Some {
                let first = src.ebb_first_op(cd.target)->0;
                let t = target_spec(src, c1, cd.target, first);
                lemma_copy_values_values(src, t.0, cd.args, cd.args.len());
            }
        }
    }
}

/// The copy of values leaves the values that are there as they are.
pub proof fn lemma_copy_values_values(src: FunctionModel, c: ChunkModel, vals: Seq<Value>, k: nat)
    ensures
        copy_values_spec(src, c, vals, k) matches Ok((c1, out)) ==> c.b.fun.values.len()
            <= c1.b.fun.values.len() && forall|i: int|
            0 <= i < c.b.fun.values.len() ==> #[trigger] c1.b.fun.values[i] == c.b.fun.values[i],
    decreases k,
{
    if 0 < k <= vals.len() {
        lemma_copy_values_values(src, c, vals, (k - 1) as nat);
        assert(copy_values_spec(src, c, vals, k) == match copy_values_spec(
            src,
            c,
            vals,
            (k - 1) as nat,
        ) {
            Err(e) => Err(e),
            Ok((c1, out)) => match copy_read_spec(src, c1, vals[k - 1]) {
                Err(e) => Err(e),
                Ok((c2, d)) => Ok((c2, out.push(d))),
            },
        });
    }
}

/// After the copy of an operation the position is where it was, at an EBB
/// that the function still has.
pub proof fn lemma_copy_op_keeps_position(src: FunctionModel, c: ChunkModel, op: Op)
    requires
        c.b.can_emit(),
    ensures
        copy_op_spec(src, c, op) matches Ok(c1) ==> c1.b.position == c.b.position
            && c1.b.fun.has_ebb(c.b.position->0),
{
    let d = src.ops[op.0 as int];
    let b1 = c.b.op_build_start(d.kind);
    let cur = b1.current->0;
    let f2 = b1.fun.push_writes(cur, d.writes.len());
    let c2 = ChunkModel {
        b: b1.with_fun(f2),
        val_map: bind_spec(
            c.val_map,
            d.writes,
            b1.fun.full_op_writes(d.writes.len()),
            d.writes.len(),
        ),
        ..c
    };
    lemma_copy_values_frame(src, c2, d.reads, d.reads.len());
    if copy_values_spec(src, c2, d.reads, d.reads.len()) is Ok {
        let (c3, reads) = copy_values_spec(src, c2, d.reads, d.reads.len())->Ok_0;
        let c4 = c3.with_fun(c3.b.fun.push_reads(cur, reads));
        lemma_copy_branches_ebbs(src, c4, d.branches, d.branches.len());
    }
}

/// Copies the source operation `src_op` to the end of the EBB of the
/// position. Every result gets a fresh value, every read the value that
/// stands for it, and every branch goes to the EBB that stands for its
/// target.
pub fn copy_op(src_fun: &Function, src_op: Op, c: &mut Chunk) -> (r: Result<(), CpsError>)
    requires
        src_fun@.wf(),
        src_fun@.has_op(src_op),
        old(c)@.b.can_emit(),
    ensures
        match copy_op_spec(src_fun@, old(c)@, src_op) {
            Ok(c1) => r is Ok && final(c)@ == c1,
            Err(e) => r == Err::<(), CpsError>(e),
        },
        chunk_ok(old(c)@) && old(c)@.b.fun.open_ended(old(c)@.b.position->0) && cps_kind(
            src_fun@.ops[src_op.0 as int].kind,
        ) ==> (r is Ok ==> chunk_ok(final(c)@)),
        r is Ok && old(c)@.ebb_map.len() == src_fun@.ops.len() ==> op_copied(
            src_fun@,
            old(c)@,
            final(c)@,
            src_op,
        ),
        r is Ok ==> same_head(old(c)@.b.fun, final(c)@.b.fun),
{
    let ghost good = chunk_ok(old(c)@) && old(c)@.b.fun.open_ended(old(c)@.b.position->0)
        && cps_kind(src_fun@.ops[src_op.0 as int].kind);
    assert(src_fun@.wf_op(src_op.0 as int));
    let _ = c.b.function().op_count();
    let _ = c.b.function().value_count();
    let kind = src_fun.op_kind(src_op);
    c.b.op_build_start(kind);
    let writes = src_fun.op_writes(src_op);
    let news = c.b.op_build_writes(writes.len());
    assert(news@.subrange(0, news@.len() as int) =~= news@);
    let ghost vm0 = c@.val_map;
    bind(&mut c.val_map, writes, &news, 0);
    proof {
        if good {
            lemma_values_ok_grow(vm0, old(c)@.b.fun, c@.b.fun);
            lemma_ebbs_ok_grow(c@.ebb_map, old(c)@.b.fun, c@.b.fun);
            assert(all_values(news@, c@.b.fun));
            lemma_bind_ok(vm0, writes@, news@, writes@.len(), c@.b.fun);
            assert(chunk_ok(c@));
        }
    }
    let reads = src_fun.op_reads(src_op);
    assert(reads@.subrange(0, reads@.len() as int) =~= reads@);
    let ghost c2 = c@;
    let copies = match copy_values(src_fun, c, reads, 0) {
        Ok(v) => v,
        Err(e) => {
            return Err(e);
        },
    };
    let ghost c3_fun = c@.b.fun;
    proof {
        lemma_copy_values_frame(src_fun@, c2, reads@, reads@.len());
    }
    c.b.op_build_reads(&copies);
    assert(good ==> chunk_ok(c@));
    let ghost c4 = c@;
    let ghost new = Op(old(c)@.b.fun.ops.len() as usize);
    proof {
        assert(c4.b.fun.ops[new.0 as int].reads =~= copies@);
        assert(c4.b.fun.ops[new.0 as int].branches.len() == 0);
        assert(c4.b.fun.ops[new.0 as int].writes =~= news@);
        assert(c2.val_map == reads_map(src_fun@, old(c)@, src_op));
    }
    match copy_branches(src_fun, c, src_fun.op_branches(src_op)) {
        Ok(()) => {},
        Err(e) => {
            return Err(e);
        },
    }
    let ghost c5 = c@;
    proof {
        if good {
            lemma_copy_op_keeps_position(src_fun@, old(c)@, src_op);
        }
    }
    match src_fun.op_after(src_op) {
        Some(op) => {
            match c.b.current_ebb() {
                Some(e) => {
                    table_set(&mut c.ebb_map, op.0, e);
                    assert(good ==> c5.b.fun.has_ebb(e));
                    assert(good ==> ebbs_ok(c@.ebb_map, c@.b.fun));
                },
                None => {},
            }
        },
        None => {},
    }
    c.b.op_build_end();
    proof {
        if old(c)@.ebb_map.len() == src_fun@.ops.len() {
            let d = src_fun@.ops[src_op.0 as int];
            let d1 = c@.b.fun.ops[new.0 as int];
            lemma_copy_branches_values(src_fun@, c4, d.branches, d.branches.len());
            assert forall|i: int| 0 <= i < d.reads.len() implies read_copied(
                src_fun@,
                reads_map(src_fun@, old(c)@, src_op),
                c@.b.fun,
                d.reads[i],
                #[trigger] d1.reads[i],
            ) by {
                assert(d1.reads[i] == copies@[i]);
                assert(read_copied(src_fun@, c2.val_map, c3_fun, d.reads[0 + i], copies@[i]));
            }
            assert forall|i: int| 0 <= i < d.branches.len() implies branch_copied(
                src_fun@,
                c@,
                d.branches[i],
                #[trigger] d1.branches[i],
                new,
            ) by {
                assert(branch_copied(src_fun@, c5, d.branches[i], d1.branches[0 + i], new));
                let first = src_fun@.ebb_first_op(src_fun@.calls[d.branches[i].0 as int].target)->0;
                let t = src_fun@.calls[d.branches[i].0 as int].target;
                assert(src_fun@.wf_call(d.branches[i].0 as int));
                assert(src_fun@.wf_ebb(t.0 as int));
                assert(src_fun@.has_op(src_fun@.ebbs[t.0 as int].ops[0]));
                assert(src_fun@.ops[first.0 as int].pos == 0);
                assert(src_fun@.wf_ebb(d.ebb.0 as int));
                if src_fun@.op_after(src_op) is Some {
                    let next = src_fun@.op_after(src_op)->0;
                    assert(src_fun@.has_op(src_fun@.ebbs[d.ebb.0 as int].ops[d.pos + 1]));
                    assert(src_fun@.ops[next.0 as int].pos == d.pos + 1);
                    assert(next != first);
                }
            }
        }
    }
    Ok(())
}

/// Those of `lives` that are not `skip`.
fn filter_values(lives: &Vec<Value>, skip: Option<Value>) -> (r: Vec<Value>)
    ensures
        r@ == filter_live(lives@, skip, lives@.len()),
{
    let mut out: Vec<Value> = Vec::new();
    let mut i: usize = 0;
    while i < lives.len()
        invariant
            i <= lives.len(),
            out@ == filter_live(lives@, skip, i as nat),
        decreases lives.len() - i,
    {
        assert(filter_live(lives@, skip, (i + 1) as nat) == if Some(lives@[i as int]) == skip {
            filter_live(lives@, skip, i as nat)
        } else {
            filter_live(lives@, skip, i as nat).push(lives@[i as int])
        });
        let same = match skip {
            Some(s) => s == lives[i],
            None => false,
        };
        if !same {
            out.push(lives[i]);
        }
        i = i + 1;
    }
    out
}

/// Those of the live set at `i` that are not `skip`.
fn filter_live_at(sets: &Vec<Vec<Value>>, i: usize, skip: Option<Value>) -> (r: Vec<Value>)
    ensures
        r@ == filter_live(
            live_at(Seq::new(sets@.len(), |k: int| sets@[k]@), i),
            skip,
            live_at(Seq::new(sets@.len(), |k: int| sets@[k]@), i).len(),
        ),
{
    if i < sets.len() {
        filter_values(&sets[i], skip)
    } else {
        Vec::new()
    }
}

/// The values of the chunk that stand for `vals`.
fn lookup_values(vm: &Vec<Option<Value>>, vals: &Vec<Value>) -> (r: Result<Vec<Value>, CpsError>)
    ensures
        match lookup_all(vm@, vals@, vals@.len()) {
            Ok(out) => r matches Ok(v) && v@ == out,
            Err(e) => r == Err::<Vec<Value>, CpsError>(e),
        },
        r matches Ok(v) ==> forall|j: int|
            0 <= j < v@.len() ==> vm@.contains(Some(#[trigger] v@[j])),
{
    let mut out: Vec<Value> = Vec::new();
    let mut i: usize = 0;
    while i < vals.len()
        invariant
            i <= vals.len(),
            lookup_all(vm@, vals@, i as nat) == Ok::<Seq<Value>, CpsError>(out@),
            forall|j: int| 0 <= j < out@.len() ==> vm@.contains(Some(#[trigger] out@[j])),
        decreases vals.len() - i,
    {
        assert(lookup_all(vm@, vals@, (i + 1) as nat) == match lookup_all(vm@, vals@, i as nat) {
            Err(e) => Err(e),
            Ok(out) => match entry_at(vm@, vals@[i as int].0) {
                Some(d) => Ok(out.push(d)),
                None => Err(CpsError::MalformedOp),
            },
        });
        match table_get(vm, vals[i].0) {
            Some(d) => {
                out.push(d);
            },
            None => {
                proof {
                    lemma_lookup_all_sticky(vm@, vals@, (i + 1) as nat, vals@.len());
                }
                return Err(CpsError::MalformedOp);
            },
        }
        i = i + 1;
    }
    Ok(out)
}

/// Once a lookup of a list of values has failed, it has failed for any
/// longer part of the list.
pub proof fn lemma_lookup_all_sticky(vm: Seq<Option<Value>>, vals: Seq<Value>, k: nat, n: nat)
    requires
        lookup_all(vm, vals, k) is Err,
        k <= n <= vals.len(),
    ensures
        lookup_all(vm, vals, n) == lookup_all(vm, vals, k),
    decreases n,
{
    if k < n {
        lemma_lookup_all_sticky(vm, vals, k, (n - 1) as nat);
        assert(lookup_all(vm, vals, n) == match lookup_all(vm, vals, (n - 1) as nat) {
            Err(e) => Err(e),
            Ok(out) => match entry_at(vm, vals[n - 1].0) {
                Some(d) => Ok(out.push(d)),
                None => Err(CpsError::MalformedOp),
            },
        });
    }
}

/// The value that an EBB call passes for `v`.
fn rename(ebb_args: &Vec<Value>, call_args: &Vec<Value>, v: Value) -> (r: Value)
    ensures
        r == rename_spec(ebb_args@, call_args@, v, ebb_args@.len()),
{
    let mut k: usize = ebb_args.len();
    while k > 0
        invariant
            k <= ebb_args.len(),
            rename_spec(ebb_args@, call_args@, v, ebb_args@.len()) == rename_spec(
                ebb_args@,
                call_args@,
                v,
                k as nat,
            ),
        decreases k,
    {
        if k <= call_args.len() && ebb_args[k - 1] == v {
            return call_args[k - 1];
        }
        k = k - 1;
    }
    v
}

/// What an error continuation captures of the values live at the target
/// of a throwing branch, and the value that holds what was thrown.
fn err_select(lives: &Vec<Value>, ebb_args: &Vec<Value>, call_args: &Vec<Value>, nok: Value) -> (r: (
    Vec<Value>,
    Option<Value>,
))
    ensures
        (r.0@, r.1) == err_selection(lives@, ebb_args@, call_args@, nok, lives@.len()),
{
    let mut sel: Vec<Value> = Vec::new();
    let mut found: Option<Value> = None;
    let mut i: usize = 0;
    while i < lives.len()
        invariant
            i <= lives.len(),
            (sel@, found) == err_selection(lives@, ebb_args@, call_args@, nok, i as nat),
        decreases lives.len() - i,
    {
        assert(err_selection(lives@, ebb_args@, call_args@, nok, (i + 1) as nat) == {
            let (sel, found) = err_selection(lives@, ebb_args@, call_args@, nok, i as nat);
            let renamed = rename_spec(ebb_args@, call_args@, lives@[i as int], ebb_args@.len());
            if renamed == nok {
                (sel, Some(lives@[i as int]))
            } else {
                (sel.push(renamed), found)
            }
        });
        let renamed = rename(ebb_args, call_args, lives[i]);
        if renamed == nok {
            found = Some(lives[i]);
        } else {
            sel.push(renamed);
        }
        i = i + 1;
    }
    (sel, found)
}

/// What an error continuation captures of the live set at `i`.
fn err_select_at(
    sets: &Vec<Vec<Value>>,
    i: usize,
    ebb_args: &Vec<Value>,
    call_args: &Vec<Value>,
    nok: Value,
) -> (r: (Vec<Value>, Option<Value>))
    ensures
        (r.0@, r.1) == err_selection(
            live_at(Seq::new(sets@.len(), |k: int| sets@[k]@), i),
            ebb_args@,
            call_args@,
            nok,
            live_at(Seq::new(sets@.len(), |k: int| sets@[k]@), i).len(),
        ),
{
    if i < sets.len() {
        err_select(&sets[i], ebb_args, call_args, nok)
    } else {
        (Vec::new(), None)
    }
}

/// The closure environment that `site` has already.
fn lookup_site(conts: &Vec<(ContSite, ClosureEnv)>, site: ContSite) -> (r: Option<ClosureEnv>)
    ensures
        r == find_site(conts@, site, conts@.len()),
{
    let mut i: usize = 0;
    while i < conts.len()
        invariant
            i <= conts.len(),
            find_site(conts@, site, i as nat) is None,
        decreases conts.len() - i,
    {
        assert(find_site(conts@, site, (i + 1) as nat) == if conts@[i as int].0 == site {
            Some(conts@[i as int].1)
        } else {
            None
        });
        if conts[i].0 == site {
            proof {
                lemma_find_site_stable(conts@, site, (i + 1) as nat, conts@.len());
            }
            return Some(conts[i].1);
        }
        i = i + 1;
    }
    None
}

/// A site that is found among the first entries is found among any greater
/// number of them, with the same closure environment.
pub proof fn lemma_find_site_stable(conts: Seq<(ContSite, ClosureEnv)>, site: ContSite, k: nat, n: nat)
    requires
        find_site(conts, site, k) is Some,
        k <= n <= conts.len(),
    ensures
        find_site(conts, site, n) == find_site(conts, site, k),
    decreases n,
{
    if k < n {
        lemma_find_site_stable(conts, site, k, (n - 1) as nat);
        assert(find_site(conts, site, n) == match find_site(conts, site, (n - 1) as nat) {
            Some(e) => Some(e),
            None => if conts[n - 1].0 == site {
                Some(conts[n - 1].1)
            } else {
                None
            },
        });
    }
}

/// The closure environment of the continuation at `site`. A site that is
/// met for the first time gets a new environment, and its chunk is
/// scheduled.
fn site_env(shared: &mut Shared, site: ContSite, captures: usize) -> (env: ClosureEnv)
    ensures
        intern_site(old(shared)@, site, captures) == (final(shared)@, env),
{
    match lookup_site(&shared.continuations, site) {
        Some(env) => env,
        None => {
            let env = shared.envs.add();
            shared.envs.env_set_captures_num(env, captures);
            assert(shared.envs@ =~= old(shared)@.envs.push(Some(captures)));
            shared.continuations.push((site, env));
            shared.needed.push((site, env));
            env
        },
    }
}

/// Binds a closure for the continuation at `site` that captures
/// `captures`.
fn bind_site(
    src_fun: &Function,
    c: &mut Chunk,
    shared: &mut Shared,
    site: ContSite,
    captures: &Vec<Value>,
) -> (closure: Value)
    requires
        old(c)@.b.can_emit(),
    ensures
        bind_continuation(src_fun@, old(c)@, old(shared)@, site, captures@) == (
            final(c)@,
            final(shared)@,
            closure,
        ),
        final(c)@.b.can_emit(),
        final(c)@.val_map == old(c)@.val_map,
        final(c)@.b.position == old(c)@.b.position,
        same_head(old(c)@.b.fun, final(c)@.b.fun),
        chunk_ok(old(c)@) && old(c)@.b.fun.open_ended(old(c)@.b.position->0) && all_values(
            captures@,
            old(c)@.b.fun,
        ) ==> chunk_ok(final(c)@) && final(c)@.b.fun.open_ended(final(c)@.b.position->0)
            && final(c)@.b.fun.has_value(closure) && final(c)@.b.fun.values.len() >= old(
            c,
        )@.b.fun.values.len(),
{
    let ghost good = chunk_ok(old(c)@) && old(c)@.b.fun.open_ended(old(c)@.b.position->0)
        && all_values(captures@, old(c)@.b.fun);
    let env_idx = site_env(shared, site, captures.len());
    let env = c.b.op_make_closure_env(env_idx, captures);
    proof {
        if good {
            lemma_values_ok_grow(c@.val_map, old(c)@.b.fun, c@.b.fun);
            lemma_ebbs_ok_grow(c@.ebb_map, old(c)@.b.fun, c@.b.fun);
            assert(chunk_ok(c@));
            assert(c@.b.fun.open_ended(c@.b.position->0));
        }
    }
    let ghost c1 = c@;
    let src_ident = src_fun.ident();
    let ident = FunctionIdent {
        module: src_ident.module,
        name: src_ident.name,
        arity: src_ident.arity,
        lambda: Some(Lambda { env: env_idx, index: 0 }),
    };
    let closure = c.b.op_bind_closure(ident, env);
    proof {
        if good {
            lemma_values_ok_grow(c@.val_map, c1.b.fun, c@.b.fun);
            lemma_ebbs_ok_grow(c@.ebb_map, c1.b.fun, c@.b.fun);
            assert(chunk_ok(c@));
            assert(c@.b.fun.open_ended(c@.b.position->0));
        }
    }
    closure
}

/// Binds the two continuations of the normal call `op`.
fn normal_conts(
    src_fun: &Function,
    live: &LiveValues,
    c: &mut Chunk,
    shared: &mut Shared,
    op: Op,
) -> (r: Result<(Value, Value), CpsError>)
    requires
        src_fun@.wf(),
        src_fun@.has_op(op),
        src_fun@.ops[op.0 as int].writes.len() == 2,
        old(c)@.b.can_emit(),
    ensures
        match normal_conts_spec(src_fun@, live@, old(c)@, old(shared)@, op) {
            Ok((c1, s1, ok_cont, err_cont)) => r == Ok::<(Value, Value), CpsError>(
                (ok_cont, err_cont),
            ) && final(c)@ == c1 && final(shared)@ == s1 && c1.b.can_emit(),
            Err(e) => r == Err::<(Value, Value), CpsError>(e),
        },
        chunk_ok(old(c)@) && old(c)@.b.fun.open_ended(old(c)@.b.position->0) ==> (r matches Ok(
            p,
        ) ==> chunk_ok(final(c)@) && final(c)@.b.fun.open_ended(final(c)@.b.position->0)
            && final(c)@.b.fun.has_value(p.0) && final(c)@.b.fun.has_value(p.1)),
        r is Ok ==> same_head(old(c)@.b.fun, final(c)@.b.fun),
{
    let ghost good = chunk_ok(old(c)@) && old(c)@.b.fun.open_ended(old(c)@.b.position->0);
    assert(src_fun@.wf_op(op.0 as int));
    let writes = src_fun.op_writes(op);
    let ok_val = writes[0];
    let nok_val = writes[1];
    let ok_live = filter_live_at(&live.flow_live, op.0, Some(ok_val));
    let caps = match lookup_values(&c.val_map, &ok_live) {
        Ok(v) => v,
        Err(e) => {
            return Err(e);
        },
    };
    let src_next_op = match src_fun.op_after(op) {
        Some(n) => n,
        None => {
            return Err(CpsError::MalformedOp);
        },
    };
    let branches = src_fun.op_branches(op);
    if branches.len() == 0 {
        return Err(CpsError::MalformedOp);
    }
    let mut buf: Vec<Value> = Vec::new();
    buf.push(c.ok_ret_cont);
    buf.push(c.err_ret_cont);
    extend(&mut buf, &caps);
    assert(buf@ =~= seq![c.ok_ret_cont, c.err_ret_cont] + caps@);
    proof {
        if good {
            assert forall|j: int| 0 <= j < buf@.len() implies c@.b.fun.has_value(
                #[trigger] buf@[j],
            ) by {
                if j >= 2 {
                    assert(buf@[j] == caps@[j - 2]);
                    assert(c@.val_map.contains(Some(caps@[j - 2])));
                }
            }
        }
    }
    let ok_cont = bind_site(src_fun, c, shared, ContSite::Op(src_next_op), &buf);
    let src_branch = branches[0];
    assert(src_fun@.has_call(src_fun@.ops[op.0 as int].branches[0]));
    assert(src_fun@.wf_call(src_branch.0 as int));
    let src_target = src_fun.ebb_call_target(src_branch);
    let (sel, renamed_nok_val) = err_select_at(
        &live.ebb_live,
        src_target.0,
        src_fun.ebb_args(src_target),
        src_fun.ebb_call_args(src_branch),
        nok_val,
    );
    let caps2 = match lookup_values(&c.val_map, &sel) {
        Ok(v) => v,
        Err(e) => {
            return Err(e);
        },
    };
    let mut buf2: Vec<Value> = Vec::new();
    buf2.push(c.ok_ret_cont);
    buf2.push(c.err_ret_cont);
    extend(&mut buf2, &caps2);
    assert(buf2@ =~= seq![c.ok_ret_cont, c.err_ret_cont] + caps2@);
    proof {
        if good {
            assert forall|j: int| 0 <= j < buf2@.len() implies c@.b.fun.has_value(
                #[trigger] buf2@[j],
            ) by {
                if j >= 2 {
                    assert(buf2@[j] == caps2@[j - 2]);
                    assert(c@.val_map.contains(Some(caps2@[j - 2])));
                }
            }
        }
    }
    let err_cont = bind_site(
        src_fun,
        c,
        shared,
        ContSite::EbbCall(src_branch, renamed_nok_val),
        &buf2,
    );
    Ok((ok_cont, err_cont))
}

/// Makes the call `op` in tail position, with the given continuations
/// before its own arguments.
fn emit_call(src_fun: &Function, c: &mut Chunk, op: Op, ok_cont: Value, err_cont: Value) -> (r:
    Result<(), CpsError>)
    requires
        src_fun@.wf(),
        src_fun@.has_op(op),
        old(c)@.b.can_emit(),
    ensures
        match emit_call_spec(src_fun@, old(c)@, op, ok_cont, err_cont) {
            Ok(c1) => r is Ok && final(c)@ == c1,
            Err(e) => r == Err::<(), CpsError>(e),
        },
        chunk_ok(old(c)@) && old(c)@.b.fun.open_ended(old(c)@.b.position->0) && old(
            c,
        )@.b.fun.has_value(ok_cont) && old(c)@.b.fun.has_value(err_cont) ==> (r is Ok ==> chunk_ok(
            final(c)@,
        )),
        r is Ok ==> same_head(old(c)@.b.fun, final(c)@.b.fun),
{
    let ghost good = chunk_ok(old(c)@) && old(c)@.b.fun.open_ended(old(c)@.b.position->0) && old(
        c,
    )@.b.fun.has_value(ok_cont) && old(c)@.b.fun.has_value(err_cont);
    assert(src_fun@.wf_op(op.0 as int));
    let reads = src_fun.op_reads(op);
    let ghost c0 = c@;
    match src_fun.op_kind(op) {
        OpKind::Apply { call_type: _ } => {
            if reads.len() < 1 {
                return Err(CpsError::MalformedOp);
            }
            let args = match copy_values(src_fun, c, reads, 1) {
                Ok(v) => v,
                Err(e) => {
                    return Err(e);
                },
            };
            proof {
                let rest = reads@.subrange(1, reads@.len() as int);
                lemma_copy_values_frame(src_fun@, c0, rest, rest.len());
            }
            let fun = match table_get(&c.val_map, reads[0].0) {
                Some(f) => f,
                None => {
                    return Err(CpsError::MalformedOp);
                },
            };
            let mut buf: Vec<Value> = Vec::new();
            buf.push(ok_cont);
            buf.push(err_cont);
            extend(&mut buf, &args);
            assert(buf@ =~= seq![ok_cont, err_cont] + args@);
            let ghost c1 = c@;
            proof {
                if good {
                    assert forall|j: int| 0 <= j < buf@.len() implies c@.b.fun.has_value(
                        #[trigger] buf@[j],
                    ) by {
                        if j >= 2 {
                            assert(buf@[j] == args@[j - 2]);
                        }
                    }
                    assert(c@.val_map[reads@[0].0 as int] == Some(fun));
                }
            }
            c.b.op_tail_apply(fun, &buf);
            proof {
                if good {
                    lemma_values_ok_grow(c@.val_map, c1.b.fun, c@.b.fun);
                    lemma_ebbs_ok_grow(c@.ebb_map, c1.b.fun, c@.b.fun);
                }
            }
            Ok(())
        },
        OpKind::Call { call_type: _, arity } => {
            if reads.len() < 2 {
                return Err(CpsError::MalformedOp);
            }
            let args = match copy_values(src_fun, c, reads, 2) {
                Ok(v) => v,
                Err(e) => {
                    return Err(e);
                },
            };
            proof {
                let rest = reads@.subrange(2, reads@.len() as int);
                lemma_copy_values_frame(src_fun@, c0, rest, rest.len());
            }
            let ghost ca = c@;
            let name_val = match copy_read(src_fun, c, reads[0]) {
                Ok(v) => v,
                Err(e) => {
                    return Err(e);
                },
            };
            let module_val = match copy_read(src_fun, c, reads[1]) {
                Ok(v) => v,
                Err(e) => {
                    return Err(e);
                },
            };
            proof {
                lemma_copy_read_frame(src_fun@, ca, reads@[0]);
                let cb = copy_read_spec(src_fun@, ca, reads@[0])->Ok_0.0;
                lemma_copy_read_frame(src_fun@, cb, reads@[1]);
                if good {
                    assert forall|j: int| 0 <= j < args@.len() implies c@.b.fun.has_value(
                        #[trigger] args@[j],
                    ) by {
                        assert(ca.b.fun.has_value(args@[j]));
                    }
                    assert(ca.b.fun.has_value(ok_cont));
                }
            }
            let mut buf: Vec<Value> = Vec::new();
            buf.push(ok_cont);
            buf.push(err_cont);
            extend(&mut buf, &args);
            assert(buf@ =~= seq![ok_cont, err_cont] + args@);
            let ghost c1 = c@;
            proof {
                if good {
                    assert forall|j: int| 0 <= j < buf@.len() implies c@.b.fun.has_value(
                        #[trigger] buf@[j],
                    ) by {
                        if j >= 2 {
                            assert(buf@[j] == args@[j - 2]);
                        }
                    }
                }
            }
            c.b.op_tail_call(name_val, module_val, arity, &buf);
            proof {
                if good {
                    lemma_values_ok_grow(c@.val_map, c1.b.fun, c@.b.fun);
                    lemma_ebbs_ok_grow(c@.ebb_map, c1.b.fun, c@.b.fun);
                }
            }
            Ok(())
        },
        _ => Err(CpsError::MalformedOp),
    }
}

/// Rewrites the call `op` of the source. A tail call is handed the
/// continuations of the chunk. For any other call two closures are bound
/// that take up where the call returns or throws, and the call is made in
/// tail position with them.
fn call_site(
    src_fun: &Function,
    live: &LiveValues,
    c: &mut Chunk,
    shared: &mut Shared,
    op: Op,
) -> (r: Result<(), CpsError>)
    requires
        src_fun@.wf(),
        src_fun@.has_op(op),
        old(c)@.b.can_emit(),
    ensures
        match call_site_spec(src_fun@, live@, old(c)@, old(shared)@, op) {
            Ok((c1, s1)) => r is Ok && final(c)@ == c1 && final(shared)@ == s1,
            Err(e) => r == Err::<(), CpsError>(e),
        },
        chunk_ok(old(c)@) && old(c)@.b.fun.open_ended(old(c)@.b.position->0) ==> (r is Ok
            ==> chunk_ok(final(c)@)),
        r is Ok ==> same_head(old(c)@.b.fun, final(c)@.b.fun),
{
    let kind = src_fun.op_kind(op);
    let is_tail = match kind {
        OpKind::Apply { call_type: CallType::Normal } => false,
        OpKind::Call { call_type: CallType::Normal, arity: _ } => false,
        OpKind::Apply { call_type: CallType::Tail } => true,
        OpKind::Call { call_type: CallType::Tail, arity: _ } => true,
        _ => {
            return Err(CpsError::MalformedOp);
        },
    };
    let writes = src_fun.op_writes(op);
    if is_tail {
        if writes.len() != 0 {
            return Err(CpsError::ArityMismatch);
        }
        // A tail call makes no return continuation of its own: it goes on
        // with the continuations that the function was handed.
        let ok_cont = c.ok_ret_cont;
        let err_cont = c.err_ret_cont;
        emit_call(src_fun, c, op, ok_cont, err_cont)
    } else {
        if writes.len() != 2 {
            return Err(CpsError::ArityMismatch);
        }
        let (ok_cont, err_cont) = match normal_conts(src_fun, live, c, shared, op) {
            Ok(p) => p,
            Err(e) => {
                return Err(e);
            },
        };
        emit_call(src_fun, c, op, ok_cont, err_cont)
    }
}

/// Rewrites the return `op` of the source: what is returned is handed to
/// the continuation `cont`.
fn return_op(src_fun: &Function, c: &mut Chunk, op: Op, cont: Value) -> (r: Result<(), CpsError>)
    requires
        src_fun@.has_op(op),
        old(c)@.b.can_emit(),
    ensures
        match return_spec(src_fun@, old(c)@, op, cont) {
            Ok(c1) => r is Ok && final(c)@ == c1,
            Err(e) => r == Err::<(), CpsError>(e),
        },
        chunk_ok(old(c)@) && old(c)@.b.fun.open_ended(old(c)@.b.position->0) && old(
            c,
        )@.b.fun.has_value(cont) ==> (r is Ok ==> chunk_ok(final(c)@)),
        r is Ok ==> same_head(old(c)@.b.fun, final(c)@.b.fun),
{
    let reads = src_fun.op_reads(op);
    if reads.len() < 1 {
        return Err(CpsError::MalformedOp);
    }
    let res = match table_get(&c.val_map, reads[0].0) {
        Some(v) => v,
        None => {
            return Err(CpsError::MalformedOp);
        },
    };
    let mut args: Vec<Value> = Vec::new();
    args.push(res);
    assert(seq![cont] + args@ =~= seq![cont, res]);
    proof {
        if chunk_ok(old(c)@) {
            assert(c@.val_map[reads@[0].0 as int] == Some(res));
        }
    }
    c.b.op_cont_apply(cont, &args);
    proof {
        if chunk_ok(old(c)@) {
            lemma_values_ok_grow(c@.val_map, old(c)@.b.fun, c@.b.fun);
            lemma_ebbs_ok_grow(c@.ebb_map, old(c)@.b.fun, c@.b.fun);
        }
    }
    Ok(())
}

/// Puts the operations at which the copy goes on after `op` on the work
/// list.
fn push_successors(src_fun: &Function, op: Op, work: &mut Vec<Op>)
    requires
        src_fun@.wf(),
        src_fun@.has_op(op),
    ensures
        final(work)@ == old(work)@ + successors(src_fun@, op),
{
    assert(src_fun@.wf_op(op.0 as int));
    match src_fun.op_after(op) {
        Some(next) => {
            work.push(next);
        },
        None => {},
    }
    let ghost base = work@;
    let branches = src_fun.op_branches(op);
    let mut i: usize = 0;
    while i < branches.len()
        invariant
            i <= branches.len(),
            src_fun@.wf(),
            branches@ == src_fun@.ops[op.0 as int].branches,
            forall|k: int| 0 <= k < branches@.len() ==> src_fun@.has_call(#[trigger] branches@[k]),
            work@ == base + branch_targets(src_fun@, branches@, i as nat),
        decreases branches.len() - i,
    {
        assert(branch_targets(src_fun@, branches@, (i + 1) as nat) == {
            let rest = branch_targets(src_fun@, branches@, i as nat);
            match src_fun@.ebb_first_op(src_fun@.calls[branches@[i as int].0 as int].target) {
                Some(first) => rest.push(first),
                None => rest,
            }
        });
        assert(src_fun@.wf_call(branches@[i as int].0 as int));
        let target = src_fun.ebb_call_target(branches[i]);
        match src_fun.ebb_first_op(target) {
            Some(first) => {
                work.push(first);
                assert(work@ =~= base + branch_targets(src_fun@, branches@, (i + 1) as nat));
            },
            None => {},
        }
        i = i + 1;
    }
    assert(work@ =~= old(work)@ + successors(src_fun@, op));
}

/// Deals with the source operation `op`: a call is rewritten, a return is
/// turned into a call of a continuation, anything else is copied. The
/// operations at which the copy goes on are put on the work list.
fn handle_op(
    src_fun: &Function,
    live: &LiveValues,
    cont_sites: &Vec<bool>,
    c: &mut Chunk,
    shared: &mut Shared,
    op: Op,
    work: &mut Vec<Op>,
) -> (r: Result<(), CpsError>)
    requires
        src_fun@.wf(),
        src_fun@.has_op(op),
    ensures
        match handle_op_spec(src_fun@, live@, cont_sites@, old(c)@, old(shared)@, op) {
            Ok((c1, s1, more)) => r is Ok && final(c)@ == c1 && final(shared)@ == s1
                && final(work)@ == old(work)@ + more,
            Err(e) => r == Err::<(), CpsError>(e),
        },
        chunk_ok(old(c)@) && cont_sites@ == call_sites(src_fun@) ==> (r is Ok ==> chunk_ok(
            final(c)@,
        )),
        r is Ok ==> same_head(old(c)@.b.fun, final(c)@.b.fun),
{
    proof {
        reveal(handle_op_spec);
    }
    let dst = match table_get(&c.ebb_map, op.0) {
        Some(e) => e,
        None => {
            return Err(CpsError::MalformedOp);
        },
    };
    if !c.b.has_ebb(dst) {
        return Err(CpsError::MalformedOp);
    }
    let idle = c.b.is_idle();
    c.b.position_at_end(dst);
    if !c.b.is_open_ended() || !idle {
        return Err(CpsError::MalformedOp);
    }
    let kind = src_fun.op_kind(op);
    if op.0 < cont_sites.len() && cont_sites[op.0] {
        // The call takes the place of the rest of the chunk on this path.
        assert(work@ + Seq::<Op>::empty() =~= work@);
        return call_site(src_fun, live, c, shared, op);
    }
    match kind {
        OpKind::ReturnOk => {
            assert(work@ + Seq::<Op>::empty() =~= work@);
            let cont = c.ok_ret_cont;
            return_op(src_fun, c, op, cont)
        },
        OpKind::ReturnThrow => {
            assert(work@ + Seq::<Op>::empty() =~= work@);
            let cont = c.err_ret_cont;
            return_op(src_fun, c, op, cont)
        },
        _ => {
            match copy_op(src_fun, op, c) {
                Ok(()) => {},
                Err(e) => {
                    return Err(e);
                },
            }
            push_successors(src_fun, op, work);
            Ok(())
        },
    }
}

/// A table with `n` entries, all empty.
fn new_table<T>(n: usize) -> (r: Vec<Option<T>>)
    ensures
        r@ == empty_table::<T>(n as nat),
{
    let mut v: Vec<Option<T>> = Vec::new();
    let mut i: usize = 0;
    while i < n
        invariant
            i <= n,
            v@ == empty_table::<T>(i as nat),
        decreases n - i,
    {
        v.push(None);
        assert(v@ =~= empty_table::<T>((i + 1) as nat));
        i = i + 1;
    }
    v
}

/// Starts the chunk of an entry point.
fn init_entry(src_fun: &Function, site: ContSite) -> (r: Result<(Chunk, Op), CpsError>)
    requires
        src_fun@.wf(),
    ensures
        match init_entry_spec(src_fun@, site) {
            Ok((c1, first)) => r matches Ok((c, f)) && c@ == c1 && f == first && src_fun@.has_op(f),
            Err(e) => r matches Err(x) && x == e,
        },
        r matches Ok((c, f)) ==> chunk_ok(c@) && chunk_head(src_fun@, site, None, c@.b.fun),
{
    let src_first_op = match site {
        ContSite::Op(op) => op,
        ContSite::EbbCall(_, _) => {
            return Err(CpsError::MalformedOp);
        },
    };
    if src_first_op.0 >= src_fun.op_count() {
        return Err(CpsError::MalformedOp);
    }
    assert(src_fun@.wf_op(src_first_op.0 as int));
    let fun = Function::new(src_fun.ident(), Dialect::CPS);
    let mut b = FunctionBuilder::new(fun);
    let entry_ebb = b.insert_ebb_entry();
    b.position_at_end(entry_ebb);
    // The two continuations come first.
    let ok_ret_cont = b.add_ebb_argument(entry_ebb);
    let err_ret_cont = b.add_ebb_argument(entry_ebb);
    // Then the arguments of the source entry.
    let src_first_ebb = src_fun.op_ebb(src_first_op);
    let args = src_fun.ebb_args(src_first_ebb);
    let news = b.add_ebb_arguments(entry_ebb, args.len());
    assert(news@.subrange(0, news@.len() as int) =~= news@);
    let mut val_map: Vec<Option<Value>> = new_table(src_fun.value_count());
    let ghost vm0 = val_map@;
    bind(&mut val_map, args, &news, 0);
    proof {
        assert(all_values(news@, b@.fun));
        lemma_bind_ok(vm0, args@, news@, args@.len(), b@.fun);
    }
    let mut ebb_map: Vec<Option<Ebb>> = new_table(src_fun.op_count());
    table_set(&mut ebb_map, src_first_op.0, entry_ebb);
    Ok(
        (
            Chunk {
                b: b,
                val_map: val_map,
                ebb_map: ebb_map,
                ok_ret_cont: ok_ret_cont,
                err_ret_cont: err_ret_cont,
            },
            src_first_op,
        ),
    )
}

/// Whether `x` is in the live set at `i`.
fn live_contains(sets: &Vec<Vec<Value>>, i: usize, x: Value) -> (r: bool)
    ensures
        r == live_at(Seq::new(sets@.len(), |k: int| sets@[k]@), i).contains(x),
{
    if i < sets.len() {
        contains_value(&sets[i], x)
    } else {
        false
    }
}

/// Where the continuation at `site` takes up the source.
fn continuation_start(src_fun: &Function, live: &LiveValues, site: ContSite) -> (r: Result<
    (Op, Option<Value>, Vec<Value>),
    CpsError,
>)
    requires
        src_fun@.wf(),
    ensures
        match continuation_entry(src_fun@, live@, site) {
            Ok((first, result, env_vals)) => r matches Ok((f, res, vals)) && f == first && res
                == result && vals@ == env_vals && src_fun@.has_op(f),
            Err(e) => r matches Err(x) && x == e,
        },
{
    match site {
        ContSite::Op(op) => {
            // The continuation is entered from the call before `op`.
            if op.0 >= src_fun.op_count() {
                return Err(CpsError::MalformedOp);
            }
            let prev_op = match src_fun.op_before(op) {
                Some(p) => p,
                None => {
                    return Err(CpsError::MalformedOp);
                },
            };
            let writes = src_fun.op_writes(prev_op);
            if writes.len() < 1 {
                return Err(CpsError::ArityMismatch);
            }
            let result = writes[0];
            let env_vals = filter_live_at(&live.flow_live, prev_op.0, Some(result));
            Ok((op, Some(result), env_vals))
        },
        ContSite::EbbCall(call, result_after_branch) => {
            // The continuation is entered from a branch.
            if call.0 >= src_fun.ebb_call_count() {
                return Err(CpsError::MalformedOp);
            }
            assert(src_fun@.wf_call(call.0 as int));
            let call_source = src_fun.ebb_call_source(call);
            let call_target = src_fun.ebb_call_target(call);
            let writes = src_fun.op_writes(call_source);
            if writes.len() < 2 {
                return Err(CpsError::ArityMismatch);
            }
            if live_contains(&live.ebb_live, call_target.0, writes[1]) {
                return Err(CpsError::MalformedOp);
            }
            let first = match src_fun.ebb_first_op(call_target) {
                Some(f) => f,
                None => {
                    return Err(CpsError::MalformedOp);
                },
            };
            assert(src_fun@.wf_ebb(call_target.0 as int));
            assert(src_fun@.has_op(src_fun@.ebbs[call_target.0 as int].ops[0]));
            let env_vals = filter_live_at(&live.ebb_live, call_target.0, result_after_branch);
            Ok((first, result_after_branch, env_vals))
        },
    }
}

/// Starts the chunk of the continuation with the environment `env`.
fn init_continuation(src_fun: &Function, live: &LiveValues, site: ContSite, env: ClosureEnv) -> (r:
    Result<(Chunk, Op), CpsError>)
    requires
        src_fun@.wf(),
    ensures
        match init_continuation_spec(src_fun@, live@, site, env) {
            Ok((c1, first)) => r matches Ok((c, f)) && c@ == c1 && f == first && src_fun@.has_op(f),
            Err(e) => r matches Err(x) && x == e,
        },
        r matches Ok((c, f)) ==> chunk_ok(c@) && chunk_head(src_fun@, site, Some(env), c@.b.fun),
{
    let (src_first_op, result_src_val, env_vals) = match continuation_start(src_fun, live, site) {
        Ok(t) => t,
        Err(e) => {
            return Err(e);
        },
    };
    if env_vals.len() > usize::MAX - 2 {
        return Err(CpsError::LimitExceeded);
    }
    let src_ident = src_fun.ident();
    let ident = FunctionIdent {
        module: src_ident.module,
        name: src_ident.name,
        arity: src_ident.arity,
        lambda: Some(Lambda { env: env, index: 0 }),
    };
    let fun = Function::new(ident, Dialect::CPS);
    let mut b = FunctionBuilder::new(fun);
    b.put_attribute(AttributeKey::Continuation, AttributeValue::Unit);
    assert(b@.fun.attributes =~= seq![(AttributeKey::Continuation, AttributeValue::Unit)]);
    let entry_ebb = b.insert_ebb_entry();
    b.position_at_end(entry_ebb);
    let mut ebb_map: Vec<Option<Ebb>> = new_table(src_fun.op_count());
    table_set(&mut ebb_map, src_first_op.0, entry_ebb);
    // The environment, then the result.
    let env_val = b.add_ebb_argument(entry_ebb);
    let res_val = b.add_ebb_argument(entry_ebb);
    assert(b@.fun.ebbs[0].args =~= seq![Value(0), Value(1)]);
    assert(b@.fun.ident == continuation_ident(src_fun@.ident, env));
    let mut val_map: Vec<Option<Value>> = new_table(src_fun.value_count());
    match result_src_val {
        Some(v) => {
            table_set(&mut val_map, v.0, res_val);
        },
        None => {},
    }
    // Two slots for the continuations of the function, then the values
    // that are live where the continuation takes up.
    let ghost f2 = b@.fun;
    let slots = b.op_unpack_env(env_val, env_vals.len() + 2);
    assert(b@.fun.ebbs[0].args == f2.ebbs[0].args);
    assert(b@.fun.ident == f2.ident && b@.fun.attributes == f2.attributes);
    let ok_ret_cont = slots[0];
    let err_ret_cont = slots[1];
    let ghost vm0 = val_map@;
    bind(&mut val_map, &env_vals, &slots, 2);
    proof {
        let rest = slots@.subrange(2, slots@.len() as int);
        assert(all_values(rest, b@.fun));
        lemma_bind_ok(vm0, env_vals@, rest, env_vals@.len(), b@.fun);
    }
    Ok(
        (
            Chunk {
                b: b,
                val_map: val_map,
                ebb_map: ebb_map,
                ok_ret_cont: ok_ret_cont,
                err_ret_cont: err_ret_cont,
            },
            src_first_op,
        ),
    )
}

/// Generates the chunk that starts at `site`: the chunk of an entry point
/// where `cont` is `None`, else the chunk of the continuation with that
/// closure environment. The continuations that the chunk itself binds are
/// scheduled in `shared`.
pub fn gen_chunk(
    src_fun: &Function,
    site: ContSite,
    cont_sites: &Vec<bool>,
    live: &LiveValues,
    shared: &mut Shared,
    cont: Option<ClosureEnv>,
) -> (r: Result<Function, CpsError>)
    requires
        src_fun@.wf(),
    ensures
        match gen_chunk_spec(src_fun@, site, cont_sites@, live@, old(shared)@, cont) {
            Ok((f, s1)) => r matches Ok(fun) && fun@ == f && final(shared)@ == s1,
            Err(e) => r matches Err(x) && x == e,
        },
        cont_sites@ == call_sites(src_fun@) ==> (r matches Ok(fun) ==> cps_form(fun@)),
        r matches Ok(fun) ==> chunk_head(src_fun@, site, cont, fun@),
{
    proof {
        reveal(gen_chunk_spec);
    }
    let init = match cont {
        Some(env) => init_continuation(src_fun, live, site, env),
        None => init_entry(src_fun, site),
    };
    let (mut c, src_first_op) = match init {
        Ok(p) => p,
        Err(e) => {
            return Err(e);
        },
    };
    let mut handled = new_flags(src_fun.op_count());
    let mut to_process: Vec<Op> = Vec::new();
    to_process.push(src_first_op);
    assert(to_process@ =~= seq![src_first_op]);
    let ghost goal = run_spec(
        src_fun@,
        live@,
        cont_sites@,
        c@,
        shared@,
        handled@,
        to_process@,
    );
    let ghost outcome = gen_chunk_spec(src_fun@, site, cont_sites@, live@, old(shared)@, cont);
    assert(outcome == match goal {
        Err(e) => Err::<(FunctionModel, SharedModel), CpsError>(e),
        Ok((c1, s1)) => Ok((c1.b.fun, s1)),
    });
    while to_process.len() > 0
        invariant
            src_fun@.wf(),
            handled@.len() == src_fun@.ops.len(),
            run_spec(src_fun@, live@, cont_sites@, c@, shared@, handled@, to_process@) == goal,
            outcome == gen_chunk_spec(src_fun@, site, cont_sites@, live@, old(shared)@, cont),
            outcome == match goal {
                Err(e) => Err::<(FunctionModel, SharedModel), CpsError>(e),
                Ok((c1, s1)) => Ok((c1.b.fun, s1)),
            },
            cont_sites@ == call_sites(src_fun@) ==> chunk_ok(c@),
            chunk_head(src_fun@, site, cont, c@.b.fun),
        decreases count_false(handled@), to_process@.len(),
    {
        let ghost before = to_process@;
        let ghost handled0 = handled@;
        assert(run_spec(src_fun@, live@, cont_sites@, c@, shared@, handled0, before) == {
            let op = before.last();
            if op.0 >= handled0.len() {
                Err(CpsError::MalformedOp)
            } else if handled0[op.0 as int] {
                run_spec(src_fun@, live@, cont_sites@, c@, shared@, handled0, before.drop_last())
            } else {
                match handle_op_spec(src_fun@, live@, cont_sites@, c@, shared@, op) {
                    Err(e) => Err(e),
                    Ok((c1, s1, more)) => run_spec(
                        src_fun@,
                        live@,
                        cont_sites@,
                        c1,
                        s1,
                        handled0.update(op.0 as int, true),
                        before.drop_last() + more,
                    ),
                }
            }
        });
        let src_op = match to_process.pop() {
            Some(op) => op,
            None => {
                return Err(CpsError::MalformedOp);
            },
        };
        assert(to_process@ =~= before.drop_last());
        if src_op.0 >= handled.len() {
            return Err(CpsError::MalformedOp);
        }
        if handled[src_op.0] {
            continue ;
        }
        handled[src_op.0] = true;
        proof {
            lemma_count_false_update(handled0, src_op.0 as int);
        }
        match handle_op(src_fun, live, cont_sites, &mut c, shared, src_op, &mut to_process) {
            Ok(()) => {},
            Err(e) => {
                return Err(e);
            },
        }
    }
    Ok(c.b.finish())
}

/// Marks the continuation sites of `src_fun`: every call.
fn collect_sites(src_fun: &Function) -> (r: Vec<bool>)
    ensures
        r@ == call_sites(src_fun@),
{
    let n = src_fun.op_count();
    let mut sites: Vec<bool> = Vec::new();
    let mut i: usize = 0;
    while i < n
        invariant
            i <= n,
            n == src_fun@.ops.len(),
            sites@.len() == i,
            forall|k: int| 0 <= k < i ==> sites@[k] == src_fun@.ops[k].kind.is_call(),
        decreases n - i,
    {
        let is_site = match src_fun.op_kind(Op(i)) {
            OpKind::Call { .. } => true,
            OpKind::Apply { .. } => true,
            _ => false,
        };
        sites.push(is_site);
        i = i + 1;
    }
    assert(sites@ =~= call_sites(src_fun@));
    sites
}

/// Whether `site` is among `sites`.
fn site_listed(sites: &Vec<ContSite>, site: ContSite) -> (r: bool)
    ensures
        r == sites@.contains(site),
{
    let mut i: usize = 0;
    while i < sites.len()
        invariant
            i <= sites.len(),
            forall|k: int| 0 <= k < i ==> sites@[k] != site,
        decreases sites.len() - i,
    {
        if sites[i] == site {
            return true;
        }
        i = i + 1;
    }
    false
}

/// Rewrites `src_fun` into continuation-passing style, with `live` as its
/// live values. The entry chunk and the chunk of every continuation are
/// stored in `result_functions`; the closure environments of the
/// continuations are added to `env_idx_gen`.
pub fn transform_function_with(
    src_fun: &Function,
    live: &LiveValues,
    env_idx_gen: &mut ModuleEnvs,
    result_functions: &mut Vec<Function>,
) -> (r: Result<(), CpsError>)
    requires
        src_fun@.wf(),
    ensures
        transform_function_spec(
            src_fun@,
            live@,
            old(env_idx_gen)@,
            functions_view(old(result_functions)@),
        ) == (match r {
            Ok(()) => Ok((final(env_idx_gen)@, functions_view(final(result_functions)@))),
            Err(e) => Err(e),
        }),
        all_cps(functions_view(old(result_functions)@)) && r is Ok ==> all_cps(
            functions_view(final(result_functions)@),
        ),
{
    proof {
        reveal(transform_function_spec);
    }
    let ghost good = all_cps(functions_view(result_functions@));
    let ghost outcome = transform_function_spec(
        src_fun@,
        live@,
        env_idx_gen@,
        functions_view(result_functions@),
    );
    let cont_sites = collect_sites(src_fun);
    let entry = match src_fun.ebb_entry() {
        Some(e) => e,
        None => {
            return Err(CpsError::MalformedOp);
        },
    };
    if entry.0 >= src_fun.ebb_count() {
        return Err(CpsError::MalformedOp);
    }
    let first = match src_fun.ebb_first_op(entry) {
        Some(op) => op,
        None => {
            return Err(CpsError::MalformedOp);
        },
    };
    let mut shared = Shared {
        envs: env_idx_gen.duplicate(),
        needed: Vec::new(),
        continuations: Vec::new(),
    };
    let fun = match gen_chunk(src_fun, ContSite::Op(first), &cont_sites, live, &mut shared, None) {
        Ok(f) => f,
        Err(e) => {
            return Err(e);
        },
    };
    proof {
        if good {
            lemma_store_keeps_cps(functions_view(result_functions@), fun@);
        }
    }
    insert_function(result_functions, fun);
    let mut generated: Vec<ContSite> = Vec::new();
    let mut rounds: usize = 0;
    while shared.needed.len() > 0
        invariant
            src_fun@.wf(),
            cont_sites@ == call_sites(src_fun@),
            outcome == transform_function_spec(
                src_fun@,
                live@,
                old(env_idx_gen)@,
                functions_view(old(result_functions)@),
            ),
            drain_spec(
                src_fun@,
                live@,
                cont_sites@,
                shared@,
                functions_view(result_functions@),
                generated@,
                (usize::MAX - rounds) as nat,
            ) == outcome,
            good ==> all_cps(functions_view(result_functions@)),
        decreases usize::MAX - rounds,
    {
        let ghost s0 = shared@;
        let ghost funs0 = functions_view(result_functions@);
        let ghost fuel = (usize::MAX - rounds) as nat;
        assert(drain_spec(src_fun@, live@, cont_sites@, s0, funs0, generated@, fuel) == if fuel
            == 0 {
            Err(CpsError::LimitExceeded)
        } else {
            let (site, env) = s0.needed.last();
            let s1 = SharedModel { needed: s0.needed.drop_last(), ..s0 };
            if generated@.contains(site) {
                drain_spec(src_fun@, live@, cont_sites@, s1, funs0, generated@, (fuel - 1) as nat)
            } else {
                match gen_chunk_spec(src_fun@, site, cont_sites@, live@, s1, Some(env)) {
                    Err(e) => Err(e),
                    Ok((f, s2)) => drain_spec(
                        src_fun@,
                        live@,
                        cont_sites@,
                        s2,
                        store_function(funs0, f),
                        generated@.push(site),
                        (fuel - 1) as nat,
                    ),
                }
            }
        });
        if rounds == usize::MAX {
            return Err(CpsError::LimitExceeded);
        }
        rounds = rounds + 1;
        let (site, env) = match shared.needed.pop() {
            Some(p) => p,
            None => {
                return Err(CpsError::MalformedOp);
            },
        };
        assert(shared@ == (SharedModel { needed: s0.needed.drop_last(), ..s0 }));
        if site_listed(&generated, site) {
            continue ;
        }
        generated.push(site);
        let fun = match gen_chunk(src_fun, site, &cont_sites, live, &mut shared, Some(env)) {
            Ok(f) => f,
            Err(e) => {
                return Err(e);
            },
        };
        proof {
            if good {
                lemma_store_keeps_cps(functions_view(result_functions@), fun@);
            }
        }
        insert_function(result_functions, fun);
    }
    *env_idx_gen = shared.envs;
    Ok(())
}

/// Rewrites `src_fun` into continuation-passing style. The entry chunk
/// keeps the identity of `src_fun`; every continuation gets the identity
/// of a closure of `src_fun`, with a closure environment of its own.
pub fn transform_function(
    src_fun: &Function,
    env_idx_gen: &mut ModuleEnvs,
    result_functions: &mut Vec<Function>,
) -> (r: Result<(), CpsError>)
    requires
        src_fun@.wf(),
    ensures
        function_transformed(
            src_fun@,
            old(env_idx_gen)@,
            functions_view(old(result_functions)@),
            match r {
                Ok(()) => Ok((final(env_idx_gen)@, functions_view(final(result_functions)@))),
                Err(e) => Err(e),
            },
        ),
        all_cps(functions_view(old(result_functions)@)) && r is Ok ==> all_cps(
            functions_view(final(result_functions)@),
        ),
{
    let live = match live_values(src_fun) {
        Some(l) => l,
        None => {
            return Err(CpsError::LimitExceeded);
        },
    };
    transform_function_with(src_fun, &live, env_idx_gen, result_functions)
}

/// Whether `a` comes before `b` in the order of function identities.
pub fn ident_less(a: FunctionIdent, b: FunctionIdent) -> (r: bool)
    ensures
        r == ident_lt(a, b),
{
    if a.module.0 != b.module.0 {
        a.module.0 < b.module.0
    } else if a.name.0 != b.name.0 {
        a.name.0 < b.name.0
    } else if a.arity != b.arity {
        a.arity < b.arity
    } else {
        match a.lambda {
            None => b.lambda.is_some(),
            Some(x) => match b.lambda {
                None => false,
                Some(y) => if x.env.0 != y.env.0 {
                    x.env.0 < y.env.0
                } else {
                    x.index < y.index
                },
            },
        }
    }
}

/// What is selected is one of the functions.
pub proof fn lemma_select_min_in_range(fs: Seq<FunctionModel>, done: Seq<bool>, k: nat)
    requires
        select_min(fs, done, k) is Some,
    ensures
        0 <= select_min(fs, done, k)->0 < k,
        k <= fs.len(),
        k <= done.len(),
    decreases k,
{
    if k > 0 && k <= fs.len() && k <= done.len() {
        if select_min(fs, done, (k - 1) as nat) is Some {
            lemma_select_min_in_range(fs, done, (k - 1) as nat);
        }
    }
}

/// The function that is rewritten next: the first of those with the least
/// identity that are not done.
fn pick_next(functions: &Vec<Function>, done: &Vec<bool>) -> (r: Option<usize>)
    requires
        done@.len() == functions@.len(),
    ensures
        match select_min(functions_view(functions@), done@, functions@.len()) {
            Some(i) => r == Some(i as usize) && 0 <= i < functions@.len() && !done@[i],
            None => r is None,
        },
{
    let ghost fs = functions_view(functions@);
    let mut best: Option<usize> = None;
    let mut k: usize = 0;
    while k < functions.len()
        invariant
            k <= functions.len(),
            done@.len() == functions@.len(),
            fs == functions_view(functions@),
            match select_min(fs, done@, k as nat) {
                Some(i) => best == Some(i as usize) && 0 <= i < k && !done@[i],
                None => best is None,
            },
        decreases functions.len() - k,
    {
        assert(select_min(fs, done@, (k + 1) as nat) == {
            let prev = select_min(fs, done@, k as nat);
            if done@[k as int] {
                prev
            } else {
                match prev {
                    None => Some(k as int),
                    Some(j) => if ident_lt(fs[k as int].ident, fs[j].ident) {
                        Some(k as int)
                    } else {
                        Some(j)
                    },
                }
            }
        });
        if !done[k] {
            match best {
                None => {
                    best = Some(k);
                },
                Some(j) => {
                    if ident_less(functions[k].ident(), functions[j].ident()) {
                        best = Some(k);
                    }
                },
            }
        }
        k = k + 1;
    }
    best
}

/// Rewrites every function of `module` into continuation-passing style.
/// The functions are taken in the order of their identities, so that the
/// closure environments of the continuations are numbered the same way on
/// every run.
pub fn transform_module(module: &Module) -> (r: Result<Module, CpsError>)
    requires
        forall|i: int| 0 <= i < module.functions@.len() ==> (#[trigger] module.functions@[i])@.wf(),
    ensures
        module_transformed(
            module@,
            match r {
                Ok(m) => Ok(m@),
                Err(e) => Err(e),
            },
        ),
        r matches Ok(m) ==> all_cps(m@.functions),
{
    let n = module.functions.len();
    let ghost fs = functions_view(module.functions@);
    let mut lives: Vec<LiveValues> = Vec::new();
    let mut i: usize = 0;
    while i < n
        invariant
            i <= n,
            n == module.functions@.len(),
            fs == functions_view(module.functions@),
            forall|i: int|
                0 <= i < module.functions@.len() ==> (#[trigger] module.functions@[i])@.wf(),
            lives@.len() == i,
            forall|k: int| 0 <= k < i ==> (#[trigger] lives@[k])@ == liveness(fs[k]),
            forall|k: int| 0 <= k < i ==> !too_large(#[trigger] fs[k]),
        decreases n - i,
    {
        match live_values(&module.functions[i]) {
            Some(l) => {
                lives.push(l);
            },
            None => {
                assert(too_large(fs[i as int]));
                return Err(CpsError::LimitExceeded);
            },
        }
        i = i + 1;
    }
    let ghost lm = Seq::new(n as nat, |k: int| lives@[k]@);
    assert(lm =~= Seq::new(fs.len(), |i: int| liveness(fs[i])));
    let mut env_gen = module.envs.duplicate();
    let mut funs: Vec<Function> = Vec::new();
    let mut done = new_flags(n);
    let mut k: usize = 0;
    assert(functions_view(funs@) =~= Seq::<FunctionModel>::empty());
    let ghost goal = transform_all_spec(fs, lm, done@, env_gen@, functions_view(funs@), n as nat);
    while k < n
        invariant
            k <= n,
            n == module.functions@.len(),
            fs == functions_view(module.functions@),
            forall|i: int|
                0 <= i < module.functions@.len() ==> (#[trigger] module.functions@[i])@.wf(),
            lives@.len() == n,
            lm == Seq::new(n as nat, |k: int| lives@[k]@),
            lm == Seq::new(fs.len(), |i: int| liveness(fs[i])),
            forall|k: int| 0 <= k < n ==> !too_large(#[trigger] fs[k]),
            done@.len() == n,
            goal == transform_all_spec(
                fs,
                lm,
                Seq::new(n as nat, |i: int| false),
                module.envs@,
                Seq::empty(),
                n as nat,
            ),
            transform_all_spec(fs, lm, done@, env_gen@, functions_view(funs@), (n - k) as nat)
                == goal,
            all_cps(functions_view(funs@)),
        decreases n - k,
    {
        let ghost rounds = (n - k) as nat;
        let ghost done0 = done@;
        proof {
            if select_min(fs, done0, fs.len()) is Some {
                lemma_select_min_in_range(fs, done0, fs.len());
            }
        }
        assert(transform_all_spec(fs, lm, done0, env_gen@, functions_view(funs@), rounds)
            == match select_min(fs, done0, fs.len()) {
            None => Ok((env_gen@, functions_view(funs@))),
            Some(i) => match transform_function_spec(
                fs[i],
                lm[i],
                env_gen@,
                functions_view(funs@),
            ) {
                Err(e) => Err(e),
                Ok((envs1, funs1)) => transform_all_spec(
                    fs,
                    lm,
                    done0.update(i, true),
                    envs1,
                    funs1,
                    (rounds - 1) as nat,
                ),
            },
        });
        match pick_next(&module.functions, &done) {
            None => {
                k = n;
            },
            Some(i) => {
                done[i] = true;
                match transform_function_with(
                    &module.functions[i],
                    &lives[i],
                    &mut env_gen,
                    &mut funs,
                ) {
                    Ok(()) => {},
                    Err(e) => {
                        proof {
                            assert(transform_module_spec(module@) == Err::<
                                ModuleModel,
                                CpsError,
                            >(e));
                        }
                        return Err(e);
                    },
                }
                k = k + 1;
            },
        }
    }
    let result = Module { name: module.name, functions: funs, envs: env_gen };
    proof {
        assert(transform_module_spec(module@) == Ok::<ModuleModel, CpsError>(result@));
    }
    Ok(result)
}

} // verus!

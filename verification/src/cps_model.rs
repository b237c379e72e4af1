//! What the rewrite into continuation-passing style computes, as
//! mathematics.
//!
//! A function is rewritten chunk by chunk. A chunk is a function of its own:
//! the entry chunk starts at the first operation of the source function, and
//! a continuation chunk starts where a call returns or throws. A chunk is
//! built by copying source operations along the control flow until a call is
//! met. There the rest of the function is packed into two closures, and the
//! call is made in tail position with the closures as its continuations.

use vstd::prelude::*;
use crate::lir::{
    AttributeKey, AttributeValue, CallType, ClosureEnv, Dialect, Ebb, EbbCall, FunctionIdent,
    FunctionModel, Lambda, Op, OpKind, Value,
};
use crate::builder::BuilderModel;
use crate::live::{LiveModel, liveness};
use crate::flags::{count_false, lemma_count_false_update};
use crate::module::{ModuleModel, store_function, find_function};

verus! {

/// Where a continuation takes up the source function.
#[derive(Clone, Copy, Debug, PartialEq, Eq, Hash, Structural)]
pub enum ContSite {
    /// At the target of an EBB call, after a callee has thrown. The value,
    /// if any, is the one that holds what was thrown.
    EbbCall(EbbCall, Option<Value>),
    /// At an operation, after the call before it has returned.
    Op(Op),
}

/// Why the rewrite gave up.
#[derive(Clone, Copy, Debug, PartialEq, Eq, Structural)]
pub enum CpsError {
    /// A call does not have the results that its call type asks for.
    ArityMismatch,
    /// The source function is not of the expected shape: an operation uses
    /// a value or an EBB that no copied operation defines, a call lacks an
    /// operand, a continuation or a branch target, an operation follows one
    /// that ends its EBB, or something other than a call is marked as a
    /// continuation site.
    MalformedOp,
    /// More chunks were asked for than the function has places where a
    /// continuation can start.
    LimitExceeded,
}

/// The state of the chunk under construction.
pub struct ChunkModel {
    pub b: BuilderModel,
    /// For each source value, the value of the chunk that stands for it.
    pub val_map: Seq<Option<Value>>,
    /// For each source operation, the EBB of the chunk that its copy goes
    /// to.
    pub ebb_map: Seq<Option<Ebb>>,
    /// The continuations that the chunk itself was handed.
    pub ok_ret_cont: Value,
    pub err_ret_cont: Value,
}

/// What the chunks of one module share.
pub struct SharedModel {
    /// The closure environments of the module.
    pub envs: Seq<Option<usize>>,
    /// The continuations whose chunks are still to be generated.
    pub needed: Seq<(ContSite, ClosureEnv)>,
    /// The closure environment of every continuation site met so far.
    pub continuations: Seq<(ContSite, ClosureEnv)>,
}

impl ChunkModel {
    /// The chunk over another function.
    pub open spec fn with_fun(self, fun: FunctionModel) -> ChunkModel {
        ChunkModel { b: self.b.with_fun(fun), ..self }
    }

    /// The chunk with another builder state.
    pub open spec fn with_builder(self, b: BuilderModel) -> ChunkModel {
        ChunkModel { b: b, ..self }
    }
}

/// The entry of a table at `i`, if there is one.
pub open spec fn entry_at<T>(m: Seq<Option<T>>, i: usize) -> Option<T> {
    if i < m.len() {
        m[i as int]
    } else {
        None
    }
}

/// The table with `v` at `i`. A table is never extended.
pub open spec fn with_entry<T>(m: Seq<Option<T>>, i: usize, v: T) -> Seq<Option<T>> {
    if i < m.len() {
        m.update(i as int, Some(v))
    } else {
        m
    }
}

/// The value map after the first `k` of `keys` were mapped, in order, to the
/// values at the same positions of `news`.
pub open spec fn bind_spec(vm: Seq<Option<Value>>, keys: Seq<Value>, news: Seq<Value>, k: nat) -> Seq<
    Option<Value>,
>
    decreases k,
{
    if k == 0 || k > keys.len() || k > news.len() {
        vm
    } else {
        with_entry(bind_spec(vm, keys, news, (k - 1) as nat), keys[k - 1].0, news[k - 1])
    }
}

/// The identity of the continuation with environment `env` of the function
/// `ident`.
pub open spec fn continuation_ident(ident: FunctionIdent, env: ClosureEnv) -> FunctionIdent {
    FunctionIdent { lambda: Some(Lambda { env: env, index: 0 }), ..ident }
}

/// The value of the chunk that stands for the source value `v`: a fresh
/// constant with the same literal, or what the value map holds.
pub open spec fn copy_read_spec(src: FunctionModel, c: ChunkModel, v: Value) -> Result<
    (ChunkModel, Value),
    CpsError,
> {
    if src.has_value(v) && src.values[v.0 as int] is Constant {
        Ok(
            (
                c.with_fun(c.b.fun.push_constant(src.values[v.0 as int]->Constant_0)),
                Value(c.b.fun.values.len() as usize),
            ),
        )
    } else {
        match entry_at(c.val_map, v.0) {
            Some(d) => Ok((c, d)),
            None => Err(CpsError::MalformedOp),
        }
    }
}

/// The values of the chunk that stand for the first `k` of `vals`.
pub open spec fn copy_values_spec(src: FunctionModel, c: ChunkModel, vals: Seq<Value>, k: nat) -> Result<
    (ChunkModel, Seq<Value>),
    CpsError,
>
    decreases k,
{
    if k == 0 || k > vals.len() {
        Ok((c, Seq::empty()))
    } else {
        match copy_values_spec(src, c, vals, (k - 1) as nat) {
            Err(e) => Err(e),
            Ok((c1, out)) => match copy_read_spec(src, c1, vals[k - 1]) {
                Err(e) => Err(e),
                Ok((c2, d)) => Ok((c2, out.push(d))),
            },
        }
    }
}

/// The EBB of the chunk that stands for the source EBB whose first
/// operation is `first`, and the state in which it exists: an EBB made
/// before, or a new one with an argument for each argument of the source
/// EBB.
pub open spec fn target_spec(src: FunctionModel, c: ChunkModel, target: Ebb, first: Op) -> (
    ChunkModel,
    Ebb,
) {
    match entry_at(c.ebb_map, first.0) {
        Some(e) => (c, e),
        None => {
            let new = Ebb(c.b.fun.ebbs.len() as usize);
            let args = src.ebbs[target.0 as int].args;
            let f1 = c.b.fun.push_ebb();
            (
                ChunkModel {
                    b: c.b.with_fun(f1.push_arguments(new, args.len())),
                    ebb_map: with_entry(c.ebb_map, first.0, new),
                    val_map: bind_spec(c.val_map, args, f1.full_op_writes(args.len()), args.len()),
                    ..c
                },
                new,
            )
        },
    }
}

/// The state after one branch of a source operation was copied to the
/// operation under construction.
pub open spec fn copy_branch_spec(src: FunctionModel, c: ChunkModel, branch: EbbCall) -> Result<
    ChunkModel,
    CpsError,
> {
    let cd = src.calls[branch.0 as int];
    match src.ebb_first_op(cd.target) {
        None => Err(CpsError::MalformedOp),
        Some(first) => {
            let (c1, new) = target_spec(src, c, cd.target, first);
            match copy_values_spec(src, c1, cd.args, cd.args.len()) {
                Err(e) => Err(e),
                Ok((c2, buf)) => {
                    let cur = c2.b.current->0;
                    let call = EbbCall(c2.b.fun.calls.len() as usize);
                    Ok(c2.with_fun(c2.b.fun.push_call(cur, new, buf).push_branch(cur, call)))
                },
            }
        },
    }
}

/// The state after the first `k` branches of a source operation were copied
/// to the operation under construction.
pub open spec fn copy_branches_spec(
    src: FunctionModel,
    c: ChunkModel,
    branches: Seq<EbbCall>,
    k: nat,
) -> Result<ChunkModel, CpsError>
    decreases k,
{
    if k == 0 || k > branches.len() {
        Ok(c)
    } else {
        match copy_branches_spec(src, c, branches, (k - 1) as nat) {
            Err(e) => Err(e),
            Ok(c1) => copy_branch_spec(src, c1, branches[k - 1]),
        }
    }
}

/// The state after the source operation `op` was copied to the end of the
/// EBB of the position: a new operation of the same kind, with a fresh
/// result for every result, the copy of every read, and a branch for every
/// branch. The operation that follows `op` in the source goes to the same
/// EBB.
pub open spec fn copy_op_spec(src: FunctionModel, c: ChunkModel, op: Op) -> Result<
    ChunkModel,
    CpsError,
> {
    let d = src.ops[op.0 as int];
    let b1 = c.b.op_build_start(d.kind);
    let cur = b1.current->0;
    let f2 = b1.fun.push_writes(cur, d.writes.len());
    let c2 = ChunkModel {
        b: b1.with_fun(f2),
        val_map: bind_spec(
            c.val_map,
            d.writes,
            b1.fun.full_op_writes(d.writes.len()),
            d.writes.len(),
        ),
        ..c
    };
    match copy_values_spec(src, c2, d.reads, d.reads.len()) {
        Err(e) => Err(e),
        Ok((c3, reads)) => {
            let c4 = c3.with_fun(c3.b.fun.push_reads(cur, reads));
            match copy_branches_spec(src, c4, d.branches, d.branches.len()) {
                Err(e) => Err(e),
                Ok(c5) => Ok(
                    ChunkModel {
                        b: c5.b.op_build_end(),
                        ebb_map: match (src.op_after(op), c5.b.position) {
                            (Some(next), Some(e)) => with_entry(c5.ebb_map, next.0, e),
                            _ => c5.ebb_map,
                        },
                        ..c5
                    },
                ),
            }
        },
    }
}

/// The value map with which the reads of `op` are copied: that of `c`, in
/// which the results of `op` are mapped to the results of the copy.
pub open spec fn reads_map(src: FunctionModel, c: ChunkModel, op: Op) -> Seq<Option<Value>> {
    let d = src.ops[op.0 as int];
    bind_spec(
        c.val_map,
        d.writes,
        c.b.op_build_start(d.kind).fun.full_op_writes(d.writes.len()),
        d.writes.len(),
    )
}

/// Whether `r1` stands in `f1` for the source value `r` under the value map
/// `vm`: a constant for a constant with the same literal, else what the
/// map holds for `r`.
pub open spec fn read_copied(
    src: FunctionModel,
    vm: Seq<Option<Value>>,
    f1: FunctionModel,
    r: Value,
    r1: Value,
) -> bool {
    if src.values[r.0 as int] is Constant {
        f1.has_value(r1) && f1.values[r1.0 as int] == src.values[r.0 as int]
    } else {
        entry_at(vm, r.0) == Some(r1)
    }
}

/// Whether the EBB call `b1` of the chunk `c1` is the copy of the source
/// EBB call `b`: it starts at the operation `from`, passes as many
/// arguments, and leads to the EBB that stands for the target.
pub open spec fn branch_copied(
    src: FunctionModel,
    c1: ChunkModel,
    b: EbbCall,
    b1: EbbCall,
    from: Op,
) -> bool {
    &&& c1.b.fun.has_call(b1)
    &&& c1.b.fun.calls[b1.0 as int].source == from
    &&& c1.b.fun.calls[b1.0 as int].args.len() == src.calls[b.0 as int].args.len()
    &&& src.ebb_first_op(src.calls[b.0 as int].target) matches Some(first)
    &&& entry_at(c1.ebb_map, first.0) == Some(c1.b.fun.calls[b1.0 as int].target)
}

/// Whether the chunk `c1` is `c` with one more operation, the copy of the
/// source operation `op`: the same kind, as many results, every read
/// renamed, and every branch led to the EBB that stands for its target.
pub open spec fn op_copied(src: FunctionModel, c: ChunkModel, c1: ChunkModel, op: Op) -> bool {
    let d = src.ops[op.0 as int];
    let new = c.b.fun.ops.len() as int;
    let d1 = c1.b.fun.ops[new];
    &&& c1.b.fun.ops.len() == new + 1
    &&& d1.kind == d.kind
    &&& d1.ebb == c.b.position->0
    &&& d1.writes.len() == d.writes.len()
    &&& d1.reads.len() == d.reads.len()
    &&& d1.branches.len() == d.branches.len()
    &&& forall|i: int|
        0 <= i < d.writes.len() ==> #[trigger] d1.writes[i] == Value(
            (c.b.fun.values.len() + i) as usize,
        )
    &&& forall|i: int|
        0 <= i < d.reads.len() ==> read_copied(
            src,
            reads_map(src, c, op),
            c1.b.fun,
            d.reads[i],
            #[trigger] d1.reads[i],
        )
    &&& forall|i: int|
        0 <= i < d.branches.len() ==> branch_copied(
            src,
            c1,
            d.branches[i],
            #[trigger] d1.branches[i],
            Op(new as usize),
        )
}

/// Those of the first `k` of `lives` that are not `skip`.
pub open spec fn filter_live(lives: Seq<Value>, skip: Option<Value>, k: nat) -> Seq<Value>
    decreases k,
{
    if k == 0 || k > lives.len() {
        Seq::empty()
    } else if Some(lives[k - 1]) == skip {
        filter_live(lives, skip, (k - 1) as nat)
    } else {
        filter_live(lives, skip, (k - 1) as nat).push(lives[k - 1])
    }
}

/// The values of the chunk that stand for `vals`, none of which may be a
/// constant.
pub open spec fn lookup_all(vm: Seq<Option<Value>>, vals: Seq<Value>, k: nat) -> Result<
    Seq<Value>,
    CpsError,
>
    decreases k,
{
    if k == 0 || k > vals.len() {
        Ok(Seq::empty())
    } else {
        match lookup_all(vm, vals, (k - 1) as nat) {
            Err(e) => Err(e),
            Ok(out) => match entry_at(vm, vals[k - 1].0) {
                Some(d) => Ok(out.push(d)),
                None => Err(CpsError::MalformedOp),
            },
        }
    }
}

/// The value that is passed for `v` by an EBB call: the call argument at
/// the position of `v` among the first `k` EBB arguments, or `v` itself.
pub open spec fn rename_spec(ebb_args: Seq<Value>, call_args: Seq<Value>, v: Value, k: nat) -> Value
    decreases k,
{
    if k == 0 {
        v
    } else if k <= ebb_args.len() && k <= call_args.len() && ebb_args[k - 1] == v {
        call_args[k - 1]
    } else {
        rename_spec(ebb_args, call_args, v, (k - 1) as nat)
    }
}

/// What an error continuation captures of the first `k` values live at the
/// target of the throwing branch: each value as it is called before the
/// branch, but for the one that holds what was thrown. That one is returned
/// under the name it has after the branch.
pub open spec fn err_selection(
    lives: Seq<Value>,
    ebb_args: Seq<Value>,
    call_args: Seq<Value>,
    nok: Value,
    k: nat,
) -> (Seq<Value>, Option<Value>)
    decreases k,
{
    if k == 0 || k > lives.len() {
        (Seq::empty(), None)
    } else {
        let (sel, found) = err_selection(lives, ebb_args, call_args, nok, (k - 1) as nat);
        let renamed = rename_spec(ebb_args, call_args, lives[k - 1], ebb_args.len());
        if renamed == nok {
            (sel, Some(lives[k - 1]))
        } else {
            (sel.push(renamed), found)
        }
    }
}

/// The closure environment of `site` among the first `k` entries.
pub open spec fn find_site(conts: Seq<(ContSite, ClosureEnv)>, site: ContSite, k: nat) -> Option<
    ClosureEnv,
>
    decreases k,
{
    if k == 0 || k > conts.len() {
        None
    } else {
        match find_site(conts, site, (k - 1) as nat) {
            Some(e) => Some(e),
            None => if conts[k - 1].0 == site {
                Some(conts[k - 1].1)
            } else {
                None
            },
        }
    }
}

/// The closure environment of the continuation at `site`: the one it has
/// already, or a new one that captures `n` values and whose chunk is
/// scheduled.
pub open spec fn intern_site(s: SharedModel, site: ContSite, n: usize) -> (SharedModel, ClosureEnv) {
    match find_site(s.continuations, site, s.continuations.len()) {
        Some(env) => (s, env),
        None => {
            let env = ClosureEnv(s.envs.len() as usize);
            (
                SharedModel {
                    envs: s.envs.push(Some(n)),
                    continuations: s.continuations.push((site, env)),
                    needed: s.needed.push((site, env)),
                },
                env,
            )
        },
    }
}

/// The state after a closure for the continuation at `site` was bound, and
/// the closure. The closure captures `captures`.
pub open spec fn bind_continuation(
    src: FunctionModel,
    c: ChunkModel,
    s: SharedModel,
    site: ContSite,
    captures: Seq<Value>,
) -> (ChunkModel, SharedModel, Value) {
    let (s1, env) = intern_site(s, site, captures.len() as usize);
    let b1 = c.b.emit(OpKind::MakeClosureEnv { env_idx: env }, captures, 1);
    let env_val = Value(c.b.fun.values.len() as usize);
    let b2 = b1.emit(
        OpKind::BindClosure { ident: continuation_ident(src.ident, env) },
        seq![env_val],
        1,
    );
    (c.with_builder(b2), s1, Value(b1.fun.values.len() as usize))
}

/// The state after the two continuations of the normal call `op` were
/// bound, and the continuations: the first takes up after the call, the
/// second at the target of its branch.
pub open spec fn normal_conts_spec(
    src: FunctionModel,
    live: LiveModel,
    c: ChunkModel,
    s: SharedModel,
    op: Op,
) -> Result<(ChunkModel, SharedModel, Value, Value), CpsError> {
    let d = src.ops[op.0 as int];
    let ok_val = d.writes[0];
    let nok_val = d.writes[1];
    let ok_live = filter_live(
        live_at(live.flow_live, op.0),
        Some(ok_val),
        live_at(live.flow_live, op.0).len(),
    );
    match lookup_all(c.val_map, ok_live, ok_live.len()) {
        Err(e) => Err(e),
        Ok(caps) => match src.op_after(op) {
            None => Err(CpsError::MalformedOp),
            Some(next) => if d.branches.len() == 0 {
                Err(CpsError::MalformedOp)
            } else {
                let (c1, s1, ok_cont) = bind_continuation(
                    src,
                    c,
                    s,
                    ContSite::Op(next),
                    seq![c.ok_ret_cont, c.err_ret_cont] + caps,
                );
                let branch = d.branches[0];
                let cd = src.calls[branch.0 as int];
                let err_live = live_at(live.ebb_live, cd.target.0);
                let (sel, renamed) = err_selection(
                    err_live,
                    src.ebbs[cd.target.0 as int].args,
                    cd.args,
                    nok_val,
                    err_live.len(),
                );
                match lookup_all(c1.val_map, sel, sel.len()) {
                    Err(e) => Err(e),
                    Ok(caps2) => {
                        let (c2, s2, err_cont) = bind_continuation(
                            src,
                            c1,
                            s1,
                            ContSite::EbbCall(branch, renamed),
                            seq![c.ok_ret_cont, c.err_ret_cont] + caps2,
                        );
                        Ok((c2, s2, ok_cont, err_cont))
                    },
                }
            },
        },
    }
}

/// The live set at `i`, or the empty set where the table has none.
pub open spec fn live_at(sets: Seq<Seq<Value>>, i: usize) -> Seq<Value> {
    if i < sets.len() {
        sets[i as int]
    } else {
        Seq::empty()
    }
}

/// The state after the call `op` was made in tail position with the given
/// continuations before its own arguments.
pub open spec fn emit_call_spec(
    src: FunctionModel,
    c: ChunkModel,
    op: Op,
    ok_cont: Value,
    err_cont: Value,
) -> Result<ChunkModel, CpsError> {
    let d = src.ops[op.0 as int];
    match d.kind {
        OpKind::Apply { call_type } => if d.reads.len() < 1 {
            Err(CpsError::MalformedOp)
        } else {
            let rest = d.reads.subrange(1, d.reads.len() as int);
            match copy_values_spec(src, c, rest, rest.len()) {
                Err(e) => Err(e),
                Ok((c1, args)) => match entry_at(c1.val_map, d.reads[0].0) {
                    None => Err(CpsError::MalformedOp),
                    Some(f) => Ok(
                        c1.with_builder(
                            c1.b.emit(
                                OpKind::Apply { call_type: CallType::Tail },
                                seq![f] + (seq![ok_cont, err_cont] + args),
                                0,
                            ),
                        ),
                    ),
                },
            }
        },
        OpKind::Call { call_type, arity } => if d.reads.len() < 2 {
            Err(CpsError::MalformedOp)
        } else {
            let rest = d.reads.subrange(2, d.reads.len() as int);
            match copy_values_spec(src, c, rest, rest.len()) {
                Err(e) => Err(e),
                Ok((c1, args)) => match copy_read_spec(src, c1, d.reads[0]) {
                    Err(e) => Err(e),
                    Ok((c2, name)) => match copy_read_spec(src, c2, d.reads[1]) {
                        Err(e) => Err(e),
                        Ok((c3, module)) => Ok(
                            c3.with_builder(
                                c3.b.emit(
                                    OpKind::Call { call_type: CallType::Tail, arity: arity },
                                    seq![name, module] + (seq![ok_cont, err_cont] + args),
                                    0,
                                ),
                            ),
                        ),
                    },
                },
            }
        },
        _ => Err(CpsError::MalformedOp),
    }
}

/// The state after the call `op` of the source was rewritten: a tail call
/// is handed the continuations of the chunk, any other call two closures
/// that take up where it returns or throws.
pub open spec fn call_site_spec(
    src: FunctionModel,
    live: LiveModel,
    c: ChunkModel,
    s: SharedModel,
    op: Op,
) -> Result<(ChunkModel, SharedModel), CpsError> {
    let d = src.ops[op.0 as int];
    if !d.kind.is_call() {
        Err(CpsError::MalformedOp)
    } else if d.kind.is_terminator() {
        if d.writes.len() != 0 {
            Err(CpsError::ArityMismatch)
        } else {
            match emit_call_spec(src, c, op, c.ok_ret_cont, c.err_ret_cont) {
                Err(e) => Err(e),
                Ok(c1) => Ok((c1, s)),
            }
        }
    } else if d.writes.len() != 2 {
        Err(CpsError::ArityMismatch)
    } else {
        match normal_conts_spec(src, live, c, s, op) {
            Err(e) => Err(e),
            Ok((c1, s1, ok_cont, err_cont)) => match emit_call_spec(src, c1, op, ok_cont, err_cont) {
                Err(e) => Err(e),
                Ok(c2) => Ok((c2, s1)),
            },
        }
    }
}

/// The state after the return `op` of the source was rewritten: what is
/// returned is handed to the continuation `cont`.
pub open spec fn return_spec(src: FunctionModel, c: ChunkModel, op: Op, cont: Value) -> Result<
    ChunkModel,
    CpsError,
> {
    let d = src.ops[op.0 as int];
    if d.reads.len() < 1 {
        Err(CpsError::MalformedOp)
    } else {
        match entry_at(c.val_map, d.reads[0].0) {
            None => Err(CpsError::MalformedOp),
            Some(v) => Ok(c.with_builder(c.b.emit(OpKind::ContApply, seq![cont, v], 0))),
        }
    }
}

/// The operations at which the copy goes on after `op`: the one that
/// follows it, and the first of every EBB it branches to.
pub open spec fn successors(src: FunctionModel, op: Op) -> Seq<Op> {
    let d = src.ops[op.0 as int];
    (match src.op_after(op) {
        Some(next) => seq![next],
        None => Seq::empty(),
    }) + branch_targets(src, d.branches, d.branches.len())
}

/// The first operations of the EBBs that the first `k` branches lead to.
pub open spec fn branch_targets(src: FunctionModel, branches: Seq<EbbCall>, k: nat) -> Seq<Op>
    decreases k,
{
    if k == 0 || k > branches.len() {
        Seq::empty()
    } else {
        let rest = branch_targets(src, branches, (k - 1) as nat);
        match src.ebb_first_op(src.calls[branches[k - 1].0 as int].target) {
            Some(first) => rest.push(first),
            None => rest,
        }
    }
}

/// The state after the source operation `op` was dealt with, and the
/// operations at which the copy goes on.
#[verifier::opaque]
pub open spec fn handle_op_spec(
    src: FunctionModel,
    live: LiveModel,
    sites: Seq<bool>,
    c: ChunkModel,
    s: SharedModel,
    op: Op,
) -> Result<(ChunkModel, SharedModel, Seq<Op>), CpsError> {
    match entry_at(c.ebb_map, op.0) {
        None => Err(CpsError::MalformedOp),
        Some(e) => if !c.b.fun.has_ebb(e) || !c.b.fun.open_ended(e) || c.b.current is Some {
            Err(CpsError::MalformedOp)
        } else {
            let c0 = c.with_builder(c.b.position_at_end(e));
            let kind = src.ops[op.0 as int].kind;
            if op.0 < sites.len() && sites[op.0 as int] {
                match call_site_spec(src, live, c0, s, op) {
                    Err(e) => Err(e),
                    Ok((c1, s1)) => Ok((c1, s1, Seq::empty())),
                }
            } else if kind is ReturnOk {
                match return_spec(src, c0, op, c0.ok_ret_cont) {
                    Err(e) => Err(e),
                    Ok(c1) => Ok((c1, s, Seq::empty())),
                }
            } else if kind is ReturnThrow {
                match return_spec(src, c0, op, c0.err_ret_cont) {
                    Err(e) => Err(e),
                    Ok(c1) => Ok((c1, s, Seq::empty())),
                }
            } else {
                match copy_op_spec(src, c0, op) {
                    Err(e) => Err(e),
                    Ok(c1) => Ok((c1, s, successors(src, op))),
                }
            }
        },
    }
}

/// The state after the work list was worked off: the last operation on it
/// is taken first, and no operation is dealt with twice.
pub open spec fn run_spec(
    src: FunctionModel,
    live: LiveModel,
    sites: Seq<bool>,
    c: ChunkModel,
    s: SharedModel,
    handled: Seq<bool>,
    work: Seq<Op>,
) -> Result<(ChunkModel, SharedModel), CpsError>
    decreases count_false(handled), work.len(),
{
    if work.len() == 0 {
        Ok((c, s))
    } else {
        let op = work.last();
        if op.0 >= handled.len() {
            Err(CpsError::MalformedOp)
        } else if handled[op.0 as int] {
            run_spec(src, live, sites, c, s, handled, work.drop_last())
        } else {
            proof {
                lemma_count_false_update(handled, op.0 as int);
            }
            match handle_op_spec(src, live, sites, c, s, op) {
                Err(e) => Err(e),
                Ok((c1, s1, more)) => run_spec(
                    src,
                    live,
                    sites,
                    c1,
                    s1,
                    handled.update(op.0 as int, true),
                    work.drop_last() + more,
                ),
            }
        }
    }
}

/// An empty table with `n` entries.
pub open spec fn empty_table<T>(n: nat) -> Seq<Option<T>> {
    Seq::new(n, |i: int| None)
}

/// The function that a chunk starts from: no EBB yet, and marked as a
/// continuation if it is one.
pub open spec fn chunk_start(src: FunctionModel, cont: Option<ClosureEnv>) -> FunctionModel {
    FunctionModel {
        ident: match cont {
            Some(env) => continuation_ident(src.ident, env),
            None => src.ident,
        },
        dialect: Dialect::CPS,
        attributes: match cont {
            Some(_) => seq![(AttributeKey::Continuation, AttributeValue::Unit)],
            None => Seq::empty(),
        },
        ebbs: Seq::empty(),
        ops: Seq::empty(),
        values: Seq::empty(),
        calls: Seq::empty(),
        entry: None,
    }
}

/// The chunk of an entry point before any operation was copied, and the
/// operation at which the copy starts. The entry EBB takes the two
/// continuations and then the arguments of the source entry.
pub open spec fn init_entry_spec(src: FunctionModel, site: ContSite) -> Result<
    (ChunkModel, Op),
    CpsError,
> {
    match site {
        ContSite::EbbCall(_, _) => Err(CpsError::MalformedOp),
        ContSite::Op(op) => if !src.has_op(op) {
            Err(CpsError::MalformedOp)
        } else {
            let entry = Ebb(0);
            let f1 = FunctionModel { entry: Some(entry), ..chunk_start(src, None).push_ebb() };
            let f2 = f1.push_argument(entry).push_argument(entry);
            let args = src.ebbs[src.ops[op.0 as int].ebb.0 as int].args;
            Ok(
                (
                    ChunkModel {
                        b: BuilderModel {
                            fun: f2.push_arguments(entry, args.len()),
                            position: Some(entry),
                            current: None,
                        },
                        val_map: bind_spec(
                            empty_table(src.values.len()),
                            args,
                            f2.full_op_writes(args.len()),
                            args.len(),
                        ),
                        ebb_map: with_entry(empty_table(src.ops.len()), op.0, entry),
                        ok_ret_cont: Value(0),
                        err_ret_cont: Value(1),
                    },
                    op,
                ),
            )
        },
    }
}

/// Where a continuation takes up the source: the operation at which the
/// copy starts, the value that holds the result it is handed, and the
/// values that its environment carries.
pub open spec fn continuation_entry(src: FunctionModel, live: LiveModel, site: ContSite) -> Result<
    (Op, Option<Value>, Seq<Value>),
    CpsError,
> {
    match site {
        ContSite::Op(op) => if !src.has_op(op) {
            Err(CpsError::MalformedOp)
        } else {
            match src.op_before(op) {
                None => Err(CpsError::MalformedOp),
                Some(prev) => if src.ops[prev.0 as int].writes.len() < 1 {
                    Err(CpsError::ArityMismatch)
                } else {
                    let result = src.ops[prev.0 as int].writes[0];
                    let lives = live_at(live.flow_live, prev.0);
                    Ok((op, Some(result), filter_live(lives, Some(result), lives.len())))
                },
            }
        },
        ContSite::EbbCall(call, result) => if !src.has_call(call) {
            Err(CpsError::MalformedOp)
        } else {
            let cd = src.calls[call.0 as int];
            if src.ops[cd.source.0 as int].writes.len() < 2 {
                Err(CpsError::ArityMismatch)
            } else {
                let lives = live_at(live.ebb_live, cd.target.0);
                if lives.contains(src.ops[cd.source.0 as int].writes[1]) {
                    Err(CpsError::MalformedOp)
                } else {
                    match src.ebb_first_op(cd.target) {
                        None => Err(CpsError::MalformedOp),
                        Some(first) => Ok((first, result, filter_live(lives, result, lives.len()))),
                    }
                }
            }
        },
    }
}

/// The chunk of a continuation before any operation was copied, and the
/// operation at which the copy starts. The entry EBB takes the environment
/// and the result. The environment is unpacked into the two continuations
/// and then the values it carries.
pub open spec fn init_continuation_spec(
    src: FunctionModel,
    live: LiveModel,
    site: ContSite,
    env: ClosureEnv,
) -> Result<(ChunkModel, Op), CpsError> {
    match continuation_entry(src, live, site) {
        Err(e) => Err(e),
        Ok((first, result, env_vals)) => if env_vals.len() + 2 > usize::MAX {
            Err(CpsError::LimitExceeded)
        } else {
            let entry = Ebb(0);
            let f1 = FunctionModel {
                entry: Some(entry),
                ..chunk_start(src, Some(env)).push_ebb()
            };
            let f2 = f1.push_argument(entry).push_argument(entry);
            let b = BuilderModel { fun: f2, position: Some(entry), current: None };
            let slots = f2.full_op_writes((env_vals.len() + 2) as nat);
            let vm = match result {
                Some(v) => with_entry(empty_table(src.values.len()), v.0, Value(1)),
                None => empty_table(src.values.len()),
            };
            Ok(
                (
                    ChunkModel {
                        b: b.emit(OpKind::UnpackEnv, seq![Value(0)], (env_vals.len() + 2) as nat),
                        val_map: bind_spec(
                            vm,
                            env_vals,
                            slots.subrange(2, slots.len() as int),
                            env_vals.len(),
                        ),
                        ebb_map: with_entry(empty_table(src.ops.len()), first.0, entry),
                        ok_ret_cont: slots[0],
                        err_ret_cont: slots[1],
                    },
                    first,
                ),
            )
        },
    }
}

/// The chunk that starts at `site`, and what the chunks share after it was
/// generated. Without `cont` it is the chunk of an entry point, with `cont`
/// that of the continuation with that environment.
#[verifier::opaque]
pub open spec fn gen_chunk_spec(
    src: FunctionModel,
    site: ContSite,
    sites: Seq<bool>,
    live: LiveModel,
    s: SharedModel,
    cont: Option<ClosureEnv>,
) -> Result<(FunctionModel, SharedModel), CpsError> {
    let init = match cont {
        Some(env) => init_continuation_spec(src, live, site, env),
        None => init_entry_spec(src, site),
    };
    match init {
        Err(e) => Err(e),
        Ok((c, first)) => match run_spec(
            src,
            live,
            sites,
            c,
            s,
            Seq::new(src.ops.len(), |i: int| false),
            seq![first],
        ) {
            Err(e) => Err(e),
            Ok((c1, s1)) => Ok((c1.b.fun, s1)),
        },
    }
}

/// For every operation of `src`, whether it is a continuation site: a call.
pub open spec fn call_sites(src: FunctionModel) -> Seq<bool> {
    Seq::new(src.ops.len(), |i: int| src.ops[i].kind.is_call())
}

/// The closure environments and the functions after the chunks of all
/// scheduled continuations were generated, the last scheduled first. A site
/// gets one chunk, however often it is scheduled. At most `fuel` scheduled
/// continuations are looked at.
pub open spec fn drain_spec(
    src: FunctionModel,
    live: LiveModel,
    sites: Seq<bool>,
    s: SharedModel,
    funs: Seq<FunctionModel>,
    generated: Seq<ContSite>,
    fuel: nat,
) -> Result<(Seq<Option<usize>>, Seq<FunctionModel>), CpsError>
    decreases fuel,
{
    if s.needed.len() == 0 {
        Ok((s.envs, funs))
    } else if fuel == 0 {
        Err(CpsError::LimitExceeded)
    } else {
        let (site, env) = s.needed.last();
        let s1 = SharedModel { needed: s.needed.drop_last(), ..s };
        if generated.contains(site) {
            drain_spec(src, live, sites, s1, funs, generated, (fuel - 1) as nat)
        } else {
            match gen_chunk_spec(src, site, sites, live, s1, Some(env)) {
                Err(e) => Err(e),
                Ok((f, s2)) => drain_spec(
                    src,
                    live,
                    sites,
                    s2,
                    store_function(funs, f),
                    generated.push(site),
                    (fuel - 1) as nat,
                ),
            }
        }
    }
}

/// The closure environments and the functions after `src` was rewritten:
/// its entry chunk is stored, then the chunk of every continuation that a
/// chunk binds.
#[verifier::opaque]
pub open spec fn transform_function_spec(
    src: FunctionModel,
    live: LiveModel,
    envs: Seq<Option<usize>>,
    funs: Seq<FunctionModel>,
) -> Result<(Seq<Option<usize>>, Seq<FunctionModel>), CpsError> {
    match src.entry {
        None => Err(CpsError::MalformedOp),
        Some(entry) => if !src.has_ebb(entry) {
            Err(CpsError::MalformedOp)
        } else {
            match src.ebb_first_op(entry) {
                None => Err(CpsError::MalformedOp),
                Some(first) => match gen_chunk_spec(
                    src,
                    ContSite::Op(first),
                    call_sites(src),
                    live,
                    SharedModel { envs: envs, needed: Seq::empty(), continuations: Seq::empty() },
                    None,
                ) {
                    Err(e) => Err(e),
                    Ok((f, s1)) => drain_spec(
                        src,
                        live,
                        call_sites(src),
                        s1,
                        store_function(funs, f),
                        Seq::empty(),
                        usize::MAX as nat,
                    ),
                },
            }
        },
    }
}

/// Whether the table that the search for the live values of `f` needs has
/// more entries than a machine word can count.
pub open spec fn too_large(f: FunctionModel) -> bool {
    (f.ops.len() + f.ebbs.len()) * f.values.len() > usize::MAX
}

/// Whether `r` is what the rewrite of `src` gives from the closure
/// environments `envs` and the functions `funs`.
pub open spec fn function_transformed(
    src: FunctionModel,
    envs: Seq<Option<usize>>,
    funs: Seq<FunctionModel>,
    r: Result<(Seq<Option<usize>>, Seq<FunctionModel>), CpsError>,
) -> bool {
    if too_large(src) {
        r == Err::<(Seq<Option<usize>>, Seq<FunctionModel>), CpsError>(CpsError::LimitExceeded)
    } else {
        r == transform_function_spec(src, liveness(src), envs, funs)
    }
}

/// The order of function identities: by module, name and arity, a function
/// before its closures, and the closures by environment and number.
pub open spec fn ident_lt(a: FunctionIdent, b: FunctionIdent) -> bool {
    if a.module.0 != b.module.0 {
        a.module.0 < b.module.0
    } else if a.name.0 != b.name.0 {
        a.name.0 < b.name.0
    } else if a.arity != b.arity {
        a.arity < b.arity
    } else {
        match (a.lambda, b.lambda) {
            (None, Some(_)) => true,
            (Some(x), Some(y)) => if x.env.0 != y.env.0 {
                x.env.0 < y.env.0
            } else {
                x.index < y.index
            },
            _ => false,
        }
    }
}

/// Among the first `k` functions, the first of those with the least
/// identity that are not done.
pub open spec fn select_min(fs: Seq<FunctionModel>, done: Seq<bool>, k: nat) -> Option<int>
    decreases k,
{
    if k == 0 || k > fs.len() || k > done.len() {
        None
    } else {
        let prev = select_min(fs, done, (k - 1) as nat);
        if done[k - 1] {
            prev
        } else {
            match prev {
                None => Some(k - 1),
                Some(j) => if ident_lt(fs[k - 1].ident, fs[j].ident) {
                    Some(k - 1)
                } else {
                    Some(j)
                },
            }
        }
    }
}

/// The closure environments and the functions after up to `rounds` of the
/// functions that are not done were rewritten, in the order of their
/// identities.
pub open spec fn transform_all_spec(
    fs: Seq<FunctionModel>,
    lives: Seq<LiveModel>,
    done: Seq<bool>,
    envs: Seq<Option<usize>>,
    funs: Seq<FunctionModel>,
    rounds: nat,
) -> Result<(Seq<Option<usize>>, Seq<FunctionModel>), CpsError>
    decreases rounds,
{
    if rounds == 0 {
        Ok((envs, funs))
    } else {
        match select_min(fs, done, fs.len()) {
            None => Ok((envs, funs)),
            Some(i) => match transform_function_spec(fs[i], lives[i], envs, funs) {
                Err(e) => Err(e),
                Ok((envs1, funs1)) => transform_all_spec(
                    fs,
                    lives,
                    done.update(i, true),
                    envs1,
                    funs1,
                    (rounds - 1) as nat,
                ),
            },
        }
    }
}

/// The module after every function was rewritten, in the order of the
/// identities.
pub open spec fn transform_module_spec(m: ModuleModel) -> Result<ModuleModel, CpsError> {
    match transform_all_spec(
        m.functions,
        Seq::new(m.functions.len(), |i: int| liveness(m.functions[i])),
        Seq::new(m.functions.len(), |i: int| false),
        m.envs,
        Seq::empty(),
        m.functions.len(),
    ) {
        Err(e) => Err(e),
        Ok((envs, funs)) => Ok(ModuleModel { name: m.name, functions: funs, envs: envs }),
    }
}

/// Whether `r` is what the rewrite of the module `m` gives.
pub open spec fn module_transformed(m: ModuleModel, r: Result<ModuleModel, CpsError>) -> bool {
    if exists|i: int| 0 <= i < m.functions.len() && too_large(#[trigger] m.functions[i]) {
        r == Err::<ModuleModel, CpsError>(CpsError::LimitExceeded)
    } else {
        r == transform_module_spec(m)
    }
}

/// Where a function is found, it is at a place among the functions.
pub proof fn find_function_at(fs: Seq<FunctionModel>, ident: FunctionIdent, k: nat)
    ensures
        find_function(fs, ident, k) matches Some(i) ==> 0 <= i < k && k <= fs.len(),
    decreases k,
{
    if !(k == 0 || k > fs.len()) {
        find_function_at(fs, ident, (k - 1) as nat);
    }
}

} // verus!

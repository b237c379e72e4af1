use eir_core::builder::FunctionBuilder;
use eir_core::cps::{gen_chunk, ident_less, transform_function, transform_module, Shared};
use eir_core::cps_model::{ContSite, CpsError};
use eir_core::lir::{
    AttributeKey, CallType, ClosureEnv, ConstantTerm, Dialect, Ebb, Function, FunctionIdent,
    Lambda, Op, OpKind, Symbol, Value, ValueData,
};
use eir_core::live::live_values;
use eir_core::module::{insert_function, Module, ModuleEnvs};

fn ident(name: u32, arity: usize) -> FunctionIdent {
    FunctionIdent { module: Symbol(1), name: Symbol(name), arity, lambda: None }
}

fn closure_of(id: FunctionIdent, env: usize) -> FunctionIdent {
    FunctionIdent { lambda: Some(Lambda { env: ClosureEnv(env), index: 0 }), ..id }
}

/// Adds `ok, err = call m:n(args) throws to handler(err)` at the position.
fn call(
    b: &mut FunctionBuilder,
    callee: u32,
    args: &[Value],
    call_type: CallType,
    handler: Option<Ebb>,
) -> Vec<Value> {
    let name = b.create_constant(ConstantTerm::Atom(Symbol(callee)));
    let module = b.create_constant(ConstantTerm::Atom(Symbol(1)));
    b.op_build_start(OpKind::Call { call_type, arity: args.len() });
    let mut writes = Vec::new();
    if call_type == CallType::Normal {
        writes.push(b.op_build_write());
        writes.push(b.op_build_write());
    }
    b.op_build_read(name);
    b.op_build_read(module);
    for a in args {
        b.op_build_read(*a);
    }
    if let Some(target) = handler {
        let c = b.create_ebb_call(target, &vec![writes[1]]);
        b.op_build_ebb_call(c);
    }
    b.op_build_end();
    writes
}

fn simple(b: &mut FunctionBuilder, kind: OpKind, reads: &[Value]) {
    b.op_build_start(kind);
    for r in reads {
        b.op_build_read(*r);
    }
    b.op_build_end();
}

/// f(a) { b = call g(a); return_ok b }, with an EBB that rethrows.
fn call_then_return() -> Function {
    let mut b = FunctionBuilder::new(Function::new(ident(7, 1), Dialect::Normal));
    let entry = b.insert_ebb_entry();
    let throw = b.insert_ebb();
    let a = b.add_ebb_argument(entry);
    let thrown = b.add_ebb_argument(throw);
    b.position_at_end(entry);
    let w = call(&mut b, 8, &[a], CallType::Normal, Some(throw));
    simple(&mut b, OpKind::ReturnOk, &[w[0]]);
    b.position_at_end(throw);
    simple(&mut b, OpKind::ReturnThrow, &[thrown]);
    b.finish()
}

fn kinds(f: &Function, ebb: Ebb) -> Vec<OpKind> {
    f.ebb_ops(ebb).iter().map(|op| f.op_kind(*op)).collect()
}

fn all_ops(f: &Function) -> Vec<Op> {
    (0..f.op_count()).map(Op).collect()
}

fn check_cps_form(f: &Function) {
    assert_eq!(f.dialect(), Dialect::CPS);
    let entry = f.ebb_entry().unwrap();
    assert!(f.ebb_args(entry).len() >= 2);
    let mut written = Vec::new();
    for e in 0..f.ebb_count() {
        written.extend(f.ebb_args(Ebb(e)).iter().copied());
        let ops = f.ebb_ops(Ebb(e));
        for (i, op) in ops.iter().enumerate() {
            let kind = f.op_kind(*op);
            assert_ne!(kind, OpKind::ReturnOk);
            assert_ne!(kind, OpKind::ReturnThrow);
            match kind {
                OpKind::Call { call_type, .. } | OpKind::Apply { call_type } => {
                    assert_eq!(call_type, CallType::Tail);
                    assert_eq!(i + 1, ops.len());
                }
                _ => {}
            }
            written.extend(f.op_writes(*op).iter().copied());
        }
    }
    let mut unique = written.clone();
    unique.sort_by_key(|v| v.0);
    unique.dedup();
    assert_eq!(unique.len(), written.len());
}

#[test]
fn call_is_split_into_entry_and_two_continuations() {
    let src = call_then_return();
    let mut envs = ModuleEnvs::new();
    let mut funs = Vec::new();
    assert_eq!(transform_function(&src, &mut envs, &mut funs), Ok(()));
    assert_eq!(funs.len(), 3);
    assert_eq!(envs.len(), 2);
    assert_eq!(envs.env_captures_num(ClosureEnv(0)), Some(2));
    assert_eq!(envs.env_captures_num(ClosureEnv(1)), Some(2));
    for f in &funs {
        check_cps_form(f);
    }

    // The entry: f(ok, err, a) { tail call g(ok', err', a) }
    let entry_fun = &funs[0];
    assert_eq!(entry_fun.ident(), ident(7, 1));
    assert!(!entry_fun.has_attribute(AttributeKey::Continuation));
    let entry = entry_fun.ebb_entry().unwrap();
    let args = entry_fun.ebb_args(entry).clone();
    assert_eq!(args.len(), 3);
    assert_eq!(
        kinds(entry_fun, entry),
        vec![
            OpKind::MakeClosureEnv { env_idx: ClosureEnv(0) },
            OpKind::BindClosure { ident: closure_of(ident(7, 1), 0) },
            OpKind::MakeClosureEnv { env_idx: ClosureEnv(1) },
            OpKind::BindClosure { ident: closure_of(ident(7, 1), 1) },
            OpKind::Call { call_type: CallType::Tail, arity: 1 },
        ]
    );
    let ops = entry_fun.ebb_ops(entry).clone();
    assert_eq!(entry_fun.op_reads(ops[0]), &vec![args[0], args[1]]);
    assert_eq!(entry_fun.op_reads(ops[2]), &vec![args[0], args[1]]);
    let ok_closure = entry_fun.op_writes(ops[1])[0];
    let err_closure = entry_fun.op_writes(ops[3])[0];
    assert_eq!(entry_fun.op_reads(ops[1]), entry_fun.op_writes(ops[0]));
    assert_eq!(entry_fun.op_reads(ops[3]), entry_fun.op_writes(ops[2]));
    let reads = entry_fun.op_reads(ops[4]).clone();
    assert_eq!(reads.len(), 5);
    assert_eq!(entry_fun.value(reads[0]), ValueData::Constant(ConstantTerm::Atom(Symbol(8))));
    assert_eq!(entry_fun.value(reads[1]), ValueData::Constant(ConstantTerm::Atom(Symbol(1))));
    assert_eq!(&reads[2..], &[ok_closure, err_closure, args[2]]);
    assert!(entry_fun.op_writes(ops[4]).is_empty());

    // The continuation after the call: (env, res) { ok(res) }
    let ok_fun = funs.iter().find(|f| f.ident() == closure_of(ident(7, 1), 0)).unwrap();
    assert!(ok_fun.has_attribute(AttributeKey::Continuation));
    let e = ok_fun.ebb_entry().unwrap();
    let a = ok_fun.ebb_args(e).clone();
    assert_eq!(a.len(), 2);
    assert_eq!(kinds(ok_fun, e), vec![OpKind::UnpackEnv, OpKind::ContApply]);
    let o = ok_fun.ebb_ops(e).clone();
    assert_eq!(ok_fun.op_reads(o[0]), &vec![a[0]]);
    let slots = ok_fun.op_writes(o[0]).clone();
    assert_eq!(slots.len(), 2);
    assert_eq!(ok_fun.op_reads(o[1]), &vec![slots[0], a[1]]);

    // The continuation after a throw: (env, res) { err(res) }
    let err_fun = funs.iter().find(|f| f.ident() == closure_of(ident(7, 1), 1)).unwrap();
    assert!(err_fun.has_attribute(AttributeKey::Continuation));
    let e = err_fun.ebb_entry().unwrap();
    let a = err_fun.ebb_args(e).clone();
    assert_eq!(a.len(), 2);
    assert_eq!(kinds(err_fun, e), vec![OpKind::UnpackEnv, OpKind::ContApply]);
    let o = err_fun.ebb_ops(e).clone();
    let slots = err_fun.op_writes(o[0]).clone();
    assert_eq!(err_fun.op_reads(o[1]), &vec![slots[1], a[1]]);
}

#[test]
fn paths_that_meet_share_their_continuation() {
    // ebb0() { call f() !h; r = call g() !h; return_ok r }
    // h(x)  { s = call k(x) !t; return_ok s }
    // t(y)  { return_throw y }
    let mut b = FunctionBuilder::new(Function::new(ident(2, 0), Dialect::Normal));
    let e0 = b.insert_ebb_entry();
    let h = b.insert_ebb();
    let t = b.insert_ebb();
    let x = b.add_ebb_argument(h);
    let y = b.add_ebb_argument(t);
    b.position_at_end(e0);
    call(&mut b, 20, &[], CallType::Normal, Some(h));
    let r = call(&mut b, 21, &[], CallType::Normal, Some(h));
    simple(&mut b, OpKind::ReturnOk, &[r[0]]);
    b.position_at_end(h);
    let s = call(&mut b, 22, &[x], CallType::Normal, Some(t));
    simple(&mut b, OpKind::ReturnOk, &[s[0]]);
    b.position_at_end(t);
    simple(&mut b, OpKind::ReturnThrow, &[y]);
    let src = b.finish();

    let mut envs = ModuleEnvs::new();
    let mut funs = Vec::new();
    assert_eq!(transform_function(&src, &mut envs, &mut funs), Ok(()));
    // Sites: after f, after g, after k; thrown by f, by g, by k. The call
    // of k is reached from two handlers and still has one continuation of
    // each kind.
    assert_eq!(envs.len(), 6);
    assert_eq!(funs.len(), 7);
    let mut idents: Vec<FunctionIdent> = funs.iter().map(|f| f.ident()).collect();
    idents.sort_by(|a, b| {
        if ident_less(*a, *b) {
            std::cmp::Ordering::Less
        } else if ident_less(*b, *a) {
            std::cmp::Ordering::Greater
        } else {
            std::cmp::Ordering::Equal
        }
    });
    idents.dedup();
    assert_eq!(idents.len(), 7);
    for f in &funs {
        check_cps_form(f);
    }
    // Both handler chunks bind the same two closures around the call of k.
    let binders: Vec<Vec<OpKind>> = funs
        .iter()
        .filter(|f| {
            all_ops(f).iter().any(|op| match f.op_kind(*op) {
                OpKind::Call { arity: 1, .. } => true,
                _ => false,
            })
        })
        .map(|f| {
            all_ops(f)
                .iter()
                .map(|op| f.op_kind(*op))
                .filter(|k| match k {
                    OpKind::BindClosure { .. } => true,
                    _ => false,
                })
                .collect()
        })
        .collect();
    assert_eq!(binders.len(), 2);
    assert_eq!(binders[0].len(), 2);
    assert_eq!(binders[0], binders[1]);
}

#[test]
fn tail_call_passes_on_the_continuations_of_the_function() {
    // f(a) { tail call g(a) }
    let mut b = FunctionBuilder::new(Function::new(ident(3, 1), Dialect::Normal));
    let entry = b.insert_ebb_entry();
    let a = b.add_ebb_argument(entry);
    b.position_at_end(entry);
    call(&mut b, 30, &[a], CallType::Tail, None);
    let src = b.finish();

    let mut envs = ModuleEnvs::new();
    let mut funs = Vec::new();
    assert_eq!(transform_function(&src, &mut envs, &mut funs), Ok(()));
    assert_eq!(funs.len(), 1);
    assert_eq!(envs.len(), 0);
    let f = &funs[0];
    check_cps_form(f);
    let e = f.ebb_entry().unwrap();
    let args = f.ebb_args(e).clone();
    assert_eq!(kinds(f, e), vec![OpKind::Call { call_type: CallType::Tail, arity: 1 }]);
    let reads = f.op_reads(f.ebb_ops(e)[0]).clone();
    assert_eq!(&reads[2..], &[args[0], args[1], args[2]]);
}

#[test]
fn apply_and_plain_operations_are_carried_over() {
    // f(c, v) { t = make_tuple(v, 5); if_truthy c else -> other(t); r = apply c(t) !thr; return_ok r }
    let mut b = FunctionBuilder::new(Function::new(ident(4, 2), Dialect::Normal));
    let entry = b.insert_ebb_entry();
    let other = b.insert_ebb();
    let thr = b.insert_ebb();
    let c = b.add_ebb_argument(entry);
    let v = b.add_ebb_argument(entry);
    let o = b.add_ebb_argument(other);
    let y = b.add_ebb_argument(thr);
    b.position_at_end(entry);
    let five = b.create_constant(ConstantTerm::Integer(5));
    b.op_build_start(OpKind::MakeTuple);
    let t = b.op_build_write();
    b.op_build_read(v);
    b.op_build_read(five);
    b.op_build_end();
    b.op_build_start(OpKind::IfTruthy);
    b.op_build_read(c);
    let to_other = b.create_ebb_call(other, &vec![t]);
    b.op_build_ebb_call(to_other);
    b.op_build_end();
    b.op_build_start(OpKind::Apply { call_type: CallType::Normal });
    let r = b.op_build_write();
    let e = b.op_build_write();
    b.op_build_read(c);
    b.op_build_read(t);
    let to_thr = b.create_ebb_call(thr, &vec![e]);
    b.op_build_ebb_call(to_thr);
    b.op_build_end();
    simple(&mut b, OpKind::ReturnOk, &[r]);
    b.position_at_end(other);
    simple(&mut b, OpKind::ReturnOk, &[o]);
    b.position_at_end(thr);
    simple(&mut b, OpKind::ReturnThrow, &[y]);
    let src = b.finish();

    let mut envs = ModuleEnvs::new();
    let mut funs = Vec::new();
    assert_eq!(transform_function(&src, &mut envs, &mut funs), Ok(()));
    assert_eq!(funs.len(), 3);
    for f in &funs {
        check_cps_form(f);
    }
    let f = &funs[0];
    let entry = f.ebb_entry().unwrap();
    let args = f.ebb_args(entry).clone();
    assert_eq!(args.len(), 4);
    let ks = kinds(f, entry);
    assert_eq!(ks[0], OpKind::MakeTuple);
    assert_eq!(ks[1], OpKind::IfTruthy);
    assert_eq!(ks[ks.len() - 1], OpKind::Apply { call_type: CallType::Tail });
    let ops = f.ebb_ops(entry).clone();
    // The copy keeps the shape of the operation.
    let tuple_reads = f.op_reads(ops[0]).clone();
    assert_eq!(tuple_reads.len(), 2);
    assert_eq!(tuple_reads[0], args[3]);
    assert_eq!(f.value(tuple_reads[1]), ValueData::Constant(ConstantTerm::Integer(5)));
    let new_t = f.op_writes(ops[0])[0];
    assert_eq!(f.op_reads(ops[1]), &vec![args[2]]);
    let branch = f.op_branches(ops[1])[0];
    assert_eq!(f.ebb_call_args(branch), &vec![new_t]);
    assert_eq!(f.ebb_call_source(branch), ops[1]);
    let target = f.ebb_call_target(branch);
    assert_ne!(target, entry);
    assert_eq!(f.ebb_args(target).len(), 1);
    assert_eq!(kinds(f, target), vec![OpKind::ContApply]);
    assert_eq!(
        f.op_reads(f.ebb_ops(target)[0]),
        &vec![args[0], f.ebb_args(target)[0]]
    );
    // The callee of the apply comes first, then the continuations.
    let call_reads = f.op_reads(ops[ops.len() - 1]).clone();
    assert_eq!(call_reads.len(), 4);
    assert_eq!(call_reads[0], args[2]);
    assert_eq!(call_reads[3], new_t);
}

#[test]
fn live_values_are_what_later_operations_read() {
    let src = call_then_return();
    let live = live_values(&src).unwrap();
    // ops: 0 = call, 1 = return_ok, 2 = return_throw; values: 0 = a,
    // 1 = thrown, 2, 3 = constants, 4 = ok, 5 = err
    assert_eq!(live.flow_live.len(), 3);
    assert_eq!(live.ebb_live.len(), 2);
    assert_eq!(live.flow_live[0], vec![Value(4)]);
    assert!(live.flow_live[1].is_empty());
    assert!(live.flow_live[2].is_empty());
    assert_eq!(live.ebb_live[0], vec![Value(0)]);
    assert_eq!(live.ebb_live[1], vec![Value(1)]);
}

#[test]
fn live_values_flow_around_a_loop() {
    // head(n, acc) { if_truthy n else -> done(acc); m = prim(n); jump head(m, acc) }
    // done(r) { return_ok r }
    let mut b = FunctionBuilder::new(Function::new(ident(5, 2), Dialect::Normal));
    let head = b.insert_ebb_entry();
    let done = b.insert_ebb();
    let n = b.add_ebb_argument(head);
    let acc = b.add_ebb_argument(head);
    let r = b.add_ebb_argument(done);
    b.position_at_end(head);
    b.op_build_start(OpKind::IfTruthy);
    b.op_build_read(n);
    let c = b.create_ebb_call(done, &vec![acc]);
    b.op_build_ebb_call(c);
    b.op_build_end();
    b.op_build_start(OpKind::PrimOp(Symbol(9)));
    let m = b.op_build_write();
    b.op_build_read(n);
    b.op_build_end();
    b.op_build_start(OpKind::Jump);
    let back = b.create_ebb_call(head, &vec![m, acc]);
    b.op_build_ebb_call(back);
    b.op_build_end();
    b.position_at_end(done);
    simple(&mut b, OpKind::ReturnOk, &[r]);
    let src = b.finish();
    let live = live_values(&src).unwrap();
    assert_eq!(live.ebb_live[0], vec![n, acc]);
    assert_eq!(live.ebb_live[1], vec![r]);
    assert_eq!(live.flow_live[0], vec![n, acc]);
    assert_eq!(live.flow_live[1], vec![acc, m]);
    assert!(live.flow_live[2].is_empty());
}

#[test]
fn a_normal_call_needs_two_results() {
    let mut b = FunctionBuilder::new(Function::new(ident(6, 0), Dialect::Normal));
    let entry = b.insert_ebb_entry();
    b.position_at_end(entry);
    let name = b.create_constant(ConstantTerm::Atom(Symbol(1)));
    b.op_build_start(OpKind::Call { call_type: CallType::Normal, arity: 0 });
    b.op_build_write();
    b.op_build_read(name);
    b.op_build_read(name);
    b.op_build_end();
    let src = b.finish();
    let mut envs = ModuleEnvs::new();
    let mut funs = Vec::new();
    assert_eq!(transform_function(&src, &mut envs, &mut funs), Err(CpsError::ArityMismatch));
}

#[test]
fn an_operation_after_a_return_is_malformed() {
    let mut b = FunctionBuilder::new(Function::new(ident(6, 1), Dialect::Normal));
    let entry = b.insert_ebb_entry();
    let a = b.add_ebb_argument(entry);
    b.position_at_end(entry);
    simple(&mut b, OpKind::Move, &[a]);
    let src_ok = b.finish();
    // A function without an entry has nothing to start from.
    let empty = Function::new(ident(6, 1), Dialect::Normal);
    let mut envs = ModuleEnvs::new();
    let mut funs = Vec::new();
    assert_eq!(transform_function(&empty, &mut envs, &mut funs), Err(CpsError::MalformedOp));
    assert_eq!(transform_function(&src_ok, &mut envs, &mut funs), Ok(()));
    // A mark on something that is no call is refused.
    let live = live_values(&src_ok).unwrap();
    let mut shared =
        Shared { envs: ModuleEnvs::new(), needed: Vec::new(), continuations: Vec::new() };
    let r = gen_chunk(&src_ok, ContSite::Op(Op(0)), &vec![true], &live, &mut shared, None);
    assert_eq!(r.err(), Some(CpsError::MalformedOp));
}

#[test]
fn module_is_rewritten_in_the_order_of_the_identities() {
    let second = call_then_return();
    let mut b = FunctionBuilder::new(Function::new(ident(3, 0), Dialect::Normal));
    let entry = b.insert_ebb_entry();
    let thr = b.insert_ebb();
    let y = b.add_ebb_argument(thr);
    b.position_at_end(entry);
    let w = call(&mut b, 8, &[], CallType::Normal, Some(thr));
    simple(&mut b, OpKind::ReturnOk, &[w[0]]);
    b.position_at_end(thr);
    simple(&mut b, OpKind::ReturnThrow, &[y]);
    let first = b.finish();

    let mut envs = ModuleEnvs::new();
    let existing = envs.add();
    envs.env_set_captures_num(existing, 4);
    let module = Module { name: Symbol(1), functions: vec![second, first], envs };
    let out = transform_module(&module).ok().unwrap();
    assert_eq!(out.name, Symbol(1));
    assert_eq!(out.functions.len(), 6);
    assert_eq!(out.envs.len(), 5);
    assert_eq!(out.envs.env_captures_num(ClosureEnv(0)), Some(4));
    let idents: Vec<FunctionIdent> = out.functions.iter().map(|f| f.ident()).collect();
    assert_eq!(
        idents,
        vec![
            ident(3, 0),
            closure_of(ident(3, 0), 2),
            closure_of(ident(3, 0), 1),
            ident(7, 1),
            closure_of(ident(7, 1), 4),
            closure_of(ident(7, 1), 3),
        ]
    );
    for f in &out.functions {
        check_cps_form(f);
    }
}

#[test]
fn identities_are_ordered_field_by_field() {
    let a = ident(1, 0);
    let b = ident(1, 1);
    let c = ident(2, 0);
    assert!(ident_less(a, b));
    assert!(ident_less(b, c));
    assert!(!ident_less(c, a));
    assert!(!ident_less(a, a));
    assert!(ident_less(a, closure_of(a, 0)));
    assert!(ident_less(closure_of(a, 0), closure_of(a, 1)));
    assert!(!ident_less(closure_of(a, 1), closure_of(a, 1)));
    let other_module = FunctionIdent { module: Symbol(0), ..c };
    assert!(ident_less(other_module, a));
}

#[test]
fn storing_a_function_replaces_the_one_of_the_same_identity() {
    let mut funs = Vec::new();
    insert_function(&mut funs, Function::new(ident(1, 0), Dialect::Normal));
    insert_function(&mut funs, Function::new(ident(2, 0), Dialect::Normal));
    insert_function(&mut funs, Function::new(ident(1, 0), Dialect::CPS));
    assert_eq!(funs.len(), 2);
    assert_eq!(funs[0].ident(), ident(1, 0));
    assert_eq!(funs[0].dialect(), Dialect::CPS);
    assert_eq!(funs[1].ident(), ident(2, 0));
}

#[test]
fn builder_keeps_operations_and_values_apart() {
    let mut b = FunctionBuilder::new(Function::new(ident(1, 0), Dialect::Normal));
    let e = b.insert_ebb_entry();
    let other = b.insert_ebb();
    assert_eq!((e, other), (Ebb(0), Ebb(1)));
    b.position_at_end(e);
    assert_eq!(b.current_ebb(), Some(e));
    let a = b.add_ebb_argument(e);
    let k = b.create_constant(ConstantTerm::Nil);
    assert!(b.is_open_ended());
    let env = b.op_make_closure_env(ClosureEnv(3), &vec![a, k]);
    let slots = b.op_unpack_env(env, 2);
    b.op_cont_apply(slots[0], &vec![slots[1]]);
    assert!(!b.is_open_ended());
    let f = b.finish();
    assert_eq!(f.ebb_entry(), Some(e));
    assert_eq!(f.value(a), ValueData::Argument { ebb: e, index: 0 });
    assert!(f.value_is_constant(k));
    assert_eq!(f.value_constant(k), ConstantTerm::Nil);
    let ops = f.ebb_ops(e).clone();
    assert_eq!(ops, vec![Op(0), Op(1), Op(2)]);
    assert_eq!(f.value(env), ValueData::Result { op: Op(0), index: 0 });
    assert_eq!(f.value(slots[1]), ValueData::Result { op: Op(1), index: 1 });
    assert_eq!(f.op_after(Op(0)), Some(Op(1)));
    assert_eq!(f.op_after(Op(2)), None);
    assert_eq!(f.op_before(Op(0)), None);
    assert_eq!(f.op_before(Op(2)), Some(Op(1)));
    assert_eq!(f.op_ebb(Op(1)), e);
    assert_eq!(f.ebb_first_op(e), Some(Op(0)));
    assert_eq!(f.ebb_first_op(other), None);
    assert_eq!(f.op_reads(Op(2)), &vec![slots[0], slots[1]]);
    assert_eq!(f.value_count(), 5);
}

#[test]
fn built_functions_are_well_formed() {
    assert!(Function::new(ident(1, 0), Dialect::Normal).is_well_formed());
    let src = call_then_return();
    assert!(src.is_well_formed());
    let mut envs = ModuleEnvs::new();
    let mut funs = Vec::new();
    assert_eq!(transform_function(&src, &mut envs, &mut funs), Ok(()));
    for f in &funs {
        assert!(f.is_well_formed());
    }
}

#[test]
fn an_operation_after_a_terminator_is_ill_formed() {
    let mut b = FunctionBuilder::new(Function::new(ident(1, 1), Dialect::Normal));
    let entry = b.insert_ebb_entry();
    let a = b.add_ebb_argument(entry);
    b.position_at_end(entry);
    simple(&mut b, OpKind::ReturnOk, &[a]);
    assert!(b.function().is_well_formed());
    simple(&mut b, OpKind::Move, &[a]);
    let f = b.finish();
    assert!(!f.is_well_formed());
}

#[test]
fn a_read_of_a_foreign_value_is_ill_formed() {
    let mut b = FunctionBuilder::new(Function::new(ident(1, 0), Dialect::Normal));
    let entry = b.insert_ebb_entry();
    b.position_at_end(entry);
    simple(&mut b, OpKind::Move, &[Value(5)]);
    assert!(!b.finish().is_well_formed());

    let mut b = FunctionBuilder::new(Function::new(ident(1, 0), Dialect::Normal));
    let entry = b.insert_ebb_entry();
    b.position_at_end(entry);
    b.op_build_start(OpKind::Jump);
    let c = b.create_ebb_call(Ebb(9), &vec![]);
    b.op_build_ebb_call(c);
    b.op_build_end();
    assert!(!b.finish().is_well_formed());
}

#[test]
fn a_copied_operation_after_a_terminator_is_refused() {
    // jump to next; move: the chunk would go on after the jump
    let mut b = FunctionBuilder::new(Function::new(ident(1, 1), Dialect::Normal));
    let entry = b.insert_ebb_entry();
    let next = b.insert_ebb();
    let a = b.add_ebb_argument(entry);
    b.position_at_end(entry);
    b.op_build_start(OpKind::Jump);
    let c = b.create_ebb_call(next, &vec![]);
    b.op_build_ebb_call(c);
    b.op_build_end();
    b.position_at_end(next);
    simple(&mut b, OpKind::ReturnOk, &[a]);
    let src = b.finish();
    assert!(src.is_well_formed());
    let mut envs = ModuleEnvs::new();
    let mut funs = Vec::new();
    assert_eq!(transform_function(&src, &mut envs, &mut funs), Ok(()));
    assert_eq!(funs.len(), 1);
    let f = &funs[0];
    let e = f.ebb_entry().unwrap();
    assert_eq!(kinds(f, e), vec![OpKind::Jump]);
    let target = f.ebb_call_target(f.op_branches(f.ebb_ops(e)[0])[0]);
    assert_eq!(kinds(f, target), vec![OpKind::ContApply]);
    assert_eq!(f.op_reads(f.ebb_ops(target)[0]), &vec![f.ebb_args(e)[0], f.ebb_args(e)[2]]);
}

#[test]
fn an_unmapped_value_is_malformed() {
    // return_ok of a constant: returns go through the value map only
    let mut b = FunctionBuilder::new(Function::new(ident(1, 0), Dialect::Normal));
    let entry = b.insert_ebb_entry();
    b.position_at_end(entry);
    let k = b.create_constant(ConstantTerm::Integer(3));
    simple(&mut b, OpKind::ReturnOk, &[k]);
    let src = b.finish();
    let mut envs = ModuleEnvs::new();
    let mut funs = Vec::new();
    assert_eq!(transform_function(&src, &mut envs, &mut funs), Err(CpsError::MalformedOp));
}

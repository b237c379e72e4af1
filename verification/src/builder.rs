//! Builds a function of the low-level representation operation by
//! operation. The builder keeps an insertion position, the EBB at whose end
//! operations are added, and the operation under construction.

use vstd::prelude::*;
use crate::lir::{
    AttributeKey, AttributeValue, CallType, ClosureEnv, ConstantTerm, Ebb, EbbCall, EbbModel,
    Function, FunctionIdent, FunctionModel, Op, OpKind, OpModel, Value, ValueData,
};

verus! {

impl FunctionModel {
    /// The function with one more operation at the end of `ebb` that reads
    /// `reads`, has `n` results and branches nowhere.
    pub open spec fn push_full_op(self, ebb: Ebb, kind: OpKind, reads: Seq<Value>, n: nat) -> FunctionModel {
        let e = self.ebbs[ebb.0 as int];
        let op = Op(self.ops.len() as usize);
        FunctionModel {
            ops: self.ops.push(
                OpModel {
                    kind: kind,
                    reads: reads,
                    writes: Seq::new(n, |i: int| Value((self.values.len() + i) as usize)),
                    branches: Seq::empty(),
                    ebb: ebb,
                    pos: e.ops.len() as usize,
                },
            ),
            ebbs: self.ebbs.update(ebb.0 as int, EbbModel { ops: e.ops.push(op), ..e }),
            values: self.values + Seq::new(
                n,
                |i: int| ValueData::Result { op: op, index: i as usize },
            ),
            ..self
        }
    }

    /// The function in which `op` reads `vals` after what it read before.
    pub open spec fn push_reads(self, op: Op, vals: Seq<Value>) -> FunctionModel {
        let d = self.ops[op.0 as int];
        FunctionModel {
            ops: self.ops.update(op.0 as int, OpModel { reads: d.reads + vals, ..d }),
            ..self
        }
    }

    /// The function with `n` more results of `op`.
    pub open spec fn push_writes(self, op: Op, n: nat) -> FunctionModel {
        let d = self.ops[op.0 as int];
        FunctionModel {
            values: self.values + Seq::new(
                n,
                |i: int| ValueData::Result { op: op, index: (d.writes.len() + i) as usize },
            ),
            ops: self.ops.update(
                op.0 as int,
                OpModel { writes: d.writes + self.full_op_writes(n), ..d },
            ),
            ..self
        }
    }

    /// The function with `n` more arguments of `ebb`.
    pub open spec fn push_arguments(self, ebb: Ebb, n: nat) -> FunctionModel {
        let e = self.ebbs[ebb.0 as int];
        FunctionModel {
            values: self.values + Seq::new(
                n,
                |i: int| ValueData::Argument { ebb: ebb, index: (e.args.len() + i) as usize },
            ),
            ebbs: self.ebbs.update(
                ebb.0 as int,
                EbbModel { args: e.args + self.full_op_writes(n), ..e },
            ),
            ..self
        }
    }

    /// The results of the operation that `push_full_op` adds.
    pub open spec fn full_op_writes(self, n: nat) -> Seq<Value> {
        Seq::new(n, |i: int| Value((self.values.len() + i) as usize))
    }
}

/// The mathematical state of a [`FunctionBuilder`].
pub struct BuilderModel {
    pub fun: FunctionModel,
    /// The EBB at whose end operations are added.
    pub position: Option<Ebb>,
    /// The operation under construction.
    pub current: Option<Op>,
}

impl BuilderModel {
    /// The position and the operation under construction exist.
    pub open spec fn inv(self) -> bool {
        &&& self.position matches Some(e) ==> self.fun.has_ebb(e)
        &&& self.current matches Some(o) ==> self.fun.has_op(o)
    }

    /// The builder over another function.
    pub open spec fn with_fun(self, fun: FunctionModel) -> BuilderModel {
        BuilderModel { fun: fun, ..self }
    }

    /// The state after `insert_ebb`.
    pub open spec fn insert_ebb(self) -> BuilderModel {
        self.with_fun(self.fun.push_ebb())
    }

    /// The state after `insert_ebb_entry`.
    pub open spec fn insert_ebb_entry(self) -> BuilderModel {
        self.with_fun(
            FunctionModel { entry: Some(Ebb(self.fun.ebbs.len() as usize)), ..self.fun.push_ebb() },
        )
    }

    /// The state after `position_at_end`.
    pub open spec fn position_at_end(self, ebb: Ebb) -> BuilderModel {
        BuilderModel { position: Some(ebb), ..self }
    }

    /// The state after `op_build_start`: a new operation stands at the end of
    /// the EBB of the position and is under construction.
    pub open spec fn op_build_start(self, kind: OpKind) -> BuilderModel {
        BuilderModel {
            fun: self.fun.push_op(self.position->0, kind),
            current: Some(Op(self.fun.ops.len() as usize)),
            ..self
        }
    }

    /// The state after `op_build_end`.
    pub open spec fn op_build_end(self) -> BuilderModel {
        BuilderModel { current: None, ..self }
    }

    /// The state after an operation with the given reads and `n` results
    /// was added at the position.
    pub open spec fn emit(self, kind: OpKind, reads: Seq<Value>, n: nat) -> BuilderModel {
        self.with_fun(self.fun.push_full_op(self.position->0, kind, reads, n))
    }

    /// Whether an operation can be added at the position.
    pub open spec fn can_emit(self) -> bool {
        &&& self.position is Some
        &&& self.fun.has_ebb(self.position->0)
        &&& self.current is None
    }
}

/// Adds EBBs, arguments and operations to a function.
pub struct FunctionBuilder {
    fun: Function,
    position: Option<Ebb>,
    current: Option<Op>,
}

impl View for FunctionBuilder {
    type V = BuilderModel;

    closed spec fn view(&self) -> BuilderModel {
        BuilderModel { fun: self.fun@, position: self.position, current: self.current }
    }
}

impl FunctionBuilder {
    /// A builder that goes on from `fun`, with no position yet.
    pub fn new(fun: Function) -> (b: FunctionBuilder)
        ensures
            b@ == (BuilderModel { fun: fun@, position: None, current: None }),
            b@.inv(),
    {
        FunctionBuilder { fun: fun, position: None, current: None }
    }

    /// The function as built so far.
    pub fn finish(self) -> (fun: Function)
        ensures
            fun@ == self@.fun,
    {
        self.fun
    }

    /// The function as built so far.
    pub fn function(&self) -> (fun: &Function)
        ensures
            fun@ == self@.fun,
    {
        &self.fun
    }

    /// Sets an attribute of the function.
    pub fn put_attribute(&mut self, key: AttributeKey, value: AttributeValue)
        ensures
            final(self)@ == old(self)@.with_fun(
                FunctionModel {
                    attributes: old(self)@.fun.attributes.push((key, value)),
                    ..old(self)@.fun
                },
            ),
            old(self)@.fun.wf() ==> final(self)@.fun.wf(),
    {
        self.fun.put_attribute(key, value);
    }

    /// Adds an empty EBB.
    pub fn insert_ebb(&mut self) -> (ebb: Ebb)
        ensures
            ebb.0 == old(self)@.fun.ebbs.len(),
            final(self)@ == old(self)@.insert_ebb(),
            old(self)@.fun.wf() ==> final(self)@.fun.wf(),
    {
        self.fun.insert_ebb()
    }

    /// Adds an empty EBB and makes it the entry of the function.
    pub fn insert_ebb_entry(&mut self) -> (ebb: Ebb)
        ensures
            ebb.0 == old(self)@.fun.ebbs.len(),
            final(self)@ == old(self)@.insert_ebb_entry(),
            old(self)@.fun.wf() ==> final(self)@.fun.wf(),
    {
        let ebb = self.fun.insert_ebb();
        self.fun.set_entry(ebb);
        ebb
    }

    /// Whether the function has the EBB `ebb`.
    pub fn has_ebb(&self, ebb: Ebb) -> (r: bool)
        ensures
            r == self@.fun.has_ebb(ebb),
    {
        ebb.0 < self.fun.ebb_count()
    }

    /// Whether no operation is under construction.
    pub fn is_idle(&self) -> (r: bool)
        ensures
            r == (self@.current is None),
    {
        self.current.is_none()
    }

    /// Moves the position to the end of `ebb`.
    pub fn position_at_end(&mut self, ebb: Ebb)
        ensures
            final(self)@ == old(self)@.position_at_end(ebb),
    {
        self.position = Some(ebb);
    }

    /// The EBB of the position.
    pub fn current_ebb(&self) -> (r: Option<Ebb>)
        ensures
            r == self@.position,
    {
        self.position
    }

    /// Adds an argument to `ebb` and returns its value.
    pub fn add_ebb_argument(&mut self, ebb: Ebb) -> (v: Value)
        requires
            old(self)@.fun.has_ebb(ebb),
        ensures
            v.0 == old(self)@.fun.values.len(),
            final(self)@ == old(self)@.with_fun(old(self)@.fun.push_argument(ebb)),
            old(self)@.fun.wf() ==> final(self)@.fun.wf(),
    {
        self.fun.add_ebb_argument(ebb)
    }

    /// Adds a constant and returns its value.
    pub fn create_constant(&mut self, c: ConstantTerm) -> (v: Value)
        ensures
            v.0 == old(self)@.fun.values.len(),
            final(self)@ == old(self)@.with_fun(old(self)@.fun.push_constant(c)),
            old(self)@.fun.wf() ==> final(self)@.fun.wf(),
    {
        self.fun.create_constant(c)
    }

    /// Whether an operation can be added at the end of the EBB of the
    /// position: no operation there ends it yet.
    pub fn is_open_ended(&self) -> (r: bool)
        requires
            self@.position is Some,
            self@.fun.has_ebb(self@.position->0),
        ensures
            r == self@.fun.open_ended(self@.position->0),
    {
        match self.position {
            Some(e) => self.fun.is_open_ended(e),
            None => false,
        }
    }

    /// Starts an operation of the given kind at the position.
    pub fn op_build_start(&mut self, kind: OpKind)
        requires
            old(self)@.can_emit(),
        ensures
            final(self)@ == old(self)@.op_build_start(kind),
            final(self)@.current is Some,
            final(self)@.fun.has_op(final(self)@.current->0),
            old(self)@.fun.wf() && old(self)@.fun.open_ended(old(self)@.position->0) ==> final(self)@.fun.wf(),
    {
        match self.position {
            Some(e) => {
                let op = self.fun.append_op(e, kind);
                self.current = Some(op);
            },
            None => {},
        }
    }

    /// Adds a result to the operation under construction.
    pub fn op_build_write(&mut self) -> (v: Value)
        requires
            old(self)@.current is Some,
            old(self)@.fun.has_op(old(self)@.current->0),
        ensures
            v.0 == old(self)@.fun.values.len(),
            final(self)@ == old(self)@.with_fun(old(self)@.fun.push_write(old(self)@.current->0)),
            old(self)@.fun.wf() ==> final(self)@.fun.wf(),
    {
        match self.current {
            Some(op) => self.fun.add_write(op),
            None => Value(0),
        }
    }

    /// Makes the operation under construction read `v`.
    pub fn op_build_read(&mut self, v: Value)
        requires
            old(self)@.current is Some,
            old(self)@.fun.has_op(old(self)@.current->0),
        ensures
            final(self)@ == old(self)@.with_fun(old(self)@.fun.push_read(old(self)@.current->0, v)),
            old(self)@.fun.wf() && old(self)@.fun.has_value(v) ==> final(self)@.fun.wf(),
    {
        match self.current {
            Some(op) => {
                self.fun.add_read(op, v);
            },
            None => {},
        }
    }

    /// Adds a branch from the operation under construction to `target` that
    /// passes `args`. The branch is not yet among the branches of the
    /// operation.
    pub fn create_ebb_call(&mut self, target: Ebb, args: &Vec<Value>) -> (call: EbbCall)
        requires
            old(self)@.current is Some,
        ensures
            call.0 == old(self)@.fun.calls.len(),
            final(self)@ == old(self)@.with_fun(
                old(self)@.fun.push_call(old(self)@.current->0, target, args@),
            ),
            old(self)@.fun.wf() && old(self)@.fun.has_op(old(self)@.current->0) && old(self)@.fun.has_ebb(target) && (forall|i: int|
                0 <= i < args@.len() ==> old(self)@.fun.has_value(#[trigger] args@[i]))
                ==> final(self)@.fun.wf(),
    {
        match self.current {
            Some(op) => self.fun.create_ebb_call(op, target, args),
            None => EbbCall(0),
        }
    }

    /// Makes the operation under construction branch to `call`.
    pub fn op_build_ebb_call(&mut self, call: EbbCall)
        requires
            old(self)@.current is Some,
            old(self)@.fun.has_op(old(self)@.current->0),
        ensures
            final(self)@ == old(self)@.with_fun(
                old(self)@.fun.push_branch(old(self)@.current->0, call),
            ),
            old(self)@.fun.wf() && old(self)@.fun.has_call(call) ==> final(self)@.fun.wf(),
    {
        match self.current {
            Some(op) => {
                self.fun.add_branch(op, call);
            },
            None => {},
        }
    }

    /// Ends the operation under construction.
    pub fn op_build_end(&mut self)
        ensures
            final(self)@ == old(self)@.op_build_end(),
    {
        self.current = None;
    }

    /// Makes the operation under construction read `vals`, in order.
    pub fn op_build_reads(&mut self, vals: &Vec<Value>)
        requires
            old(self)@.current is Some,
            old(self)@.fun.has_op(old(self)@.current->0),
        ensures
            final(self)@ == old(self)@.with_fun(
                old(self)@.fun.push_reads(old(self)@.current->0, vals@),
            ),
            old(self)@.fun.wf() && (forall|i: int|
                0 <= i < vals@.len() ==> old(self)@.fun.has_value(#[trigger] vals@[i]))
                ==> final(self)@.fun.wf(),
    {
        let ghost f0 = self@.fun;
        let ghost op = self@.current->0;
        let ghost good = f0.wf() && (forall|i: int|
            0 <= i < vals@.len() ==> f0.has_value(#[trigger] vals@[i]));
        let mut i: usize = 0;
        proof {
            let target = f0.push_reads(op, vals@.subrange(0, 0));
            assert(target.ops[op.0 as int].reads =~= f0.ops[op.0 as int].reads);
            assert(f0.ops =~= target.ops);
        }
        while i < vals.len()
            invariant
                i <= vals.len(),
                self@.position == old(self)@.position,
                self@.current == Some(op),
                f0.has_op(op),
                self@.fun == f0.push_reads(op, vals@.subrange(0, i as int)),
                good ==> self@.fun.wf(),
                good ==> forall|i: int| 0 <= i < vals@.len() ==> f0.has_value(#[trigger] vals@[i]),
            decreases vals.len() - i,
        {
            assert(good ==> f0.has_value(vals@[i as int]));
            self.op_build_read(vals[i]);
            proof {
                let target = f0.push_reads(op, vals@.subrange(0, i + 1));
                assert(vals@.subrange(0, i + 1) =~= vals@.subrange(0, i as int).push(
                    vals@[i as int],
                ));
                assert(self@.fun.ops[op.0 as int].reads =~= target.ops[op.0 as int].reads);
                assert(self@.fun.ops =~= target.ops);
            }
            i = i + 1;
        }
        assert(vals@.subrange(0, vals@.len() as int) =~= vals@);
    }

    /// Adds `n` results to the operation under construction and returns
    /// them.
    pub fn op_build_writes(&mut self, n: usize) -> (writes: Vec<Value>)
        requires
            old(self)@.current is Some,
            old(self)@.fun.has_op(old(self)@.current->0),
        ensures
            final(self)@ == old(self)@.with_fun(
                old(self)@.fun.push_writes(old(self)@.current->0, n as nat),
            ),
            writes@ == old(self)@.fun.full_op_writes(n as nat),
            old(self)@.fun.values.len() + n <= usize::MAX,
            old(self)@.fun.wf() ==> final(self)@.fun.wf(),
    {
        let ghost f0 = self@.fun;
        let ghost op = self@.current->0;
        let mut writes: Vec<Value> = Vec::new();
        let mut k: usize = 0;
        let _ = self.fun.value_count();
        proof {
            let target = f0.push_writes(op, 0);
            assert(target.ops[op.0 as int].writes =~= f0.ops[op.0 as int].writes);
            assert(f0.ops =~= target.ops);
            assert(f0.values =~= target.values);
        }
        while k < n
            invariant
                k <= n,
                self@.position == old(self)@.position,
                self@.current == Some(op),
                f0.has_op(op),
                self@.fun == f0.push_writes(op, k as nat),
                writes@ == f0.full_op_writes(k as nat),
                f0.values.len() + k <= usize::MAX,
                f0.wf() ==> self@.fun.wf(),
            decreases n - k,
        {
            let v = self.op_build_write();
            writes.push(v);
            let _ = self.fun.value_count();
            proof {
                let target = f0.push_writes(op, (k + 1) as nat);
                assert(self@.fun.ops[op.0 as int].writes =~= target.ops[op.0 as int].writes);
                assert(self@.fun.ops =~= target.ops);
                assert(self@.fun.values =~= target.values);
                assert(writes@ =~= f0.full_op_writes((k + 1) as nat));
            }
            k = k + 1;
        }
        let _ = self.fun.value_count();
        writes
    }

    /// Adds `n` arguments to `ebb` and returns them.
    pub fn add_ebb_arguments(&mut self, ebb: Ebb, n: usize) -> (args: Vec<Value>)
        requires
            old(self)@.fun.has_ebb(ebb),
        ensures
            final(self)@ == old(self)@.with_fun(old(self)@.fun.push_arguments(ebb, n as nat)),
            args@ == old(self)@.fun.full_op_writes(n as nat),
            old(self)@.fun.values.len() + n <= usize::MAX,
            old(self)@.fun.wf() ==> final(self)@.fun.wf(),
    {
        let ghost f0 = self@.fun;
        let mut args: Vec<Value> = Vec::new();
        let mut k: usize = 0;
        proof {
            let target = f0.push_arguments(ebb, 0);
            assert(target.ebbs[ebb.0 as int].args =~= f0.ebbs[ebb.0 as int].args);
            assert(f0.ebbs =~= target.ebbs);
            assert(f0.values =~= target.values);
        }
        let _ = self.fun.value_count();
        while k < n
            invariant
                k <= n,
                self@.position == old(self)@.position,
                self@.current == old(self)@.current,
                f0.has_ebb(ebb),
                self@.fun == f0.push_arguments(ebb, k as nat),
                args@ == f0.full_op_writes(k as nat),
                f0.values.len() + k <= usize::MAX,
                f0.wf() ==> self@.fun.wf(),
            decreases n - k,
        {
            let v = self.add_ebb_argument(ebb);
            args.push(v);
            let _ = self.fun.value_count();
            proof {
                let target = f0.push_arguments(ebb, (k + 1) as nat);
                assert(self@.fun.ebbs[ebb.0 as int].args =~= target.ebbs[ebb.0 as int].args);
                assert(self@.fun.ebbs =~= target.ebbs);
                assert(self@.fun.values =~= target.values);
                assert(args@ =~= f0.full_op_writes((k + 1) as nat));
            }
            k = k + 1;
        }
        args
    }

    /// Adds a whole operation at the position: it reads `reads`, has `n`
    /// results, which are returned, and branches nowhere.
    pub fn emit(&mut self, kind: OpKind, reads: &Vec<Value>, n: usize) -> (writes: Vec<Value>)
        requires
            old(self)@.can_emit(),
        ensures
            final(self)@ == old(self)@.emit(kind, reads@, n as nat),
            writes@ == old(self)@.fun.full_op_writes(n as nat),
            old(self)@.fun.values.len() + n <= usize::MAX,
            old(self)@.fun.ops.len() < usize::MAX,
            old(self)@.fun.wf() && old(self)@.fun.open_ended(old(self)@.position->0) && (forall|
                i: int,
            |
                0 <= i < reads@.len() ==> old(self)@.fun.has_value(#[trigger] reads@[i]))
                ==> final(self)@.fun.wf(),
    {
        let ghost f0 = self@.fun;
        let ghost ebb = self@.position->0;
        let ghost good = f0.wf() && f0.open_ended(ebb) && (forall|i: int|
            0 <= i < reads@.len() ==> f0.has_value(#[trigger] reads@[i]));
        self.op_build_start(kind);
        let _ = self.fun.op_count();
        let ghost op = Op(f0.ops.len() as usize);
        proof {
            let target = f0.push_full_op(ebb, kind, reads@.subrange(0, 0), 0);
            assert(reads@.subrange(0, 0) =~= Seq::<Value>::empty());
            assert(target.ops[op.0 as int].writes =~= Seq::<Value>::empty());
            assert(self@.fun.ops =~= target.ops);
            assert(self@.fun.values =~= target.values);
            assert(self@.fun.ebbs =~= target.ebbs);
        }
        let mut i: usize = 0;
        while i < reads.len()
            invariant
                i <= reads.len(),
                self@.position == Some(ebb),
                self@.current == Some(op),
                f0.has_ebb(ebb),
                op.0 == f0.ops.len(),
                self@.fun == f0.push_full_op(ebb, kind, reads@.subrange(0, i as int), 0),
                good ==> self@.fun.wf(),
                good == (f0.wf() && f0.open_ended(ebb) && (forall|i: int|
                    0 <= i < reads@.len() ==> f0.has_value(#[trigger] reads@[i]))),
            decreases reads.len() - i,
        {
            let ghost before = self@.fun;
            self.op_build_read(reads[i]);
            proof {
                let target = f0.push_full_op(ebb, kind, reads@.subrange(0, i + 1), 0);
                assert(reads@.subrange(0, i + 1) =~= reads@.subrange(0, i as int).push(
                    reads@[i as int],
                ));
                assert(self@.fun.ops =~= target.ops);
                assert(self@.fun.values =~= target.values);
                assert(self@.fun.ebbs =~= target.ebbs);
                if good {
                    assert(f0.has_value(reads@[i as int]));
                    assert(before.has_value(reads@[i as int]));
                }
            }
            i = i + 1;
        }
        assert(reads@.subrange(0, reads@.len() as int) =~= reads@);
        let mut writes: Vec<Value> = Vec::new();
        let mut k: usize = 0;
        while k < n
            invariant
                k <= n,
                self@.position == Some(ebb),
                self@.current == Some(op),
                f0.has_ebb(ebb),
                op.0 == f0.ops.len(),
                self@.fun == f0.push_full_op(ebb, kind, reads@, k as nat),
                writes@ == f0.full_op_writes(k as nat),
                good ==> self@.fun.wf(),
            decreases n - k,
        {
            let v = self.op_build_write();
            writes.push(v);
            proof {
                let target = f0.push_full_op(ebb, kind, reads@, (k + 1) as nat);
                assert(self@.fun.ops[op.0 as int].writes =~= target.ops[op.0 as int].writes);
                assert(self@.fun.ops =~= target.ops);
                assert(self@.fun.values =~= target.values);
                assert(self@.fun.ebbs =~= target.ebbs);
                assert(writes@ =~= f0.full_op_writes((k + 1) as nat));
            }
            k = k + 1;
        }
        self.op_build_end();
        let _ = self.fun.value_count();
        writes
    }

    /// Unpacks the environment `env` into `n` values.
    pub fn op_unpack_env(&mut self, env: Value, n: usize) -> (slots: Vec<Value>)
        requires
            old(self)@.can_emit(),
        ensures
            final(self)@ == old(self)@.emit(OpKind::UnpackEnv, seq![env], n as nat),
            slots@ == old(self)@.fun.full_op_writes(n as nat),
            old(self)@.fun.wf() && old(self)@.fun.open_ended(old(self)@.position->0) && old(self)@.fun.has_value(env) ==> final(self)@.fun.wf(),
    {
        let mut reads: Vec<Value> = Vec::new();
        reads.push(env);
        assert(reads@ =~= seq![env]);
        self.emit(OpKind::UnpackEnv, &reads, n)
    }

    /// Packs `values` into an environment for the closures of `env_idx`.
    pub fn op_make_closure_env(&mut self, env_idx: ClosureEnv, values: &Vec<Value>) -> (env: Value)
        requires
            old(self)@.can_emit(),
        ensures
            final(self)@ == old(self)@.emit(OpKind::MakeClosureEnv { env_idx: env_idx }, values@, 1),
            env.0 == old(self)@.fun.values.len(),
            old(self)@.fun.wf() && old(self)@.fun.open_ended(old(self)@.position->0) && (forall|
                i: int,
            |
                0 <= i < values@.len() ==> old(self)@.fun.has_value(#[trigger] values@[i]))
                ==> final(self)@.fun.wf(),
    {
        let writes = self.emit(OpKind::MakeClosureEnv { env_idx: env_idx }, values, 1);
        writes[0]
    }

    /// Binds the function `ident` to the environment `env`.
    pub fn op_bind_closure(&mut self, ident: FunctionIdent, env: Value) -> (closure: Value)
        requires
            old(self)@.can_emit(),
        ensures
            final(self)@ == old(self)@.emit(OpKind::BindClosure { ident: ident }, seq![env], 1),
            closure.0 == old(self)@.fun.values.len(),
            old(self)@.fun.wf() && old(self)@.fun.open_ended(old(self)@.position->0) && old(self)@.fun.has_value(env) ==> final(self)@.fun.wf(),
    {
        let mut reads: Vec<Value> = Vec::new();
        reads.push(env);
        assert(reads@ =~= seq![env]);
        let writes = self.emit(OpKind::BindClosure { ident: ident }, &reads, 1);
        writes[0]
    }

    /// Calls the function value `fun` with `args` in tail position.
    pub fn op_tail_apply(&mut self, fun: Value, args: &Vec<Value>)
        requires
            old(self)@.can_emit(),
        ensures
            final(self)@ == old(self)@.emit(
                OpKind::Apply { call_type: CallType::Tail },
                seq![fun] + args@,
                0,
            ),
            old(self)@.fun.wf() && old(self)@.fun.open_ended(old(self)@.position->0) && old(self)@.fun.has_value(fun) && (forall|i: int|
                0 <= i < args@.len() ==> old(self)@.fun.has_value(#[trigger] args@[i]))
                ==> final(self)@.fun.wf(),
    {
        let mut reads: Vec<Value> = Vec::new();
        reads.push(fun);
        extend(&mut reads, args);
        assert(reads@ =~= seq![fun] + args@);
        self.emit(OpKind::Apply { call_type: CallType::Tail }, &reads, 0);
    }

    /// Calls the function `module:name` with `args` in tail position.
    pub fn op_tail_call(&mut self, name: Value, module: Value, arity: usize, args: &Vec<Value>)
        requires
            old(self)@.can_emit(),
        ensures
            final(self)@ == old(self)@.emit(
                OpKind::Call { call_type: CallType::Tail, arity: arity },
                seq![name, module] + args@,
                0,
            ),
            old(self)@.fun.wf() && old(self)@.fun.open_ended(old(self)@.position->0) && old(self)@.fun.has_value(name) && old(self)@.fun.has_value(module) && (forall|i: int|
                0 <= i < args@.len() ==> old(self)@.fun.has_value(#[trigger] args@[i]))
                ==> final(self)@.fun.wf(),
    {
        let mut reads: Vec<Value> = Vec::new();
        reads.push(name);
        reads.push(module);
        extend(&mut reads, args);
        assert(reads@ =~= seq![name, module] + args@);
        self.emit(OpKind::Call { call_type: CallType::Tail, arity: arity }, &reads, 0);
    }

    /// Hands `args` to the continuation `cont`.
    pub fn op_cont_apply(&mut self, cont: Value, args: &Vec<Value>)
        requires
            old(self)@.can_emit(),
        ensures
            final(self)@ == old(self)@.emit(OpKind::ContApply, seq![cont] + args@, 0),
            old(self)@.fun.wf() && old(self)@.fun.open_ended(old(self)@.position->0) && old(self)@.fun.has_value(cont) && (forall|i: int|
                0 <= i < args@.len() ==> old(self)@.fun.has_value(#[trigger] args@[i]))
                ==> final(self)@.fun.wf(),
    {
        let mut reads: Vec<Value> = Vec::new();
        reads.push(cont);
        extend(&mut reads, args);
        assert(reads@ =~= seq![cont] + args@);
        self.emit(OpKind::ContApply, &reads, 0);
    }
}

/// Appends the members of `more` to `to`.
pub fn extend(to: &mut Vec<Value>, more: &Vec<Value>)
    ensures
        final(to)@ == old(to)@ + more@,
{
    let mut i: usize = 0;
    while i < more.len()
        invariant
            i <= more.len(),
            to@ == old(to)@ + more@.subrange(0, i as int),
        decreases more.len() - i,
    {
        to.push(more[i]);
        assert(to@ =~= old(to)@ + more@.subrange(0, i + 1));
        i = i + 1;
    }
    assert(more@.subrange(0, more@.len() as int) =~= more@);
}

} // verus!

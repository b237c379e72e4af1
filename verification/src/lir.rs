//! The low-level intermediate representation. A function is a set of
//! extended basic blocks (EBBs), each an ordered list of operations that ends
//! in a control-flow operation. Data flows through values: every value is an
//! argument of one EBB, a result of one operation, or a constant. EBBs,
//! operations, values and EBB calls live in arenas of the function and are
//! referred to by dense handles.

use vstd::prelude::*;

verus! {

/// Handle of an extended basic block.
#[derive(Clone, Copy, Debug, PartialEq, Eq, Hash, Structural)]
pub struct Ebb(pub usize);

/// Handle of an operation.
#[derive(Clone, Copy, Debug, PartialEq, Eq, Hash, Structural)]
pub struct Op(pub usize);

/// Handle of a value.
#[derive(Clone, Copy, Debug, PartialEq, Eq, Hash, Structural)]
pub struct Value(pub usize);

/// Handle of a branch to an EBB together with the arguments passed.
#[derive(Clone, Copy, Debug, PartialEq, Eq, Hash, Structural)]
pub struct EbbCall(pub usize);

/// Index of a closure environment in the table of a module.
#[derive(Clone, Copy, Debug, PartialEq, Eq, Hash, Structural)]
pub struct ClosureEnv(pub usize);

/// An interned name.
#[derive(Clone, Copy, Debug, PartialEq, Eq, Hash, Structural)]
pub struct Symbol(pub u32);

/// Which closure of a function: its closure environment, and its number
/// among the closures that share that environment.
#[derive(Clone, Copy, Debug, PartialEq, Eq, Hash, Structural)]
pub struct Lambda {
    pub env: ClosureEnv,
    pub index: usize,
}

/// The identity of a function: where it is defined, how many arguments it
/// takes and, for a closure or continuation, which closure it is.
#[derive(Clone, Copy, Debug, PartialEq, Eq, Hash, Structural)]
pub struct FunctionIdent {
    pub module: Symbol,
    pub name: Symbol,
    pub arity: usize,
    pub lambda: Option<Lambda>,
}

/// The calling convention a function is written in.
#[derive(Clone, Copy, Debug, PartialEq, Eq, Hash, Structural)]
pub enum Dialect {
    /// Calls return to their caller.
    Normal,
    /// Calls never return; every function is handed its continuations.
    CPS,
}

/// Whether a call returns to the operation after it or takes its place.
#[derive(Clone, Copy, Debug, PartialEq, Eq, Hash, Structural)]
pub enum CallType {
    Normal,
    Tail,
}

/// The literal that a constant value stands for.
#[derive(Clone, Copy, Debug, PartialEq, Eq, Hash, Structural)]
pub enum ConstantTerm {
    Integer(i64),
    Atom(Symbol),
    Nil,
}

/// What can be said of a function as a whole.
#[derive(Clone, Copy, Debug, PartialEq, Eq, Hash, Structural)]
pub enum AttributeKey {
    /// The function is a continuation: it takes an environment and a result.
    Continuation,
}

/// The value of an attribute.
#[derive(Clone, Copy, Debug, PartialEq, Eq, Hash, Structural)]
pub enum AttributeValue {
    /// The attribute is a tag without a value.
    Unit,
}

/// What an operation does.
#[derive(Clone, Copy, Debug, PartialEq, Eq, Hash, Structural)]
pub enum OpKind {
    Move,
    /// Unconditional branch to the one EBB call of the operation.
    Jump,
    /// Call of the function named by the first two reads. A normal call
    /// writes the returned value and the thrown value, and branches to its
    /// EBB call when the callee throws.
    Call { call_type: CallType, arity: usize },
    /// Call of the function value in the first read.
    Apply { call_type: CallType },
    /// Hands the remaining reads to the continuation in the first read.
    ContApply,
    CaptureNamedFunction(FunctionIdent),
    MakeTuple,
    MakeList,
    /// Packs the reads into an environment for the closures of `env_idx`.
    MakeClosureEnv { env_idx: ClosureEnv },
    /// Unpacks the environment in the read into one write per slot.
    UnpackEnv,
    /// Binds the function `ident` to the environment in the read.
    BindClosure { ident: FunctionIdent },
    /// Falls through when the read is truthy, branches otherwise.
    IfTruthy,
    PrimOp(Symbol),
    ReturnOk,
    ReturnThrow,
    Unreachable,
}

impl OpKind {
    /// Whether control never falls through to a following operation.
    pub open spec fn is_terminator(self) -> bool {
        match self {
            OpKind::Jump => true,
            OpKind::Call { call_type, arity } => call_type == CallType::Tail,
            OpKind::Apply { call_type } => call_type == CallType::Tail,
            OpKind::ContApply => true,
            OpKind::ReturnOk => true,
            OpKind::ReturnThrow => true,
            OpKind::Unreachable => true,
            _ => false,
        }
    }

    /// Whether the operation calls a function that may return or throw.
    pub open spec fn is_call(self) -> bool {
        self is Call || self is Apply
    }

    /// Whether control never falls through to a following operation.
    #[verifier::when_used_as_spec(is_terminator)]
    pub fn terminates(self) -> (r: bool)
        ensures
            r == self.is_terminator(),
    {
        match self {
            OpKind::Jump => true,
            OpKind::Call { call_type, arity: _ } => match call_type {
                CallType::Tail => true,
                CallType::Normal => false,
            },
            OpKind::Apply { call_type } => match call_type {
                CallType::Tail => true,
                CallType::Normal => false,
            },
            OpKind::ContApply => true,
            OpKind::ReturnOk => true,
            OpKind::ReturnThrow => true,
            OpKind::Unreachable => true,
            _ => false,
        }
    }
}

/// Where a value comes from.
#[derive(Clone, Copy, Debug, PartialEq, Eq, Hash, Structural)]
pub enum ValueData {
    /// Argument number `index` of `ebb`.
    Argument { ebb: Ebb, index: usize },
    /// Result number `index` of `op`.
    Result { op: Op, index: usize },
    Constant(ConstantTerm),
}

/// An EBB as the function stores it.
pub struct EbbData {
    pub args: Vec<Value>,
    pub ops: Vec<Op>,
}

/// An operation as the function stores it.
pub struct OpData {
    pub kind: OpKind,
    pub reads: Vec<Value>,
    pub writes: Vec<Value>,
    pub branches: Vec<EbbCall>,
    /// The EBB that holds the operation, and its position there.
    pub ebb: Ebb,
    pub pos: usize,
}

/// An EBB call as the function stores it.
pub struct EbbCallData {
    /// The operation that branches.
    pub source: Op,
    pub target: Ebb,
    pub args: Vec<Value>,
}

/// The mathematical value of an EBB.
pub struct EbbModel {
    pub args: Seq<Value>,
    pub ops: Seq<Op>,
}

/// The mathematical value of an operation.
pub struct OpModel {
    pub kind: OpKind,
    pub reads: Seq<Value>,
    pub writes: Seq<Value>,
    pub branches: Seq<EbbCall>,
    pub ebb: Ebb,
    pub pos: usize,
}

/// The mathematical value of an EBB call.
pub struct EbbCallModel {
    pub source: Op,
    pub target: Ebb,
    pub args: Seq<Value>,
}

impl View for EbbData {
    type V = EbbModel;

    open spec fn view(&self) -> EbbModel {
        EbbModel { args: self.args@, ops: self.ops@ }
    }
}

impl View for OpData {
    type V = OpModel;

    open spec fn view(&self) -> OpModel {
        OpModel {
            kind: self.kind,
            reads: self.reads@,
            writes: self.writes@,
            branches: self.branches@,
            ebb: self.ebb,
            pos: self.pos,
        }
    }
}

impl View for EbbCallData {
    type V = EbbCallModel;

    open spec fn view(&self) -> EbbCallModel {
        EbbCallModel { source: self.source, target: self.target, args: self.args@ }
    }
}

/// The mathematical value of a [`Function`].
pub struct FunctionModel {
    pub ident: FunctionIdent,
    pub dialect: Dialect,
    pub attributes: Seq<(AttributeKey, AttributeValue)>,
    pub ebbs: Seq<EbbModel>,
    pub ops: Seq<OpModel>,
    pub values: Seq<ValueData>,
    pub calls: Seq<EbbCallModel>,
    pub entry: Option<Ebb>,
}

impl FunctionModel {
    /// Whether `e` is an EBB of the function.
    pub open spec fn has_ebb(self, e: Ebb) -> bool {
        e.0 < self.ebbs.len()
    }

    /// Whether `o` is an operation of the function.
    pub open spec fn has_op(self, o: Op) -> bool {
        o.0 < self.ops.len()
    }

    /// Whether `v` is a value of the function.
    pub open spec fn has_value(self, v: Value) -> bool {
        v.0 < self.values.len()
    }

    /// Whether `c` is an EBB call of the function.
    pub open spec fn has_call(self, c: EbbCall) -> bool {
        c.0 < self.calls.len()
    }

    /// Whether the attribute `key` is set.
    pub open spec fn has_attribute(self, key: AttributeKey) -> bool {
        exists|i: int| 0 <= i < self.attributes.len() && (#[trigger] self.attributes[i]).0 == key
    }

    /// The operation that follows `o` in its EBB.
    pub open spec fn op_after(self, o: Op) -> Option<Op> {
        let d = self.ops[o.0 as int];
        let ops = self.ebbs[d.ebb.0 as int].ops;
        if d.pos + 1 < ops.len() {
            Some(ops[d.pos + 1])
        } else {
            None
        }
    }

    /// The operation that precedes `o` in its EBB.
    pub open spec fn op_before(self, o: Op) -> Option<Op> {
        let d = self.ops[o.0 as int];
        if d.pos > 0 {
            Some(self.ebbs[d.ebb.0 as int].ops[d.pos - 1])
        } else {
            None
        }
    }

    /// The first operation of `e`, if it has one.
    pub open spec fn ebb_first_op(self, e: Ebb) -> Option<Op> {
        let ops = self.ebbs[e.0 as int].ops;
        if ops.len() > 0 {
            Some(ops[0])
        } else {
            None
        }
    }

    /// Every EBB argument is a value of its own.
    pub open spec fn wf_ebb(self, e: int) -> bool {
        &&& self.ebbs[e].args.len() <= usize::MAX
        &&& self.ebbs[e].ops.len() <= usize::MAX
        &&& forall|i: int|
            0 <= i < self.ebbs[e].args.len() ==> {
                &&& self.has_value(#[trigger] self.ebbs[e].args[i])
                &&& self.values[self.ebbs[e].args[i].0 as int] == (ValueData::Argument {
                    ebb: Ebb(e as usize),
                    index: i as usize,
                })
            }
        &&& forall|i: int|
            0 <= i < self.ebbs[e].ops.len() ==> {
                &&& self.has_op(#[trigger] self.ebbs[e].ops[i])
                &&& self.ops[self.ebbs[e].ops[i].0 as int].ebb == Ebb(e as usize)
                &&& self.ops[self.ebbs[e].ops[i].0 as int].pos == i
            }
        &&& forall|i: int|
            0 <= i < self.ebbs[e].ops.len() - 1 ==> !self.ops[(#[trigger] self.ebbs[e].ops[i]).0 as int].kind.is_terminator()
    }

    /// Every operation stands in exactly one EBB, reads values of the
    /// function, and every result is a value of its own.
    pub open spec fn wf_op(self, o: int) -> bool {
        let d = self.ops[o];
        &&& self.has_ebb(d.ebb)
        &&& d.pos < self.ebbs[d.ebb.0 as int].ops.len()
        &&& self.ebbs[d.ebb.0 as int].ops[d.pos as int] == Op(o as usize)
        &&& d.reads.len() <= usize::MAX
        &&& d.writes.len() <= usize::MAX
        &&& d.branches.len() <= usize::MAX
        &&& forall|i: int| 0 <= i < d.reads.len() ==> self.has_value(#[trigger] d.reads[i])
        &&& forall|i: int|
            0 <= i < d.writes.len() ==> {
                &&& self.has_value(#[trigger] d.writes[i])
                &&& self.values[d.writes[i].0 as int] == (ValueData::Result {
                    op: Op(o as usize),
                    index: i as usize,
                })
            }
        &&& forall|i: int| 0 <= i < d.branches.len() ==> self.has_call(#[trigger] d.branches[i])
    }

    /// Every EBB call starts at an operation, leads to an EBB and passes
    /// values of the function.
    pub open spec fn wf_call(self, c: int) -> bool {
        let d = self.calls[c];
        &&& d.args.len() <= usize::MAX
        &&& self.has_op(d.source)
        &&& self.has_ebb(d.target)
        &&& forall|i: int| 0 <= i < d.args.len() ==> self.has_value(#[trigger] d.args[i])
    }

    /// The invariants of a function: handles refer into its own arenas,
    /// every operation stands in exactly one EBB, only the last operation of
    /// an EBB ends it, and every argument and result is a value of its own.
    pub open spec fn wf(self) -> bool {
        &&& self.ebbs.len() <= usize::MAX
        &&& self.ops.len() <= usize::MAX
        &&& self.values.len() <= usize::MAX
        &&& self.calls.len() <= usize::MAX
        &&& (self.entry matches Some(e) ==> self.has_ebb(e))
        &&& forall|e: int| 0 <= e < self.ebbs.len() ==> #[trigger] self.wf_ebb(e)
        &&& forall|o: int| 0 <= o < self.ops.len() ==> #[trigger] self.wf_op(o)
        &&& forall|c: int| 0 <= c < self.calls.len() ==> #[trigger] self.wf_call(c)
    }
}

impl FunctionModel {
    /// The function with one more EBB, empty.
    pub open spec fn push_ebb(self) -> FunctionModel {
        FunctionModel {
            ebbs: self.ebbs.push(EbbModel { args: Seq::empty(), ops: Seq::empty() }),
            ..self
        }
    }

    /// The function with one more argument of `ebb`.
    pub open spec fn push_argument(self, ebb: Ebb) -> FunctionModel {
        let e = self.ebbs[ebb.0 as int];
        FunctionModel {
            values: self.values.push(
                ValueData::Argument { ebb: ebb, index: e.args.len() as usize },
            ),
            ebbs: self.ebbs.update(
                ebb.0 as int,
                EbbModel { args: e.args.push(Value(self.values.len() as usize)), ..e },
            ),
            ..self
        }
    }

    /// The function with one more value, a constant.
    pub open spec fn push_constant(self, c: ConstantTerm) -> FunctionModel {
        FunctionModel { values: self.values.push(ValueData::Constant(c)), ..self }
    }

    /// The function with one more operation, at the end of `ebb`, that so
    /// far reads, writes and branches nothing.
    pub open spec fn push_op(self, ebb: Ebb, kind: OpKind) -> FunctionModel {
        let e = self.ebbs[ebb.0 as int];
        FunctionModel {
            ops: self.ops.push(
                OpModel {
                    kind: kind,
                    reads: Seq::empty(),
                    writes: Seq::empty(),
                    branches: Seq::empty(),
                    ebb: ebb,
                    pos: e.ops.len() as usize,
                },
            ),
            ebbs: self.ebbs.update(
                ebb.0 as int,
                EbbModel { ops: e.ops.push(Op(self.ops.len() as usize)), ..e },
            ),
            ..self
        }
    }

    /// The function with one more result of `op`.
    pub open spec fn push_write(self, op: Op) -> FunctionModel {
        let d = self.ops[op.0 as int];
        FunctionModel {
            values: self.values.push(ValueData::Result { op: op, index: d.writes.len() as usize }),
            ops: self.ops.update(
                op.0 as int,
                OpModel { writes: d.writes.push(Value(self.values.len() as usize)), ..d },
            ),
            ..self
        }
    }

    /// The function in which `op` reads `v` after what it read before.
    pub open spec fn push_read(self, op: Op, v: Value) -> FunctionModel {
        let d = self.ops[op.0 as int];
        FunctionModel {
            ops: self.ops.update(op.0 as int, OpModel { reads: d.reads.push(v), ..d }),
            ..self
        }
    }

    /// The function with one more EBB call.
    pub open spec fn push_call(self, source: Op, target: Ebb, args: Seq<Value>) -> FunctionModel {
        FunctionModel {
            calls: self.calls.push(EbbCallModel { source: source, target: target, args: args }),
            ..self
        }
    }

    /// The function in which `op` branches to `call` after its other
    /// branches.
    pub open spec fn push_branch(self, op: Op, call: EbbCall) -> FunctionModel {
        let d = self.ops[op.0 as int];
        FunctionModel {
            ops: self.ops.update(op.0 as int, OpModel { branches: d.branches.push(call), ..d }),
            ..self
        }
    }

    /// Whether an operation can be added at the end of `ebb`: no operation
    /// there ends it yet.
    pub open spec fn open_ended(self, ebb: Ebb) -> bool {
        let ops = self.ebbs[ebb.0 as int].ops;
        ops.len() > 0 && self.has_op(ops.last()) ==> !self.ops[ops.last().0 as int].kind.is_terminator()
    }

    /// One more EBB leaves the function well formed.
    pub proof fn lemma_push_ebb_wf(self)
        requires
            self.wf(),
            self.ebbs.len() < usize::MAX,
        ensures
            self.push_ebb().wf(),
    {
        let n = self.push_ebb();
        assert forall|e: int| 0 <= e < n.ebbs.len() implies #[trigger] n.wf_ebb(e) by {
            if e < self.ebbs.len() {
                assert(self.wf_ebb(e));
            }
        }
        assert forall|o: int| 0 <= o < n.ops.len() implies #[trigger] n.wf_op(o) by {
            assert(self.wf_op(o));
        }
        assert forall|c: int| 0 <= c < n.calls.len() implies #[trigger] n.wf_call(c) by {
            assert(self.wf_call(c));
        }
    }

    /// One more argument of an EBB leaves the function well formed.
    pub proof fn lemma_push_argument_wf(self, ebb: Ebb)
        requires
            self.wf(),
            self.has_ebb(ebb),
            self.values.len() < usize::MAX,
            self.ebbs[ebb.0 as int].args.len() < usize::MAX,
        ensures
            self.push_argument(ebb).wf(),
    {
        let n = self.push_argument(ebb);
        assert(self.wf_ebb(ebb.0 as int));
        assert forall|e: int| 0 <= e < n.ebbs.len() implies #[trigger] n.wf_ebb(e) by {
            assert(self.wf_ebb(e));
        }
        assert forall|o: int| 0 <= o < n.ops.len() implies #[trigger] n.wf_op(o) by {
            assert(self.wf_op(o));
        }
        assert forall|c: int| 0 <= c < n.calls.len() implies #[trigger] n.wf_call(c) by {
            assert(self.wf_call(c));
        }
    }

    /// One more constant leaves the function well formed.
    pub proof fn lemma_push_constant_wf(self, c: ConstantTerm)
        requires
            self.wf(),
            self.values.len() < usize::MAX,
        ensures
            self.push_constant(c).wf(),
    {
        let n = self.push_constant(c);
        assert forall|e: int| 0 <= e < n.ebbs.len() implies #[trigger] n.wf_ebb(e) by {
            assert(self.wf_ebb(e));
        }
        assert forall|o: int| 0 <= o < n.ops.len() implies #[trigger] n.wf_op(o) by {
            assert(self.wf_op(o));
        }
        assert forall|c: int| 0 <= c < n.calls.len() implies #[trigger] n.wf_call(c) by {
            assert(self.wf_call(c));
        }
    }

    /// One more operation at the end of an EBB that no operation ends yet
    /// leaves the function well formed.
    pub proof fn lemma_push_op_wf(self, ebb: Ebb, kind: OpKind)
        requires
            self.wf(),
            self.has_ebb(ebb),
            self.open_ended(ebb),
            self.ops.len() < usize::MAX,
            self.ebbs[ebb.0 as int].ops.len() < usize::MAX,
        ensures
            self.push_op(ebb, kind).wf(),
    {
        let n = self.push_op(ebb, kind);
        assert(self.wf_ebb(ebb.0 as int));
        assert forall|e: int| 0 <= e < n.ebbs.len() implies #[trigger] n.wf_ebb(e) by {
            assert(self.wf_ebb(e));
            if e == ebb.0 {
                let old_ops = self.ebbs[e].ops;
                assert forall|i: int| 0 <= i < n.ebbs[e].ops.len() - 1 implies !n.ops[(
                #[trigger] n.ebbs[e].ops[i]).0 as int].kind.is_terminator() by {
                    assert(n.ebbs[e].ops[i] == old_ops[i]);
                    assert(self.has_op(old_ops[i]));
                    if i == old_ops.len() - 1 {
                        assert(old_ops[i] == old_ops.last());
                    }
                }
            }
        }
        assert forall|o: int| 0 <= o < n.ops.len() implies #[trigger] n.wf_op(o) by {
            if o < self.ops.len() {
                assert(self.wf_op(o));
            }
        }
        assert forall|c: int| 0 <= c < n.calls.len() implies #[trigger] n.wf_call(c) by {
            assert(self.wf_call(c));
        }
    }

    /// One more result of an operation leaves the function well formed.
    pub proof fn lemma_push_write_wf(self, op: Op)
        requires
            self.wf(),
            self.has_op(op),
            self.values.len() < usize::MAX,
            self.ops[op.0 as int].writes.len() < usize::MAX,
        ensures
            self.push_write(op).wf(),
    {
        let n = self.push_write(op);
        assert(self.wf_op(op.0 as int));
        assert forall|e: int| 0 <= e < n.ebbs.len() implies #[trigger] n.wf_ebb(e) by {
            assert(self.wf_ebb(e));
        }
        assert forall|o: int| 0 <= o < n.ops.len() implies #[trigger] n.wf_op(o) by {
            assert(self.wf_op(o));
        }
        assert forall|c: int| 0 <= c < n.calls.len() implies #[trigger] n.wf_call(c) by {
            assert(self.wf_call(c));
        }
    }

    /// One more read of a value of the function leaves it well formed.
    pub proof fn lemma_push_read_wf(self, op: Op, v: Value)
        requires
            self.wf(),
            self.has_op(op),
            self.has_value(v),
            self.ops[op.0 as int].reads.len() < usize::MAX,
        ensures
            self.push_read(op, v).wf(),
    {
        let n = self.push_read(op, v);
        assert(self.wf_op(op.0 as int));
        assert forall|e: int| 0 <= e < n.ebbs.len() implies #[trigger] n.wf_ebb(e) by {
            assert(self.wf_ebb(e));
        }
        assert forall|o: int| 0 <= o < n.ops.len() implies #[trigger] n.wf_op(o) by {
            assert(self.wf_op(o));
        }
        assert forall|c: int| 0 <= c < n.calls.len() implies #[trigger] n.wf_call(c) by {
            assert(self.wf_call(c));
        }
    }

    /// One more EBB call between an operation and an EBB of the function
    /// leaves it well formed.
    pub proof fn lemma_push_call_wf(self, source: Op, target: Ebb, args: Seq<Value>)
        requires
            self.wf(),
            self.has_op(source),
            self.has_ebb(target),
            forall|i: int| 0 <= i < args.len() ==> self.has_value(#[trigger] args[i]),
            self.calls.len() < usize::MAX,
            args.len() <= usize::MAX,
        ensures
            self.push_call(source, target, args).wf(),
    {
        let n = self.push_call(source, target, args);
        assert forall|e: int| 0 <= e < n.ebbs.len() implies #[trigger] n.wf_ebb(e) by {
            assert(self.wf_ebb(e));
        }
        assert forall|o: int| 0 <= o < n.ops.len() implies #[trigger] n.wf_op(o) by {
            assert(self.wf_op(o));
        }
        assert forall|c: int| 0 <= c < n.calls.len() implies #[trigger] n.wf_call(c) by {
            if c < self.calls.len() {
                assert(self.wf_call(c));
            }
        }
    }

    /// One more branch of an operation leaves the function well formed.
    pub proof fn lemma_push_branch_wf(self, op: Op, call: EbbCall)
        requires
            self.wf(),
            self.has_op(op),
            self.has_call(call),
            self.ops[op.0 as int].branches.len() < usize::MAX,
        ensures
            self.push_branch(op, call).wf(),
    {
        let n = self.push_branch(op, call);
        assert(self.wf_op(op.0 as int));
        assert forall|e: int| 0 <= e < n.ebbs.len() implies #[trigger] n.wf_ebb(e) by {
            assert(self.wf_ebb(e));
        }
        assert forall|o: int| 0 <= o < n.ops.len() implies #[trigger] n.wf_op(o) by {
            assert(self.wf_op(o));
        }
        assert forall|c: int| 0 <= c < n.calls.len() implies #[trigger] n.wf_call(c) by {
            assert(self.wf_call(c));
        }
    }
}

/// A function of the low-level representation.
pub struct Function {
    ident: FunctionIdent,
    dialect: Dialect,
    attributes: Vec<(AttributeKey, AttributeValue)>,
    ebbs: Vec<EbbData>,
    ops: Vec<OpData>,
    values: Vec<ValueData>,
    calls: Vec<EbbCallData>,
    entry: Option<Ebb>,
}

impl View for Function {
    type V = FunctionModel;

    closed spec fn view(&self) -> FunctionModel {
        FunctionModel {
            ident: self.ident,
            dialect: self.dialect,
            attributes: self.attributes@,
            ebbs: Seq::new(self.ebbs@.len(), |i: int| self.ebbs@[i]@),
            ops: Seq::new(self.ops@.len(), |i: int| self.ops@[i]@),
            values: self.values@,
            calls: Seq::new(self.calls@.len(), |i: int| self.calls@[i]@),
            entry: self.entry,
        }
    }
}

impl Function {
    /// A function without EBBs.
    pub fn new(ident: FunctionIdent, dialect: Dialect) -> (f: Function)
        ensures
            f@ == (FunctionModel {
                ident: ident,
                dialect: dialect,
                attributes: Seq::empty(),
                ebbs: Seq::empty(),
                ops: Seq::empty(),
                values: Seq::empty(),
                calls: Seq::empty(),
                entry: None,
            }),
            f@.wf(),
    {
        let f = Function {
            ident: ident,
            dialect: dialect,
            attributes: Vec::new(),
            ebbs: Vec::new(),
            ops: Vec::new(),
            values: Vec::new(),
            calls: Vec::new(),
            entry: None,
        };
        assert(f@.ebbs =~= Seq::empty());
        assert(f@.ops =~= Seq::empty());
        assert(f@.calls =~= Seq::empty());
        f
    }

    /// The identity of the function.
    pub fn ident(&self) -> (r: FunctionIdent)
        ensures
            r == self@.ident,
    {
        self.ident
    }

    /// The calling convention of the function.
    pub fn dialect(&self) -> (r: Dialect)
        ensures
            r == self@.dialect,
    {
        self.dialect
    }

    /// Whether the attribute `key` is set.
    pub fn has_attribute(&self, key: AttributeKey) -> (r: bool)
        ensures
            r == self@.has_attribute(key),
    {
        let mut i: usize = 0;
        while i < self.attributes.len()
            invariant
                i <= self.attributes.len(),
                forall|k: int| 0 <= k < i ==> (#[trigger] self.attributes@[k]).0 != key,
            decreases self.attributes.len() - i,
        {
            if self.attributes[i].0 == key {
                assert(self@.attributes[i as int].0 == key);
                return true;
            }
            i = i + 1;
        }
        false
    }

    /// The number of EBBs.
    pub fn ebb_count(&self) -> (n: usize)
        ensures
            n == self@.ebbs.len(),
    {
        self.ebbs.len()
    }

    /// The number of operations.
    pub fn op_count(&self) -> (n: usize)
        ensures
            n == self@.ops.len(),
    {
        self.ops.len()
    }

    /// The number of values.
    pub fn value_count(&self) -> (n: usize)
        ensures
            n == self@.values.len(),
    {
        self.values.len()
    }

    /// The number of EBB calls.
    pub fn ebb_call_count(&self) -> (n: usize)
        ensures
            n == self@.calls.len(),
    {
        self.calls.len()
    }

    /// The EBB at which the function is entered.
    pub fn ebb_entry(&self) -> (r: Option<Ebb>)
        ensures
            r == self@.entry,
    {
        self.entry
    }

    /// The arguments of `ebb` in order.
    pub fn ebb_args(&self, ebb: Ebb) -> (r: &Vec<Value>)
        requires
            self@.has_ebb(ebb),
        ensures
            r@ == self@.ebbs[ebb.0 as int].args,
    {
        &self.ebbs[ebb.0].args
    }

    /// The operations of `ebb` in order.
    pub fn ebb_ops(&self, ebb: Ebb) -> (r: &Vec<Op>)
        requires
            self@.has_ebb(ebb),
        ensures
            r@ == self@.ebbs[ebb.0 as int].ops,
    {
        &self.ebbs[ebb.0].ops
    }

    /// The first operation of `ebb`, if it has one.
    pub fn ebb_first_op(&self, ebb: Ebb) -> (r: Option<Op>)
        requires
            self@.has_ebb(ebb),
        ensures
            r == self@.ebb_first_op(ebb),
    {
        if self.ebbs[ebb.0].ops.len() > 0 {
            Some(self.ebbs[ebb.0].ops[0])
        } else {
            None
        }
    }

    /// What `op` does.
    pub fn op_kind(&self, op: Op) -> (r: OpKind)
        requires
            self@.has_op(op),
        ensures
            r == self@.ops[op.0 as int].kind,
    {
        self.ops[op.0].kind
    }

    /// The values that `op` reads, in order.
    pub fn op_reads(&self, op: Op) -> (r: &Vec<Value>)
        requires
            self@.has_op(op),
        ensures
            r@ == self@.ops[op.0 as int].reads,
    {
        &self.ops[op.0].reads
    }

    /// The results of `op`, in order.
    pub fn op_writes(&self, op: Op) -> (r: &Vec<Value>)
        requires
            self@.has_op(op),
        ensures
            r@ == self@.ops[op.0 as int].writes,
    {
        &self.ops[op.0].writes
    }

    /// The branches of `op`, in order.
    pub fn op_branches(&self, op: Op) -> (r: &Vec<EbbCall>)
        requires
            self@.has_op(op),
        ensures
            r@ == self@.ops[op.0 as int].branches,
    {
        &self.ops[op.0].branches
    }

    /// The EBB that holds `op`.
    pub fn op_ebb(&self, op: Op) -> (r: Ebb)
        requires
            self@.has_op(op),
        ensures
            r == self@.ops[op.0 as int].ebb,
    {
        self.ops[op.0].ebb
    }

    /// The operation that follows `op` in its EBB.
    pub fn op_after(&self, op: Op) -> (r: Option<Op>)
        requires
            self@.wf(),
            self@.has_op(op),
        ensures
            r == self@.op_after(op),
            r matches Some(n) ==> self@.has_op(n),
    {
        let ebb = self.ops[op.0].ebb;
        let pos = self.ops[op.0].pos;
        assert(self@.wf_op(op.0 as int));
        assert(self@.wf_ebb(ebb.0 as int));
        let ops = &self.ebbs[ebb.0].ops;
        assert(ops@ == self@.ebbs[ebb.0 as int].ops);
        let n = ops.len();
        assert(pos < n);
        if pos + 1 < n {
            assert(self@.has_op(self@.ebbs[ebb.0 as int].ops[pos + 1]));
            Some(ops[pos + 1])
        } else {
            None
        }
    }

    /// The operation that precedes `op` in its EBB.
    pub fn op_before(&self, op: Op) -> (r: Option<Op>)
        requires
            self@.wf(),
            self@.has_op(op),
        ensures
            r == self@.op_before(op),
            r matches Some(n) ==> self@.has_op(n),
    {
        let ebb = self.ops[op.0].ebb;
        let pos = self.ops[op.0].pos;
        assert(self@.wf_op(op.0 as int));
        assert(self@.wf_ebb(ebb.0 as int));
        if pos > 0 {
            assert(self@.has_op(self@.ebbs[ebb.0 as int].ops[pos - 1]));
            Some(self.ebbs[ebb.0].ops[pos - 1])
        } else {
            None
        }
    }

    /// Where `v` comes from.
    pub fn value(&self, v: Value) -> (r: ValueData)
        requires
            self@.has_value(v),
        ensures
            r == self@.values[v.0 as int],
    {
        self.values[v.0]
    }

    /// Whether `v` is a constant.
    pub fn value_is_constant(&self, v: Value) -> (r: bool)
        requires
            self@.has_value(v),
        ensures
            r == (self@.values[v.0 as int] is Constant),
    {
        match self.values[v.0] {
            ValueData::Constant(_) => true,
            _ => false,
        }
    }

    /// The literal of a constant value.
    pub fn value_constant(&self, v: Value) -> (r: ConstantTerm)
        requires
            self@.has_value(v),
            self@.values[v.0 as int] is Constant,
        ensures
            self@.values[v.0 as int] == ValueData::Constant(r),
    {
        match self.values[v.0] {
            ValueData::Constant(c) => c,
            _ => ConstantTerm::Nil,
        }
    }

    /// The operation that branches by `call`.
    pub fn ebb_call_source(&self, call: EbbCall) -> (r: Op)
        requires
            self@.has_call(call),
        ensures
            r == self@.calls[call.0 as int].source,
    {
        self.calls[call.0].source
    }

    /// The EBB that `call` leads to.
    pub fn ebb_call_target(&self, call: EbbCall) -> (r: Ebb)
        requires
            self@.has_call(call),
        ensures
            r == self@.calls[call.0 as int].target,
    {
        self.calls[call.0].target
    }

    /// The values that `call` passes, in order.
    pub fn ebb_call_args(&self, call: EbbCall) -> (r: &Vec<Value>)
        requires
            self@.has_call(call),
        ensures
            r@ == self@.calls[call.0 as int].args,
    {
        &self.calls[call.0].args
    }
}

impl Function {
    /// Sets an attribute of the function.
    pub fn put_attribute(&mut self, key: AttributeKey, value: AttributeValue)
        ensures
            final(self)@ == (FunctionModel {
                attributes: old(self)@.attributes.push((key, value)),
                ..old(self)@
            }),
            old(self)@.wf() ==> final(self)@.wf(),
    {
        self.attributes.push((key, value));
        proof {
            let n = self@;
            let o = old(self)@;
            assert(n.ebbs =~= o.ebbs);
            assert(n.ops =~= o.ops);
            assert(n.calls =~= o.calls);
            if o.wf() {
                assert forall|e: int| 0 <= e < n.ebbs.len() implies #[trigger] n.wf_ebb(e) by {
                    assert(o.wf_ebb(e));
                }
                assert forall|x: int| 0 <= x < n.ops.len() implies #[trigger] n.wf_op(x) by {
                    assert(o.wf_op(x));
                }
                assert forall|c: int| 0 <= c < n.calls.len() implies #[trigger] n.wf_call(c) by {
                    assert(o.wf_call(c));
                }
            }
        }
    }

    /// Makes `ebb` the EBB at which the function is entered.
    pub fn set_entry(&mut self, ebb: Ebb)
        ensures
            final(self)@ == (FunctionModel { entry: Some(ebb), ..old(self)@ }),
            old(self)@.wf() && old(self)@.has_ebb(ebb) ==> final(self)@.wf(),
    {
        self.entry = Some(ebb);
        proof {
            let n = self@;
            let o = old(self)@;
            assert(n.ebbs =~= o.ebbs);
            assert(n.ops =~= o.ops);
            assert(n.calls =~= o.calls);
            if o.wf() && o.has_ebb(ebb) {
                assert forall|e: int| 0 <= e < n.ebbs.len() implies #[trigger] n.wf_ebb(e) by {
                    assert(o.wf_ebb(e));
                }
                assert forall|x: int| 0 <= x < n.ops.len() implies #[trigger] n.wf_op(x) by {
                    assert(o.wf_op(x));
                }
                assert forall|c: int| 0 <= c < n.calls.len() implies #[trigger] n.wf_call(c) by {
                    assert(o.wf_call(c));
                }
            }
        }
    }

    /// Adds an empty EBB.
    pub fn insert_ebb(&mut self) -> (ebb: Ebb)
        ensures
            ebb.0 == old(self)@.ebbs.len(),
            final(self)@ == old(self)@.push_ebb(),
            old(self)@.wf() ==> final(self)@.wf(),
    {
        let ebb = Ebb(self.ebbs.len());
        self.ebbs.push(EbbData { args: Vec::new(), ops: Vec::new() });
        let _ = self.ebbs.len();
        proof {
            let n = self@;
            let o = old(self)@;
            assert(n.ebbs =~= o.push_ebb().ebbs);
            assert(n.ops =~= o.ops);
            assert(n.calls =~= o.calls);
            if o.wf() {
                o.lemma_push_ebb_wf();
            }
        }
        ebb
    }

    /// Adds an argument to `ebb` and returns its value.
    pub fn add_ebb_argument(&mut self, ebb: Ebb) -> (v: Value)
        requires
            old(self)@.has_ebb(ebb),
        ensures
            v.0 == old(self)@.values.len(),
            final(self)@ == old(self)@.push_argument(ebb),
            old(self)@.wf() ==> final(self)@.wf(),
    {
        let v = Value(self.values.len());
        let index = self.ebbs[ebb.0].args.len();
        self.values.push(ValueData::Argument { ebb: ebb, index: index });
        self.ebbs[ebb.0].args.push(v);
        let _ = self.values.len();
        let _ = self.ebbs[ebb.0].args.len();
        proof {
            let n = self@;
            let o = old(self)@;
            assert(n.ebbs =~= o.push_argument(ebb).ebbs);
            assert(n.ops =~= o.ops);
            assert(n.calls =~= o.calls);
            if o.wf() {
                o.lemma_push_argument_wf(ebb);
            }
        }
        v
    }

    /// Adds a constant and returns its value.
    pub fn create_constant(&mut self, c: ConstantTerm) -> (v: Value)
        ensures
            v.0 == old(self)@.values.len(),
            final(self)@ == old(self)@.push_constant(c),
            old(self)@.wf() ==> final(self)@.wf(),
    {
        let v = Value(self.values.len());
        self.values.push(ValueData::Constant(c));
        let _ = self.values.len();
        proof {
            let n = self@;
            let o = old(self)@;
            assert(n.ebbs =~= o.ebbs);
            assert(n.ops =~= o.ops);
            assert(n.calls =~= o.calls);
            if o.wf() {
                o.lemma_push_constant_wf(c);
            }
        }
        v
    }

    /// Whether an operation can be added at the end of `ebb`.
    pub fn is_open_ended(&self, ebb: Ebb) -> (r: bool)
        requires
            self@.has_ebb(ebb),
        ensures
            r == self@.open_ended(ebb),
    {
        let ops = &self.ebbs[ebb.0].ops;
        let n = ops.len();
        if n == 0 {
            true
        } else {
            let last = ops[n - 1];
            if last.0 < self.ops.len() {
                !self.ops[last.0].kind.terminates()
            } else {
                true
            }
        }
    }

    /// Adds an operation of the given kind at the end of `ebb`.
    pub fn append_op(&mut self, ebb: Ebb, kind: OpKind) -> (op: Op)
        requires
            old(self)@.has_ebb(ebb),
        ensures
            op.0 == old(self)@.ops.len(),
            final(self)@ == old(self)@.push_op(ebb, kind),
            old(self)@.wf() && old(self)@.open_ended(ebb) ==> final(self)@.wf(),
    {
        let op = Op(self.ops.len());
        let pos = self.ebbs[ebb.0].ops.len();
        self.ops.push(
            OpData {
                kind: kind,
                reads: Vec::new(),
                writes: Vec::new(),
                branches: Vec::new(),
                ebb: ebb,
                pos: pos,
            },
        );
        self.ebbs[ebb.0].ops.push(op);
        let _ = self.ops.len();
        let _ = self.ebbs[ebb.0].ops.len();
        proof {
            let n = self@;
            let o = old(self)@;
            assert(n.ebbs =~= o.push_op(ebb, kind).ebbs);
            assert(n.ops =~= o.push_op(ebb, kind).ops);
            assert(n.calls =~= o.calls);
            if o.wf() && o.open_ended(ebb) {
                o.lemma_push_op_wf(ebb, kind);
            }
        }
        op
    }

    /// Adds a result to `op` and returns its value.
    pub fn add_write(&mut self, op: Op) -> (v: Value)
        requires
            old(self)@.has_op(op),
        ensures
            v.0 == old(self)@.values.len(),
            final(self)@ == old(self)@.push_write(op),
            old(self)@.wf() ==> final(self)@.wf(),
    {
        let v = Value(self.values.len());
        let index = self.ops[op.0].writes.len();
        self.values.push(ValueData::Result { op: op, index: index });
        self.ops[op.0].writes.push(v);
        let _ = self.values.len();
        let _ = self.ops[op.0].writes.len();
        proof {
            let n = self@;
            let o = old(self)@;
            assert(n.ebbs =~= o.ebbs);
            assert(n.ops =~= o.push_write(op).ops);
            assert(n.calls =~= o.calls);
            if o.wf() {
                o.lemma_push_write_wf(op);
            }
        }
        v
    }

    /// Makes `op` read `v` after what it reads already.
    pub fn add_read(&mut self, op: Op, v: Value)
        requires
            old(self)@.has_op(op),
        ensures
            final(self)@ == old(self)@.push_read(op, v),
            old(self)@.wf() && old(self)@.has_value(v) ==> final(self)@.wf(),
    {
        self.ops[op.0].reads.push(v);
        let _ = self.ops[op.0].reads.len();
        proof {
            let n = self@;
            let o = old(self)@;
            assert(n.ebbs =~= o.ebbs);
            assert(n.ops =~= o.push_read(op, v).ops);
            assert(n.calls =~= o.calls);
            if o.wf() && o.has_value(v) {
                o.lemma_push_read_wf(op, v);
            }
        }
    }

    /// Adds a branch from `source` to `target` that passes `args`.
    pub fn create_ebb_call(&mut self, source: Op, target: Ebb, args: &Vec<Value>) -> (call: EbbCall)
        ensures
            call.0 == old(self)@.calls.len(),
            final(self)@ == old(self)@.push_call(source, target, args@),
            old(self)@.wf() && old(self)@.has_op(source) && old(self)@.has_ebb(target) && (forall|
                i: int,
            |
                0 <= i < args@.len() ==> old(self)@.has_value(#[trigger] args@[i]))
                ==> final(self)@.wf(),
    {
        let call = EbbCall(self.calls.len());
        let mut copy: Vec<Value> = Vec::new();
        let mut i: usize = 0;
        while i < args.len()
            invariant
                i <= args.len(),
                copy@ == args@.subrange(0, i as int),
            decreases args.len() - i,
        {
            copy.push(args[i]);
            assert(copy@ =~= args@.subrange(0, i + 1));
            i = i + 1;
        }
        assert(copy@ =~= args@);
        self.calls.push(EbbCallData { source: source, target: target, args: copy });
        let _ = self.calls.len();
        proof {
            let n = self@;
            let o = old(self)@;
            assert(n.ebbs =~= o.ebbs);
            assert(n.ops =~= o.ops);
            assert(n.calls =~= o.push_call(source, target, args@).calls);
            if o.wf() && o.has_op(source) && o.has_ebb(target) && (forall|i: int|
                0 <= i < args@.len() ==> o.has_value(#[trigger] args@[i])) {
                o.lemma_push_call_wf(source, target, args@);
            }
        }
        call
    }

    /// Makes `op` branch to `call` after its other branches.
    pub fn add_branch(&mut self, op: Op, call: EbbCall)
        requires
            old(self)@.has_op(op),
        ensures
            final(self)@ == old(self)@.push_branch(op, call),
            old(self)@.wf() && old(self)@.has_call(call) ==> final(self)@.wf(),
    {
        self.ops[op.0].branches.push(call);
        let _ = self.ops[op.0].branches.len();
        proof {
            let n = self@;
            let o = old(self)@;
            assert(n.ebbs =~= o.ebbs);
            assert(n.ops =~= o.push_branch(op, call).ops);
            assert(n.calls =~= o.calls);
            if o.wf() && o.has_call(call) {
                o.lemma_push_branch_wf(op, call);
            }
        }
    }
}

/// Whether every member of `vals` is a value of a function with `n`
/// values.
fn values_within(vals: &Vec<Value>, n: usize) -> (r: bool)
    ensures
        r == forall|i: int| 0 <= i < vals@.len() ==> (#[trigger] vals@[i]).0 < n,
{
    let mut i: usize = 0;
    while i < vals.len()
        invariant
            i <= vals.len(),
            forall|k: int| 0 <= k < i ==> (#[trigger] vals@[k]).0 < n,
        decreases vals.len() - i,
    {
        if vals[i].0 >= n {
            return false;
        }
        i = i + 1;
    }
    true
}

impl Function {
    /// Whether the EBB numbered `e` is as a well-formed function has it.
    fn check_ebb(&self, e: usize) -> (r: bool)
        requires
            e < self@.ebbs.len(),
        ensures
            r == self@.wf_ebb(e as int),
    {
        let ghost f = self@;
        let args = &self.ebbs[e].args;
        let ops = &self.ebbs[e].ops;
        let _ = args.len();
        let _ = ops.len();
        let mut i: usize = 0;
        while i < args.len()
            invariant
                i <= args.len(),
                f == self@,
                e < f.ebbs.len(),
                args@ == f.ebbs[e as int].args,
                forall|k: int|
                    0 <= k < i ==> {
                        &&& f.has_value(#[trigger] f.ebbs[e as int].args[k])
                        &&& f.values[f.ebbs[e as int].args[k].0 as int] == (ValueData::Argument {
                            ebb: Ebb(e),
                            index: k as usize,
                        })
                    },
            decreases args.len() - i,
        {
            let a = args[i];
            if a.0 >= self.values.len() {
                assert(!f.has_value(f.ebbs[e as int].args[i as int]));
                return false;
            }
            match self.values[a.0] {
                ValueData::Argument { ebb, index } => {
                    if ebb.0 != e || index != i {
                        assert(f.values[f.ebbs[e as int].args[i as int].0 as int]
                            != (ValueData::Argument { ebb: Ebb(e), index: i }));
                        return false;
                    }
                },
                _ => {
                    assert(f.values[f.ebbs[e as int].args[i as int].0 as int]
                        != (ValueData::Argument { ebb: Ebb(e), index: i }));
                    return false;
                },
            }
            i = i + 1;
        }
        let mut j: usize = 0;
        while j < ops.len()
            invariant
                j <= ops.len(),
                f == self@,
                e < f.ebbs.len(),
                ops@ == f.ebbs[e as int].ops,
                forall|k: int|
                    0 <= k < j ==> {
                        &&& f.has_op(#[trigger] f.ebbs[e as int].ops[k])
                        &&& f.ops[f.ebbs[e as int].ops[k].0 as int].ebb == Ebb(e)
                        &&& f.ops[f.ebbs[e as int].ops[k].0 as int].pos == k
                    },
                forall|k: int|
                    0 <= k < j && k < ops@.len() - 1 ==> !f.ops[(
                    #[trigger] f.ebbs[e as int].ops[k]).0 as int].kind.is_terminator(),
            decreases ops.len() - j,
        {
            let o = ops[j];
            if o.0 >= self.ops.len() {
                assert(!f.has_op(f.ebbs[e as int].ops[j as int]));
                return false;
            }
            if self.ops[o.0].ebb.0 != e || self.ops[o.0].pos != j {
                assert(!(f.ops[f.ebbs[e as int].ops[j as int].0 as int].ebb == Ebb(e)
                    && f.ops[f.ebbs[e as int].ops[j as int].0 as int].pos == j));
                return false;
            }
            if j + 1 < ops.len() && self.ops[o.0].kind.terminates() {
                assert(f.ops[f.ebbs[e as int].ops[j as int].0 as int].kind.is_terminator());
                return false;
            }
            j = j + 1;
        }
        true
    }

    /// Whether the operation numbered `o` is as a well-formed function has
    /// it.
    fn check_op(&self, o: usize) -> (r: bool)
        requires
            o < self@.ops.len(),
        ensures
            r == self@.wf_op(o as int),
    {
        let ghost f = self@;
        let d = &self.ops[o];
        let _ = d.reads.len();
        let _ = d.writes.len();
        let _ = d.branches.len();
        if d.ebb.0 >= self.ebbs.len() {
            return false;
        }
        let place = &self.ebbs[d.ebb.0].ops;
        if d.pos >= place.len() || place[d.pos].0 != o {
            return false;
        }
        if !values_within(&d.reads, self.values.len()) {
            return false;
        }
        let mut i: usize = 0;
        while i < d.writes.len()
            invariant
                i <= d.writes.len(),
                f == self@,
                o < f.ops.len(),
                d@ == f.ops[o as int],
                forall|k: int|
                    0 <= k < i ==> {
                        &&& f.has_value(#[trigger] f.ops[o as int].writes[k])
                        &&& f.values[f.ops[o as int].writes[k].0 as int] == (ValueData::Result {
                            op: Op(o),
                            index: k as usize,
                        })
                    },
            decreases d.writes.len() - i,
        {
            let w = d.writes[i];
            if w.0 >= self.values.len() {
                assert(!f.has_value(f.ops[o as int].writes[i as int]));
                return false;
            }
            match self.values[w.0] {
                ValueData::Result { op, index } => {
                    if op.0 != o || index != i {
                        assert(f.values[f.ops[o as int].writes[i as int].0 as int]
                            != (ValueData::Result { op: Op(o), index: i }));
                        return false;
                    }
                },
                _ => {
                    assert(f.values[f.ops[o as int].writes[i as int].0 as int]
                        != (ValueData::Result { op: Op(o), index: i }));
                    return false;
                },
            }
            i = i + 1;
        }
        let mut j: usize = 0;
        while j < d.branches.len()
            invariant
                j <= d.branches.len(),
                f == self@,
                o < f.ops.len(),
                d@ == f.ops[o as int],
                forall|k: int| 0 <= k < j ==> f.has_call(#[trigger] f.ops[o as int].branches[k]),
            decreases d.branches.len() - j,
        {
            if d.branches[j].0 >= self.calls.len() {
                assert(!f.has_call(f.ops[o as int].branches[j as int]));
                return false;
            }
            j = j + 1;
        }
        true
    }

    /// Whether the EBB call numbered `c` is as a well-formed function has
    /// it.
    fn check_call(&self, c: usize) -> (r: bool)
        requires
            c < self@.calls.len(),
        ensures
            r == self@.wf_call(c as int),
    {
        let d = &self.calls[c];
        let _ = d.args.len();
        d.source.0 < self.ops.len() && d.target.0 < self.ebbs.len() && values_within(
            &d.args,
            self.values.len(),
        )
    }

    /// Whether the function is well formed: whether it can be handed to
    /// the analyses and rewrites that ask for a well-formed function.
    pub fn is_well_formed(&self) -> (r: bool)
        ensures
            r == self@.wf(),
    {
        let ghost f = self@;
        let _ = self.ebbs.len();
        let _ = self.ops.len();
        let _ = self.values.len();
        let _ = self.calls.len();
        match self.entry {
            Some(e) => {
                if e.0 >= self.ebbs.len() {
                    return false;
                }
            },
            None => {},
        }
        let mut e: usize = 0;
        while e < self.ebbs.len()
            invariant
                e <= self.ebbs.len(),
                f == self@,
                forall|k: int| 0 <= k < e ==> #[trigger] f.wf_ebb(k),
            decreases self.ebbs.len() - e,
        {
            if !self.check_ebb(e) {
                return false;
            }
            e = e + 1;
        }
        let mut o: usize = 0;
        while o < self.ops.len()
            invariant
                o <= self.ops.len(),
                f == self@,
                forall|k: int| 0 <= k < o ==> #[trigger] f.wf_op(k),
            decreases self.ops.len() - o,
        {
            if !self.check_op(o) {
                return false;
            }
            o = o + 1;
        }
        let mut c: usize = 0;
        while c < self.calls.len()
            invariant
                c <= self.calls.len(),
                f == self@,
                forall|k: int| 0 <= k < c ==> #[trigger] f.wf_call(k),
            decreases self.calls.len() - c,
        {
            if !self.check_call(c) {
                return false;
            }
            c = c + 1;
        }
        true
    }
}

} // verus!

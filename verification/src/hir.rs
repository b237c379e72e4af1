//! The high-level intermediate representation: a tree of expressions in
//! which every node, and every binding occurrence of a variable, has room for
//! an SSA name.

use vstd::prelude::*;
use crate::ssa_variable::SSAVariable;
use crate::scope_tracker::{LambdaEnvIdx, Variable};

verus! {

/// An occurrence of a source variable together with its SSA name.
#[derive(Debug)]
pub struct AVariable {
    pub var: Variable,
    pub ssa: SSAVariable,
}

/// A literal that needs no evaluation.
#[derive(Debug)]
pub enum AtomicLiteral {
    Integer(i64),
    Atom(String),
    Char(char),
    String(String),
    Nil,
}

/// An expression that yields one value for each of its members.
#[derive(Debug)]
pub struct Expression {
    pub values: Vec<SingleExpression>,
}

/// An expression that yields one value, named by `ssa`.
#[derive(Debug)]
pub struct SingleExpression {
    pub ssa: SSAVariable,
    pub kind: SingleExpressionKind,
}

/// A pattern of a clause, as far as scoping is concerned: the variables that
/// a successful match binds.
#[derive(Debug)]
pub struct Pattern {
    pub binds: Vec<(Variable, SSAVariable)>,
}

/// One clause of a `case` or `receive`.
#[derive(Debug)]
pub struct Clause {
    pub patterns: Vec<Pattern>,
    pub guard: SingleExpression,
    pub body: SingleExpression,
}

/// The parameters and body of a function.
#[derive(Debug)]
pub struct FunctionDefinition {
    pub args: Vec<AVariable>,
    pub body: Box<SingleExpression>,
}

/// A function together with the closure environment it captures into.
#[derive(Debug)]
pub struct Closure {
    pub fun: FunctionDefinition,
    pub env: Option<LambdaEnvIdx>,
}

/// A member of a group of mutually recursive closures, with the name by
/// which the members call it.
#[derive(Debug)]
pub struct AliasedClosure {
    pub alias: AVariable,
    pub closure: Closure,
}

/// What an expression is.
#[derive(Debug)]
#[allow(inconsistent_fields)]
pub enum SingleExpressionKind {
    /// A reference to a variable.
    Variable(AVariable),
    /// A call of a function of another module.
    InterModuleCall {
        module: Box<SingleExpression>,
        name: Box<SingleExpression>,
        args: Vec<SingleExpression>,
    },
    /// A call of a function value.
    ApplyCall { fun: Box<SingleExpression>, args: Vec<SingleExpression> },
    /// Binds the values of `val` to `vars` in `body`.
    Let { val: Expression, vars: Vec<AVariable>, body: Box<SingleExpression> },
    /// Evaluates `body`; binds its values to `then_vars` in `then`, or what
    /// was thrown to `catch_vars` in `catch`.
    Try {
        body: Expression,
        then_vars: Vec<AVariable>,
        then: Box<SingleExpression>,
        catch_vars: Vec<AVariable>,
        catch: Box<SingleExpression>,
    },
    /// Matches the values of `val` against the clauses. `values` are the
    /// expressions that the patterns refer to.
    Case { val: Expression, clauses: Vec<Clause>, values: Vec<SingleExpression> },
    Atomic(AtomicLiteral),
    /// A reference to a function by name. `is_lambda` tells whether the name
    /// is that of an enclosing closure.
    NamedFunction { name: Variable, is_lambda: bool },
    ExternalNamedFunction { module: Variable, name: Variable },
    Tuple(Vec<SingleExpression>),
    List { head: Vec<SingleExpression>, tail: Box<SingleExpression> },
    MakeMap { values: Vec<(SingleExpression, SingleExpression)>, merge: Option<Box<SingleExpression>> },
    /// A binary made of segments, each a value with its options.
    Binary(Vec<(SingleExpression, Vec<SingleExpression>)>),
    PrimOp { name: Variable, args: Vec<SingleExpression> },
    /// Evaluates the first for effect, then the second.
    Do(Expression, Box<SingleExpression>),
    Receive {
        clauses: Vec<Clause>,
        pattern_values: Vec<SingleExpression>,
        timeout_time: Box<SingleExpression>,
        timeout_body: Box<SingleExpression>,
    },
    /// Binds one closure.
    BindClosure { closure: Closure, lambda_env: Option<LambdaEnvIdx>, env_ssa: SSAVariable },
    /// Binds a group of mutually recursive closures in `body`.
    BindClosures {
        closures: Vec<AliasedClosure>,
        body: Box<SingleExpression>,
        lambda_env: Option<LambdaEnvIdx>,
        env_ssa: SSAVariable,
    },
}

} // verus!

//! A module of the low-level representation: its functions and the table of
//! its closure environments.

use vstd::prelude::*;
use crate::lir::{ClosureEnv, Function, FunctionIdent, FunctionModel, Symbol};

verus! {

/// The closure environments of a module. For each one the table records how
/// many values it captures, once that is known.
pub struct ModuleEnvs {
    captures_num: Vec<Option<usize>>,
}

impl View for ModuleEnvs {
    type V = Seq<Option<usize>>;

    closed spec fn view(&self) -> Seq<Option<usize>> {
        self.captures_num@
    }
}

impl ModuleEnvs {
    /// A table without environments.
    pub fn new() -> (envs: ModuleEnvs)
        ensures
            envs@ == Seq::<Option<usize>>::empty(),
    {
        ModuleEnvs { captures_num: Vec::new() }
    }

    /// The number of environments.
    pub fn len(&self) -> (n: usize)
        ensures
            n == self@.len(),
    {
        self.captures_num.len()
    }

    /// Adds an environment and returns its index.
    pub fn add(&mut self) -> (env: ClosureEnv)
        ensures
            env.0 == old(self)@.len(),
            final(self)@ == old(self)@.push(None),
    {
        let env = ClosureEnv(self.captures_num.len());
        self.captures_num.push(None);
        env
    }

    /// Records that `env` captures `n` values. Nothing changes where the
    /// table has no such environment.
    pub fn env_set_captures_num(&mut self, env: ClosureEnv, n: usize)
        ensures
            env.0 < old(self)@.len() ==> final(self)@ == old(self)@.update(env.0 as int, Some(n)),
            env.0 >= old(self)@.len() ==> final(self)@ == old(self)@,
    {
        if env.0 < self.captures_num.len() {
            self.captures_num[env.0] = Some(n);
        }
    }

    /// The number of values that `env` captures, if it was recorded.
    pub fn env_captures_num(&self, env: ClosureEnv) -> (r: Option<usize>)
        ensures
            r == if env.0 < self@.len() {
                self@[env.0 as int]
            } else {
                None
            },
    {
        if env.0 < self.captures_num.len() {
            self.captures_num[env.0]
        } else {
            None
        }
    }

    /// A copy of the table.
    pub fn duplicate(&self) -> (r: ModuleEnvs)
        ensures
            r@ == self@,
    {
        let mut v: Vec<Option<usize>> = Vec::new();
        let mut i: usize = 0;
        while i < self.captures_num.len()
            invariant
                i <= self.captures_num.len(),
                v@ == self.captures_num@.subrange(0, i as int),
            decreases self.captures_num.len() - i,
        {
            v.push(self.captures_num[i]);
            assert(v@ =~= self.captures_num@.subrange(0, i + 1));
            i = i + 1;
        }
        assert(v@ =~= self.captures_num@);
        ModuleEnvs { captures_num: v }
    }
}

/// A module: a named set of functions, each found by its identity.
pub struct Module {
    pub name: Symbol,
    pub functions: Vec<Function>,
    pub envs: ModuleEnvs,
}

/// The mathematical value of a [`Module`].
pub struct ModuleModel {
    pub name: Symbol,
    pub functions: Seq<FunctionModel>,
    pub envs: Seq<Option<usize>>,
}

/// The values of the functions of a module.
pub open spec fn functions_view(fs: Seq<Function>) -> Seq<FunctionModel> {
    Seq::new(fs.len(), |i: int| fs[i]@)
}

impl View for Module {
    type V = ModuleModel;

    open spec fn view(&self) -> ModuleModel {
        ModuleModel {
            name: self.name,
            functions: functions_view(self.functions@),
            envs: self.envs@,
        }
    }
}

/// The position of the function `ident` among `fs`.
pub open spec fn find_function(fs: Seq<FunctionModel>, ident: FunctionIdent, k: nat) -> Option<int>
    decreases k,
{
    if k == 0 || k > fs.len() {
        None
    } else {
        match find_function(fs, ident, (k - 1) as nat) {
            Some(i) => Some(i),
            None => if fs[k - 1].ident == ident {
                Some(k - 1)
            } else {
                None
            },
        }
    }
}

/// The functions after `f` was stored: it takes the place of the first
/// function of the same identity, or comes last.
pub open spec fn store_function(fs: Seq<FunctionModel>, f: FunctionModel) -> Seq<FunctionModel> {
    match find_function(fs, f.ident, fs.len()) {
        Some(i) => fs.update(i, f),
        None => fs.push(f),
    }
}

/// Stores `fun` among `functions` under its identity.
pub fn insert_function(functions: &mut Vec<Function>, fun: Function)
    ensures
        functions_view(final(functions)@) == store_function(functions_view(old(functions)@), fun@),
{
    let ghost fs = functions_view(functions@);
    let ident = fun.ident();
    let mut i: usize = 0;
    while i < functions.len()
        invariant
            i <= functions.len(),
            *functions == *old(functions),
            fs == functions_view(functions@),
            ident == fun@.ident,
            find_function(fs, ident, i as nat) is None,
        decreases functions.len() - i,
    {
        assert(find_function(fs, ident, (i + 1) as nat) == if fs[i as int].ident == ident {
            Some(i as int)
        } else {
            None
        });
        if functions[i].ident() == ident {
            proof {
                lemma_find_function_stable(fs, ident, (i + 1) as nat, fs.len());
            }
            functions[i] = fun;
            assert(functions_view(functions@) =~= fs.update(i as int, fun@));
            return ;
        }
        i = i + 1;
    }
    functions.push(fun);
    assert(functions_view(functions@) =~= fs.push(fun@));
}

/// Once a function is found among the first `k`, it is found among any
/// greater number.
pub proof fn lemma_find_function_stable(fs: Seq<FunctionModel>, ident: FunctionIdent, k: nat, n: nat)
    requires
        find_function(fs, ident, k) is Some,
        k <= n <= fs.len(),
    ensures
        find_function(fs, ident, n) == find_function(fs, ident, k),
    decreases n,
{
    if k < n {
        lemma_find_function_stable(fs, ident, k, (n - 1) as nat);
        assert(find_function(fs, ident, n) == match find_function(fs, ident, (n - 1) as nat) {
            Some(i) => Some(i),
            None => if fs[n - 1].ident == ident {
                Some(n - 1)
            } else {
                None
            },
        });
    }
}

} // verus!

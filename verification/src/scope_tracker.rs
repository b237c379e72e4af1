//! The scope tracker: a stack of lexical scopes that resolves source names to
//! SSA names, and a stack of tracking frames that collects, for each closure
//! under construction, the outer variables its body refers to.

use vstd::prelude::*;
use crate::ssa_variable::{SSAVariable, SSAVariableGenerator};

verus! {

/// A source-level identifier.
pub type Variable = String;

/// What a scope binds: a value variable or a function name. The two kinds
/// live in disjoint namespaces.
#[derive(Debug)]
pub enum ScopeDefinition {
    Variable(Variable),
    Function(Variable),
}

/// The mathematical value of a [`ScopeDefinition`].
pub struct ScopeKey {
    pub function: bool,
    pub name: Seq<char>,
}

impl View for ScopeDefinition {
    type V = ScopeKey;

    open spec fn view(&self) -> ScopeKey {
        match *self {
            ScopeDefinition::Variable(n) => ScopeKey { function: false, name: n@ },
            ScopeDefinition::Function(n) => ScopeKey { function: true, name: n@ },
        }
    }
}

impl ScopeDefinition {
    /// Whether two definitions are of the same kind and name.
    pub fn same(&self, other: &ScopeDefinition) -> (r: bool)
        ensures
            r == (self@ == other@),
    {
        match self {
            ScopeDefinition::Variable(a) => match other {
                ScopeDefinition::Variable(b) => a.eq(b),
                ScopeDefinition::Function(_) => false,
            },
            ScopeDefinition::Function(a) => match other {
                ScopeDefinition::Variable(_) => false,
                ScopeDefinition::Function(b) => a.eq(b),
            },
        }
    }

    /// A copy of the definition.
    pub fn duplicate(&self) -> (r: ScopeDefinition)
        ensures
            r == *self,
    {
        match self {
            ScopeDefinition::Variable(a) => ScopeDefinition::Variable(a.clone()),
            ScopeDefinition::Function(a) => ScopeDefinition::Function(a.clone()),
        }
    }
}

/// One captured variable: its source name, the SSA name it has outside the
/// closure, and its position in the closure environment.
pub type Capture = (Variable, SSAVariable, usize);

/// The mathematical value of a [`Capture`].
pub struct CaptureModel {
    pub name: Seq<char>,
    pub ssa: SSAVariable,
    pub index: nat,
}

/// The value of one capture.
pub open spec fn capture_view(c: Capture) -> CaptureModel {
    CaptureModel { name: c.0@, ssa: c.1, index: c.2 as nat }
}

/// The value of a capture list.
pub open spec fn captures_view(cs: Seq<Capture>) -> Seq<CaptureModel> {
    Seq::new(cs.len(), |i: int| capture_view(cs[i]))
}

/// The value of one scope: its bindings in the order they were made. A later
/// binding of a key hides an earlier one.
pub open spec fn scope_view(s: Seq<(ScopeDefinition, SSAVariable)>) -> Seq<(ScopeKey, SSAVariable)> {
    Seq::new(s.len(), |i: int| (s[i].0@, s[i].1))
}

/// The closure environment of one closure, or of one group of mutually
/// recursive closures.
#[derive(Debug)]
pub struct LambdaEnv {
    pub captures: Vec<Capture>,
    /// Reserved; always empty.
    pub meta_binds: Vec<Variable>,
}

/// The mathematical value of a [`LambdaEnv`].
pub struct LambdaEnvModel {
    pub captures: Seq<CaptureModel>,
    pub meta_binds: Seq<Seq<char>>,
}

impl View for LambdaEnv {
    type V = LambdaEnvModel;

    open spec fn view(&self) -> LambdaEnvModel {
        LambdaEnvModel {
            captures: captures_view(self.captures@),
            meta_binds: Seq::new(self.meta_binds@.len(), |i: int| self.meta_binds@[i]@),
        }
    }
}

/// Dense index of a closure environment in the tracker's table.
#[derive(Clone, Copy, Debug, PartialEq, Eq, Hash, Structural)]
pub struct LambdaEnvIdx(pub usize);

/// The captures collected since a tracking frame was opened, and the height
/// of the scope stack at that moment.
pub struct FrameModel {
    pub start: nat,
    pub captures: Seq<CaptureModel>,
}

impl FrameModel {
    /// Whether the frame already holds a capture of `name`.
    pub open spec fn has(self, name: Seq<char>) -> bool {
        exists|i: int| 0 <= i < self.captures.len() && (#[trigger] self.captures[i]).name == name
    }

    /// The frame after a lookup of `key` resolved to `ssa` in the scope at
    /// height `depth`. Only value variables bound below the frame's start are
    /// captured, and each name once.
    pub open spec fn record(self, depth: nat, key: ScopeKey, ssa: SSAVariable) -> FrameModel {
        if !key.function && depth < self.start && !self.has(key.name) {
            FrameModel {
                start: self.start,
                captures: self.captures.push(
                    CaptureModel { name: key.name, ssa: ssa, index: self.captures.len() },
                ),
            }
        } else {
            self
        }
    }
}

/// The innermost binding of `key` in one scope.
pub open spec fn lookup_scope(scope: Seq<(ScopeKey, SSAVariable)>, key: ScopeKey) -> Option<
    SSAVariable,
>
    decreases scope.len(),
{
    if scope.len() == 0 {
        None
    } else if scope.last().0 == key {
        Some(scope.last().1)
    } else {
        lookup_scope(scope.drop_last(), key)
    }
}

/// The innermost binding of `key` in a stack of scopes, with the height of
/// the scope that holds it.
pub open spec fn resolve(scopes: Seq<Seq<(ScopeKey, SSAVariable)>>, key: ScopeKey) -> Option<
    (nat, SSAVariable),
>
    decreases scopes.len(),
{
    if scopes.len() == 0 {
        None
    } else {
        match lookup_scope(scopes.last(), key) {
            Some(v) => Some(((scopes.len() - 1) as nat, v)),
            None => resolve(scopes.drop_last(), key),
        }
    }
}

/// The mathematical state of a [`ScopeTracker`].
pub struct TrackerModel {
    /// The number of the next fresh name.
    pub next: nat,
    /// The scope stack, outermost first.
    pub scopes: Seq<Seq<(ScopeKey, SSAVariable)>>,
    /// The open tracking frames, outermost first.
    pub frames: Seq<FrameModel>,
    /// The closure environments registered so far.
    pub envs: Seq<LambdaEnvModel>,
}

impl TrackerModel {
    /// The state after `push_scope`.
    pub open spec fn push_scope(self, scope: Seq<(ScopeKey, SSAVariable)>) -> TrackerModel {
        TrackerModel { scopes: self.scopes.push(scope), ..self }
    }

    /// The state after `pop_scope`.
    pub open spec fn pop_scope(self) -> TrackerModel {
        TrackerModel { scopes: self.scopes.drop_last(), ..self }
    }

    /// The name that a lookup of `key` returns.
    pub open spec fn get_result(self, key: ScopeKey) -> Option<SSAVariable> {
        match resolve(self.scopes, key) {
            Some((_, v)) => Some(v),
            None => None,
        }
    }

    /// The state after a lookup of `key`: every open frame records the
    /// binding if it lies outside that frame.
    pub open spec fn get_state(self, key: ScopeKey) -> TrackerModel {
        match resolve(self.scopes, key) {
            Some((d, v)) => TrackerModel {
                frames: Seq::new(self.frames.len(), |i: int| self.frames[i].record(d, key, v)),
                ..self
            },
            None => self,
        }
    }

    /// Whether a fresh name is still to be had.
    pub open spec fn can_issue(self) -> bool {
        self.next < u64::MAX
    }

    /// The name that the next call of `new_ssa` returns.
    pub open spec fn fresh_name(self) -> SSAVariable {
        SSAVariable(self.next as u64)
    }

    /// The state after a name was issued.
    pub open spec fn issue(self) -> TrackerModel {
        TrackerModel { next: self.next + 1, ..self }
    }

    /// The state after `push_tracking`: a frame without captures is open at
    /// the height of the scope stack.
    pub open spec fn push_tracking(self) -> TrackerModel {
        TrackerModel {
            frames: self.frames.push(
                FrameModel { start: self.scopes.len(), captures: Seq::empty() },
            ),
            ..self
        }
    }

    /// The state after `pop_tracking`.
    pub open spec fn pop_tracking(self) -> TrackerModel {
        TrackerModel { frames: self.frames.drop_last(), ..self }
    }

    /// The state after `add_lambda_env`.
    pub open spec fn add_lambda_env(self, env: LambdaEnvModel) -> TrackerModel {
        TrackerModel { envs: self.envs.push(env), ..self }
    }

    /// The invariants of a tracker: names start at one, every bound or
    /// captured name was issued, frames nest, captures are numbered densely,
    /// and no frame holds a name twice.
    pub open spec fn wf(self) -> bool {
        &&& 1 <= self.next <= u64::MAX
        &&& forall|i: int, j: int|
            0 <= i < self.scopes.len() && 0 <= j < self.scopes[i].len() ==> 1 <= (
            #[trigger] self.scopes[i][j]).1.0 < self.next
        &&& forall|i: int| 0 <= i < self.frames.len() ==> (#[trigger] self.frames[i]).start <= self.scopes.len()
        &&& forall|i: int, j: int|
            0 <= i <= j < self.frames.len() ==> (#[trigger] self.frames[i]).start <= (
            #[trigger] self.frames[j]).start
        &&& forall|i: int, k: int|
            0 <= i < self.frames.len() && 0 <= k < self.frames[i].captures.len() ==> {
                &&& (#[trigger] self.frames[i].captures[k]).index == k
                &&& 1 <= self.frames[i].captures[k].ssa.0 < self.next
            }
        &&& forall|i: int, k: int, l: int|
            0 <= i < self.frames.len() && 0 <= k < l < self.frames[i].captures.len() ==> (
            #[trigger] self.frames[i].captures[k]).name != (#[trigger] self.frames[i].captures[l]).name
    }
}

struct Frame {
    start: usize,
    captures: Vec<Capture>,
}

impl View for Frame {
    type V = FrameModel;

    closed spec fn view(&self) -> FrameModel {
        FrameModel { start: self.start as nat, captures: captures_view(self.captures@) }
    }
}

/// Resolves source names to SSA names while a tree is walked.
pub struct ScopeTracker {
    stack: Vec<Vec<(ScopeDefinition, SSAVariable)>>,
    tracking: Vec<Frame>,
    generator: SSAVariableGenerator,
    lambda_envs: Vec<LambdaEnv>,
}

impl View for ScopeTracker {
    type V = TrackerModel;

    closed spec fn view(&self) -> TrackerModel {
        TrackerModel {
            next: self.generator.upcoming(),
            scopes: Seq::new(self.stack@.len(), |i: int| scope_view(self.stack@[i]@)),
            frames: Seq::new(self.tracking@.len(), |i: int| self.tracking@[i]@),
            envs: Seq::new(self.lambda_envs@.len(), |i: int| self.lambda_envs@[i]@),
        }
    }
}

fn find_in_scope(scope: &Vec<(ScopeDefinition, SSAVariable)>, key: &ScopeDefinition) -> (r: Option<
    SSAVariable,
>)
    ensures
        r == lookup_scope(scope_view(scope@), key@),
{
    let ghost whole = scope_view(scope@);
    let mut i: usize = scope.len();
    assert(whole.subrange(0, i as int) =~= whole);
    while i > 0
        invariant
            i <= scope.len(),
            whole == scope_view(scope@),
            lookup_scope(whole, key@) == lookup_scope(whole.subrange(0, i as int), key@),
        decreases i,
    {
        assert(whole.subrange(0, i as int).drop_last() =~= whole.subrange(0, i - 1));
        i = i - 1;
        if scope[i].0.same(key) {
            return Some(scope[i].1);
        }
    }
    assert(whole.subrange(0, 0).len() == 0);
    None
}

fn frame_has(frame: &Frame, name: &Variable) -> (r: bool)
    ensures
        r == frame@.has(name@),
{
    let mut i: usize = 0;
    while i < frame.captures.len()
        invariant
            i <= frame.captures.len(),
            forall|k: int| 0 <= k < i ==> (#[trigger] frame@.captures[k]).name != name@,
        decreases frame.captures.len() - i,
    {
        if frame.captures[i].0.eq(name) {
            assert(frame@.captures[i as int].name == name@);
            return true;
        }
        i = i + 1;
    }
    false
}

impl ScopeTracker {
    /// A tracker with no scope, no frame and no environment, whose first
    /// fresh name is number one.
    pub fn new() -> (t: ScopeTracker)
        ensures
            t@ == (TrackerModel {
                next: 1,
                scopes: Seq::empty(),
                frames: Seq::empty(),
                envs: Seq::empty(),
            }),
            t@.wf(),
    {
        let t = ScopeTracker {
            stack: Vec::new(),
            tracking: Vec::new(),
            generator: SSAVariableGenerator::initial(),
            lambda_envs: Vec::new(),
        };
        assert(t@.scopes =~= Seq::empty());
        assert(t@.frames =~= Seq::empty());
        assert(t@.envs =~= Seq::empty());
        t
    }

    /// A tracker with no scope, no frame and no environment that takes its
    /// fresh names from `generator`.
    pub fn with_generator(generator: SSAVariableGenerator) -> (t: ScopeTracker)
        ensures
            t@ == (TrackerModel {
                next: generator.upcoming(),
                scopes: Seq::empty(),
                frames: Seq::empty(),
                envs: Seq::empty(),
            }),
    {
        let t = ScopeTracker {
            stack: Vec::new(),
            tracking: Vec::new(),
            generator: generator,
            lambda_envs: Vec::new(),
        };
        assert(t@.scopes =~= Seq::empty());
        assert(t@.frames =~= Seq::empty());
        assert(t@.envs =~= Seq::empty());
        t
    }

    /// The number of the next fresh name never leaves the range of `u64`.
    pub proof fn lemma_next_bounded(&self)
        ensures
            self@.next <= u64::MAX,
    {
        self.generator.lemma_upcoming_bounded();
    }

    /// Enters a scope with the given bindings.
    pub fn push_scope(&mut self, scope: Vec<(ScopeDefinition, SSAVariable)>)
        ensures
            final(self)@ == old(self)@.push_scope(scope_view(scope@)),
    {
        self.stack.push(scope);
        assert(self@.scopes =~= old(self)@.scopes.push(scope_view(scope@)));
        assert(self@.frames =~= old(self)@.frames);
        assert(self@.envs =~= old(self)@.envs);
    }

    /// Leaves the innermost scope.
    pub fn pop_scope(&mut self)
        requires
            old(self)@.scopes.len() > 0,
        ensures
            final(self)@ == old(self)@.pop_scope(),
    {
        self.stack.pop();
        assert(self@.scopes =~= old(self)@.scopes.drop_last());
        assert(self@.frames =~= old(self)@.frames);
        assert(self@.envs =~= old(self)@.envs);
    }

    /// Looks `key` up, innermost scope first. A value variable found outside
    /// an open tracking frame becomes a capture of that frame.
    pub fn get(&mut self, key: &ScopeDefinition) -> (r: Option<SSAVariable>)
        ensures
            r == old(self)@.get_result(key@),
            final(self)@ == old(self)@.get_state(key@),
    {
        let ghost scopes = self@.scopes;
        let mut d: usize = self.stack.len();
        let mut found: Option<SSAVariable> = None;
        assert(scopes.subrange(0, d as int) =~= scopes);
        while d > 0
            invariant_except_break
                found is None,
                resolve(scopes, key@) == resolve(scopes.subrange(0, d as int), key@),
            invariant
                d <= self.stack.len(),
                *self == *old(self),
                scopes == self@.scopes,
            ensures
                match found {
                    Some(v) => resolve(scopes, key@) == Some((d as nat, v)),
                    None => resolve(scopes, key@) is None,
                },
            decreases d,
        {
            assert(scopes.subrange(0, d as int).drop_last() =~= scopes.subrange(0, d - 1));
            d = d - 1;
            assert(scopes.subrange(0, d + 1).last() == scope_view(self.stack@[d as int]@));
            let hit = find_in_scope(&self.stack[d], key);
            if hit.is_some() {
                found = hit;
                break ;
            }
        }
        let ssa = match found {
            Some(v) => v,
            None => {
                assert(scopes.subrange(0, 0).len() == 0) by {
                    if d != 0 {
                    }
                }
                return None;
            },
        };
        let name = match key {
            ScopeDefinition::Variable(n) => n,
            ScopeDefinition::Function(_) => {
                assert(self@.frames =~= old(self)@.get_state(key@).frames);
                return Some(ssa);
            },
        };
        let mut i: usize = 0;
        while i < self.tracking.len()
            invariant
                i <= self.tracking.len(),
                self.tracking.len() == old(self).tracking.len(),
                self.stack == old(self).stack,
                self.generator == old(self).generator,
                self.lambda_envs == old(self).lambda_envs,
                key@ == (ScopeKey { function: false, name: name@ }),
                forall|k: int| i <= k < self.tracking.len() ==> self.tracking@[k] == old(self).tracking@[k],
                forall|k: int|
                    0 <= k < i ==> (#[trigger] self.tracking@[k])@ == old(self).tracking@[k]@.record(
                        d as nat,
                        key@,
                        ssa,
                    ),
            decreases self.tracking.len() - i,
        {
            let ghost before = self.tracking@[i as int]@;
            if d < self.tracking[i].start && !frame_has(&self.tracking[i], name) {
                let index = self.tracking[i].captures.len();
                let ghost old_caps = self.tracking@[i as int].captures@;
                self.tracking[i].captures.push((name.clone(), ssa, index));
                assert(captures_view(self.tracking@[i as int].captures@) =~= captures_view(
                    old_caps,
                ).push(CaptureModel { name: name@, ssa: ssa, index: index as nat }));
            }
            assert(self.tracking@[i as int]@ == before.record(d as nat, key@, ssa));
            i = i + 1;
        }
        assert(self@.frames =~= old(self)@.get_state(key@).frames);
        Some(ssa)
    }

    /// Issues a fresh name, or `None` when the generator is exhausted.
    pub fn new_ssa(&mut self) -> (r: Option<SSAVariable>)
        ensures
            r is Some <==> old(self)@.can_issue(),
            r is Some ==> r == Some(old(self)@.fresh_name()) && final(self)@ == old(self)@.issue(),
            r is None ==> *final(self) == *old(self),
    {
        let r = self.generator.next();
        if r.is_some() {
            assert(self@.scopes =~= old(self)@.scopes);
            assert(self@.frames =~= old(self)@.frames);
            assert(self@.envs =~= old(self)@.envs);
        }
        r
    }

    /// Opens a tracking frame at the current height of the scope stack.
    pub fn push_tracking(&mut self)
        ensures
            final(self)@ == old(self)@.push_tracking(),
    {
        let start = self.stack.len();
        self.tracking.push(Frame { start: start, captures: Vec::new() });
        assert(captures_view(Seq::<Capture>::empty()) =~= Seq::<CaptureModel>::empty());
        assert(self@.frames =~= old(self)@.push_tracking().frames);
        assert(self@.scopes =~= old(self)@.scopes);
        assert(self@.envs =~= old(self)@.envs);
    }

    /// Closes the innermost tracking frame and returns its captures in the
    /// order in which they were first met.
    pub fn pop_tracking(&mut self) -> (captures: Vec<Capture>)
        requires
            old(self)@.frames.len() > 0,
        ensures
            captures_view(captures@) == old(self)@.frames.last().captures,
            final(self)@ == old(self)@.pop_tracking(),
    {
        let frame = self.tracking.pop().unwrap();
        assert(self@.frames =~= old(self)@.frames.drop_last());
        assert(self@.scopes =~= old(self)@.scopes);
        assert(self@.envs =~= old(self)@.envs);
        frame.captures
    }

    /// Registers a closure environment and returns its index.
    pub fn add_lambda_env(&mut self, env: LambdaEnv) -> (idx: LambdaEnvIdx)
        ensures
            idx.0 == old(self)@.envs.len(),
            final(self)@ == old(self)@.add_lambda_env(env@),
    {
        let idx = LambdaEnvIdx(self.lambda_envs.len());
        self.lambda_envs.push(env);
        assert(self@.envs =~= old(self)@.envs.push(env@));
        assert(self@.scopes =~= old(self)@.scopes);
        assert(self@.frames =~= old(self)@.frames);
        idx
    }

    /// The number of registered closure environments.
    pub fn lambda_env_count(&self) -> (n: usize)
        ensures
            n == self@.envs.len(),
    {
        self.lambda_envs.len()
    }

    /// The closure environment with the given index.
    pub fn lambda_env(&self, idx: LambdaEnvIdx) -> (env: Option<&LambdaEnv>)
        ensures
            idx.0 < self@.envs.len() ==> env is Some && env->0@ == self@.envs[idx.0 as int],
            idx.0 >= self@.envs.len() ==> env is None,
    {
        if idx.0 < self.lambda_envs.len() {
            Some(&self.lambda_envs[idx.0])
        } else {
            None
        }
    }
}

} // verus!

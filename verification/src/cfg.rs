//! The control-flow graph of a function: basic blocks joined by edges. The
//! graph itself is kept by `petgraph`; blocks and edges are referred to by
//! their indices in it.

use vstd::prelude::*;
use petgraph::graph::{EdgeIndex, Graph, NodeIndex};
use petgraph::Directed;
use crate::ssa_variable::SSAVariable;
use crate::lir::{ConstantTerm, OpKind};
use crate::token::text_of;

verus! {

/// The label of a basic block: the index of its node in the graph.
#[derive(Debug, Copy, Clone, Eq, PartialEq, Hash, Structural)]
pub struct LabelN(pub usize);

/// The name of an edge: its index in the graph.
#[derive(Debug, Copy, Clone, Eq, PartialEq, Hash, Structural)]
pub struct EdgeN(pub usize);

/// What an operation reads.
#[derive(Debug, Copy, Clone, Eq, PartialEq, Structural)]
pub enum Source {
    Variable(SSAVariable),
    Constant(ConstantTerm),
}

/// Chooses, at the entry of a block, the value of a variable by the edge
/// over which the block was entered.
#[derive(Debug)]
pub struct Phi {
    pub entries: Vec<(EdgeN, Source)>,
    pub ssa: SSAVariable,
}

/// An operation of a basic block.
#[derive(Debug)]
pub struct BlockOp {
    pub kind: OpKind,
    pub reads: Vec<Source>,
    pub writes: Vec<SSAVariable>,
}

/// A node of the graph: a block of operations that is entered at its top,
/// after its phi nodes have chosen their values, and left over one of its
/// outgoing edges.
#[derive(Debug)]
pub struct BasicBlock {
    pub label: Option<LabelN>,
    pub phi_nodes: Vec<Phi>,
    pub ops: Vec<BlockOp>,
    pub outgoing_edges: Vec<EdgeN>,
}

/// An edge of the graph, with the variables that are written when control
/// passes over it.
#[derive(Debug)]
pub struct BasicBlockEdge {
    writes: Vec<SSAVariable>,
}

impl BasicBlockEdge {
    /// An edge over which `writes` are written.
    pub fn new(writes: Vec<SSAVariable>) -> (e: BasicBlockEdge)
        ensures
            e.writes() == writes,
    {
        BasicBlockEdge { writes: writes }
    }

    /// The variables that are written over the edge.
    pub closed spec fn writes(&self) -> Vec<SSAVariable> {
        self.writes
    }
}

#[verifier::external_type_specification]
#[verifier::external_body]
#[verifier::reject_recursive_types(N)]
#[verifier::reject_recursive_types(E)]
#[verifier::reject_recursive_types(Ty)]
#[verifier::reject_recursive_types(Ix)]
pub struct ExGraph<N, E, Ty, Ix>(Graph<N, E, Ty, Ix>);

#[verifier::external_type_specification]
#[verifier::external_body]
pub struct ExDirected(Directed);

/// The node weights of a graph, by node index.
pub uninterp spec fn graph_blocks(g: Graph<BasicBlock, BasicBlockEdge>) -> Seq<BasicBlock>;

/// The source and target of every edge of a graph, by edge index.
pub uninterp spec fn graph_edges(g: Graph<BasicBlock, BasicBlockEdge>) -> Seq<(usize, usize)>;

/// `Graph::new`: a graph without nodes and edges.
#[verifier::external_body]
fn graph_new() -> (g: Graph<BasicBlock, BasicBlockEdge>)
    ensures
        graph_blocks(g) == Seq::<BasicBlock>::empty(),
        graph_edges(g) == Seq::<(usize, usize)>::empty(),
{
    Graph::new()
}

/// `Graph::node_count`: the number of nodes.
#[verifier::external_body]
fn graph_node_count(g: &Graph<BasicBlock, BasicBlockEdge>) -> (n: usize)
    ensures
        n == graph_blocks(*g).len(),
{
    g.node_count()
}

/// `Graph::edge_count`: the number of edges.
#[verifier::external_body]
fn graph_edge_count(g: &Graph<BasicBlock, BasicBlockEdge>) -> (n: usize)
    ensures
        n == graph_edges(*g).len(),
{
    g.edge_count()
}

/// `Graph::add_node`: the node gets the next index and is returned; the
/// edges stay. The graph panics when its index type, `u32`, cannot count
/// one node more, so that is asked of the caller.
#[verifier::external_body]
fn graph_add_node(g: &mut Graph<BasicBlock, BasicBlockEdge>, weight: BasicBlock) -> (n: usize)
    requires
        graph_blocks(*old(g)).len() < u32::MAX,
    ensures
        n == graph_blocks(*old(g)).len(),
        graph_blocks(*final(g)) == graph_blocks(*old(g)).push(weight),
        graph_edges(*final(g)) == graph_edges(*old(g)),
{
    g.add_node(weight).index()
}

/// `Graph::add_edge`: the edge from `a` to `b` gets the next index and is
/// returned; the node weights stay. The graph panics where a node does not
/// exist or `u32` cannot count one edge more.
#[verifier::external_body]
fn graph_add_edge(
    g: &mut Graph<BasicBlock, BasicBlockEdge>,
    a: usize,
    b: usize,
    weight: BasicBlockEdge,
) -> (e: usize)
    requires
        a < graph_blocks(*old(g)).len() <= u32::MAX,
        b < graph_blocks(*old(g)).len(),
        graph_edges(*old(g)).len() < u32::MAX,
    ensures
        e == graph_edges(*old(g)).len(),
        graph_edges(*final(g)) == graph_edges(*old(g)).push((a, b)),
        graph_blocks(*final(g)) == graph_blocks(*old(g)),
{
    g.add_edge(NodeIndex::new(a), NodeIndex::new(b), weight).index()
}

/// `Graph::node_weight`: the weight of node `a`.
#[verifier::external_body]
fn graph_node_weight(g: &Graph<BasicBlock, BasicBlockEdge>, a: usize) -> (w: &BasicBlock)
    requires
        a < graph_blocks(*g).len() <= u32::MAX,
    ensures
        *w == graph_blocks(*g)[a as int],
{
    g.node_weight(NodeIndex::new(a)).unwrap()
}

/// `Graph::node_weight_mut`: the weight of node `a`, to be changed in
/// place. Nothing else of the graph changes.
#[verifier::external_body]
fn graph_node_weight_mut(g: &mut Graph<BasicBlock, BasicBlockEdge>, a: usize) -> (w: &mut BasicBlock)
    requires
        a < graph_blocks(*old(g)).len() <= u32::MAX,
    ensures
        *w == graph_blocks(*old(g))[a as int],
        graph_blocks(*final(g)) == graph_blocks(*old(g)).update(a as int, *final(w)),
        graph_edges(*final(g)) == graph_edges(*old(g)),
{
    g.node_weight_mut(NodeIndex::new(a)).unwrap()
}

/// `Graph::edge_endpoints`: the source and target of edge `e`.
#[verifier::external_body]
fn graph_edge_endpoints(g: &Graph<BasicBlock, BasicBlockEdge>, e: usize) -> (r: (usize, usize))
    requires
        e < graph_edges(*g).len() <= u32::MAX,
    ensures
        r == graph_edges(*g)[e as int],
{
    let (a, b) = g.edge_endpoints(EdgeIndex::new(e)).unwrap();
    (a.index(), b.index())
}

/// `Graph::raw_nodes`: the node weights in the order of the node indices.
#[verifier::external_body]
fn graph_node_weights(g: &Graph<BasicBlock, BasicBlockEdge>) -> (r: Vec<&BasicBlock>)
    ensures
        r@.len() == graph_blocks(*g).len(),
        forall|i: int| 0 <= i < r@.len() ==> *#[trigger] r@[i] == graph_blocks(*g)[i],
{
    g.raw_nodes().iter().map(|n| &n.weight).collect()
}

/// `Graph::node_weights_mut`: the node weights in the order of the node
/// indices, each to be changed in place. Nothing else of the graph changes.
#[verifier::external_body]
fn graph_node_weights_mut(g: &mut Graph<BasicBlock, BasicBlockEdge>) -> (r: Vec<&mut BasicBlock>)
    ensures
        r@.len() == graph_blocks(*old(g)).len(),
        graph_blocks(*final(g)).len() == graph_blocks(*old(g)).len(),
        forall|i: int| 0 <= i < r@.len() ==> *#[trigger] r@[i] == graph_blocks(*old(g))[i],
        forall|i: int|
            0 <= i < r@.len() ==> *final(#[trigger] r@[i]) == graph_blocks(*final(g))[i],
        graph_edges(*final(g)) == graph_edges(*old(g)),
{
    g.node_weights_mut().collect()
}

/// `Graph::node_indices`: the node indices in ascending order.
#[verifier::external_body]
fn graph_node_indices(g: &Graph<BasicBlock, BasicBlockEdge>) -> (r: Vec<usize>)
    ensures
        r@.len() == graph_blocks(*g).len(),
        forall|i: int| 0 <= i < r@.len() ==> #[trigger] r@[i] == i,
{
    g.node_indices().map(|i| i.index()).collect()
}

/// The decimal digits of `n`.
pub open spec fn decimal(n: nat) -> Seq<char>
    decreases n,
{
    if n < 10 {
        seq![digit(n)]
    } else {
        decimal(n / 10).push(digit(n % 10))
    }
}

/// The digit for `d`.
pub open spec fn digit(d: nat) -> char {
    if d == 0 {
        '0'
    } else if d == 1 {
        '1'
    } else if d == 2 {
        '2'
    } else if d == 3 {
        '3'
    } else if d == 4 {
        '4'
    } else if d == 5 {
        '5'
    } else if d == 6 {
        '6'
    } else if d == 7 {
        '7'
    } else if d == 8 {
        '8'
    } else {
        '9'
    }
}

fn digit_char(d: usize) -> (c: char)
    requires
        d < 10,
    ensures
        c == digit(d as nat),
{
    if d == 0 {
        '0'
    } else if d == 1 {
        '1'
    } else if d == 2 {
        '2'
    } else if d == 3 {
        '3'
    } else if d == 4 {
        '4'
    } else if d == 5 {
        '5'
    } else if d == 6 {
        '6'
    } else if d == 7 {
        '7'
    } else if d == 8 {
        '8'
    } else {
        '9'
    }
}

/// Appends the decimal digits of `n` to `out`.
fn push_decimal(out: &mut Vec<char>, n: usize)
    ensures
        final(out)@ == old(out)@ + decimal(n as nat),
    decreases n,
{
    if n < 10 {
        out.push(digit_char(n));
        assert(out@ =~= old(out)@ + decimal(n as nat));
    } else {
        push_decimal(out, n / 10);
        out.push(digit_char(n % 10));
        assert(out@ =~= old(out)@ + decimal(n as nat));
    }
}

impl LabelN {
    /// The label as it is printed: `L` and the index in decimal.
    pub fn to_text(&self) -> (s: String)
        ensures
            s@ == seq!['L'] + decimal(self.0 as nat),
    {
        let mut out: Vec<char> = Vec::new();
        out.push('L');
        assert(out@ =~= seq!['L']);
        push_decimal(&mut out, self.0);
        text_of(&out)
    }
}

/// The mathematical value of a [`FunctionCfg`].
pub struct CfgModel {
    pub entry: LabelN,
    /// The blocks by label.
    pub blocks: Seq<BasicBlock>,
    /// The source and target of every edge, by edge name.
    pub edges: Seq<(usize, usize)>,
}

impl CfgModel {
    /// The invariants of a graph: the entry is a block, every block
    /// carries its own label, and the outgoing edges of a block are edges
    /// that start at it.
    pub open spec fn wf(self) -> bool {
        &&& self.blocks.len() <= u32::MAX
        &&& self.edges.len() <= u32::MAX
        &&& self.entry.0 < self.blocks.len()
        &&& forall|i: int|
            0 <= i < self.blocks.len() ==> (#[trigger] self.blocks[i]).label == Some(
                LabelN(i as usize),
            )
        &&& forall|i: int, k: int|
            0 <= i < self.blocks.len() && 0 <= k < self.blocks[i].outgoing_edges@.len() ==> {
                &&& (#[trigger] self.blocks[i].outgoing_edges@[k]).0 < self.edges.len()
                &&& self.edges[self.blocks[i].outgoing_edges@[k].0 as int].0 == i
            }
        &&& forall|e: int|
            0 <= e < self.edges.len() ==> (#[trigger] self.edges[e]).0 < self.blocks.len()
                && self.edges[e].1 < self.blocks.len()
    }

    /// The targets of the outgoing edges of a block, in order.
    pub open spec fn branch_slots(self, lbl: LabelN) -> Seq<LabelN> {
        let out = self.blocks[lbl.0 as int].outgoing_edges@;
        Seq::new(out.len(), |k: int| LabelN(self.edges[out[k].0 as int].1))
    }
}

/// The control-flow graph of a function.
pub struct FunctionCfg {
    entry: LabelN,
    cfg: Graph<BasicBlock, BasicBlockEdge>,
}

impl View for FunctionCfg {
    type V = CfgModel;

    closed spec fn view(&self) -> CfgModel {
        CfgModel { entry: self.entry, blocks: graph_blocks(self.cfg), edges: graph_edges(self.cfg) }
    }
}

impl FunctionCfg {
    /// A graph of one empty block, the entry.
    pub fn new() -> (r: FunctionCfg)
        ensures
            r@.wf(),
            r@.entry == LabelN(0),
            r@.blocks.len() == 1,
            r@.blocks[0].phi_nodes@.len() == 0,
            r@.blocks[0].ops@.len() == 0,
            r@.blocks[0].outgoing_edges@.len() == 0,
            r@.edges.len() == 0,
    {
        let mut cfg = graph_new();
        let entry = graph_add_node(
            &mut cfg,
            BasicBlock {
                label: Some(LabelN(0)),
                phi_nodes: Vec::new(),
                ops: Vec::new(),
                outgoing_edges: Vec::new(),
            },
        );
        FunctionCfg { entry: LabelN(entry), cfg: cfg }
    }

    /// Adds an empty block and returns its label, or `None` where the
    /// graph cannot count one block more.
    pub fn add_block(&mut self) -> (r: Option<LabelN>)
        requires
            old(self)@.wf(),
        ensures
            final(self)@.wf(),
            final(self)@.entry == old(self)@.entry,
            final(self)@.edges == old(self)@.edges,
            r is Some <==> old(self)@.blocks.len() + 1 < u32::MAX,
            match r {
                Some(lbl) => {
                    &&& lbl.0 == old(self)@.blocks.len()
                    &&& final(self)@.blocks.len() == old(self)@.blocks.len() + 1
                    &&& forall|i: int|
                        0 <= i < old(self)@.blocks.len() ==> final(self)@.blocks[i] == old(
                            self,
                        )@.blocks[i]
                    &&& final(self)@.blocks[lbl.0 as int].phi_nodes@.len() == 0
                    &&& final(self)@.blocks[lbl.0 as int].ops@.len() == 0
                    &&& final(self)@.blocks[lbl.0 as int].outgoing_edges@.len() == 0
                },
                None => old(self)@.blocks.len() + 1 >= u32::MAX && final(self)@ == old(self)@,
            },
    {
        let n = graph_node_count(&self.cfg);
        if n >= 0xffff_fffe {
            return None;
        }
        let lbl = graph_add_node(
            &mut self.cfg,
            BasicBlock {
                label: Some(LabelN(n)),
                phi_nodes: Vec::new(),
                ops: Vec::new(),
                outgoing_edges: Vec::new(),
            },
        );
        Some(LabelN(lbl))
    }

    /// Adds an edge from `from` to `to` over which `writes` are written,
    /// and returns its name, or `None` where the graph cannot count one
    /// edge more.
    pub fn add_edge(&mut self, from: LabelN, to: LabelN, writes: Vec<SSAVariable>) -> (r: Option<
        EdgeN,
    >)
        requires
            old(self)@.wf(),
            from.0 < old(self)@.blocks.len(),
            to.0 < old(self)@.blocks.len(),
        ensures
            final(self)@.wf(),
            final(self)@.entry == old(self)@.entry,
            final(self)@.blocks.len() == old(self)@.blocks.len(),
            r is Some <==> old(self)@.edges.len() + 1 < u32::MAX,
            match r {
                Some(e) => {
                    &&& e.0 == old(self)@.edges.len()
                    &&& final(self)@.edges == old(self)@.edges.push((from.0, to.0))
                    &&& final(self)@.branch_slots(from) == old(self)@.branch_slots(from).push(to)
                    &&& forall|i: int|
                        0 <= i < old(self)@.blocks.len() && i != from.0 ==> final(self)@.blocks[i]
                            == old(self)@.blocks[i]
                },
                None => old(self)@.edges.len() + 1 >= u32::MAX && final(self)@ == old(self)@,
            },
    {
        let ghost m0 = self@;
        let n = graph_edge_count(&self.cfg);
        if n >= 0xffff_fffe {
            return None;
        }
        let e = graph_add_edge(&mut self.cfg, from.0, to.0, BasicBlockEdge::new(writes));
        let ghost out0 = m0.blocks[from.0 as int].outgoing_edges@;
        let block = graph_node_weight_mut(&mut self.cfg, from.0);
        block.outgoing_edges.push(EdgeN(e));
        proof {
            let m1 = self@;
            assert(m1.blocks[from.0 as int].outgoing_edges@ == out0.push(EdgeN(e)));
            assert(m1.branch_slots(from) =~= m0.branch_slots(from).push(to));
        }
        Some(EdgeN(e))
    }

    /// The blocks in the order of their labels.
    pub fn blocks_iter(&self) -> (r: Vec<&BasicBlock>)
        ensures
            r@.len() == self@.blocks.len(),
            forall|i: int| 0 <= i < r@.len() ==> *#[trigger] r@[i] == self@.blocks[i],
    {
        graph_node_weights(&self.cfg)
    }

    /// The blocks in the order of their labels, each to be changed in
    /// place. The label and the outgoing edges of a block must be left as
    /// they are.
    pub fn blocks_iter_mut(&mut self) -> (r: Vec<&mut BasicBlock>)
        ensures
            r@.len() == old(self)@.blocks.len(),
            forall|i: int| 0 <= i < r@.len() ==> *#[trigger] r@[i] == old(self)@.blocks[i],
            final(self)@.entry == old(self)@.entry,
            final(self)@.edges == old(self)@.edges,
            final(self)@.blocks.len() == old(self)@.blocks.len(),
            forall|i: int|
                0 <= i < r@.len() ==> *final(#[trigger] r@[i]) == final(self)@.blocks[i],
    {
        graph_node_weights_mut(&mut self.cfg)
    }

    /// The labels of the blocks in ascending order.
    pub fn labels_iter(&self) -> (r: Vec<LabelN>)
        ensures
            r@.len() == self@.blocks.len(),
            forall|i: int| 0 <= i < r@.len() ==> #[trigger] r@[i] == LabelN(i as usize),
    {
        let indices = graph_node_indices(&self.cfg);
        let mut labels: Vec<LabelN> = Vec::new();
        let mut i: usize = 0;
        while i < indices.len()
            invariant
                i <= indices.len(),
                labels@.len() == i,
                forall|k: int| 0 <= k < indices@.len() ==> #[trigger] indices@[k] == k,
                forall|k: int| 0 <= k < i ==> #[trigger] labels@[k] == LabelN(k as usize),
            decreases indices.len() - i,
        {
            labels.push(LabelN(indices[i]));
            i = i + 1;
        }
        labels
    }

    /// The label of the entry block.
    pub fn entry(&self) -> (r: LabelN)
        ensures
            r == self@.entry,
    {
        self.entry
    }

    /// The block with the label `lbl`.
    pub fn block(&self, lbl: LabelN) -> (r: &BasicBlock)
        requires
            self@.wf(),
            lbl.0 < self@.blocks.len(),
        ensures
            *r == self@.blocks[lbl.0 as int],
    {
        graph_node_weight(&self.cfg, lbl.0)
    }

    /// The outgoing edges of the block `lbl`, in order.
    pub fn jumps_iter(&self, lbl: LabelN) -> (r: Vec<EdgeN>)
        requires
            self@.wf(),
            lbl.0 < self@.blocks.len(),
        ensures
            r@ == self@.blocks[lbl.0 as int].outgoing_edges@,
    {
        let node = graph_node_weight(&self.cfg, lbl.0);
        let mut out: Vec<EdgeN> = Vec::new();
        let mut i: usize = 0;
        while i < node.outgoing_edges.len()
            invariant
                i <= node.outgoing_edges.len(),
                out@ == node.outgoing_edges@.subrange(0, i as int),
            decreases node.outgoing_edges.len() - i,
        {
            out.push(node.outgoing_edges[i]);
            assert(out@ =~= node.outgoing_edges@.subrange(0, i + 1));
            i = i + 1;
        }
        assert(out@ =~= node.outgoing_edges@);
        out
    }

    /// The blocks that the block `lbl` branches to, in the order of its
    /// outgoing edges.
    pub fn branch_slots(&self, lbl: LabelN) -> (r: Vec<LabelN>)
        requires
            self@.wf(),
            lbl.0 < self@.blocks.len(),
        ensures
            r@ == self@.branch_slots(lbl),
    {
        let jumps = self.jumps_iter(lbl);
        let mut slots: Vec<LabelN> = Vec::new();
        let mut i: usize = 0;
        while i < jumps.len()
            invariant
                i <= jumps.len(),
                self@.wf(),
                lbl.0 < self@.blocks.len(),
                jumps@ == self@.blocks[lbl.0 as int].outgoing_edges@,
                slots@.len() == i,
                forall|k: int| 0 <= k < i ==> #[trigger] slots@[k] == self@.branch_slots(lbl)[k],
            decreases jumps.len() - i,
        {
            assert(self@.blocks[lbl.0 as int].outgoing_edges@[i as int].0 < self@.edges.len());
            slots.push(self.edge_target(jumps[i]));
            i = i + 1;
        }
        assert(slots@ =~= self@.branch_slots(lbl));
        slots
    }

    /// The block that the edge `lbl` leads to.
    pub fn edge_target(&self, lbl: EdgeN) -> (r: LabelN)
        requires
            self@.wf(),
            lbl.0 < self@.edges.len(),
        ensures
            r == LabelN(self@.edges[lbl.0 as int].1),
    {
        LabelN(graph_edge_endpoints(&self.cfg, lbl.0).1)
    }
}

} // verus!

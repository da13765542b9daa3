//! Compiling a graph into an immutable schedule with a table of parameter
//! slots, and the integer side of running it: event dispatch to gates,
//! parameter snapshots, block sizes and dependency levels.
use vstd::prelude::*;

use crate::error::{ErrorView, GraphError};
use crate::event::{sorted_by_frame, Event, EventKind, EventWindow};
use crate::graph::{
    graph_wf, has_output, params_wf, Graph, GraphView, NodeId, NodeKind, NodeView, Param,
    AMP_DEFAULT_BITS, FREQ_DEFAULT_BITS, GAIN_DEFAULT_BITS,
};
use crate::text::{decimal, decimal_string, same_text};
use crate::topo::{acyclic, first_blocked, is_topo_order, lemma_perm_covers};

verus! {

/// Frames per block that a compiled graph processes by default.
pub const MAX_BLOCK: usize = 64;

/// Gates per compiled graph that receive events (size of the dispatch table).
pub const MAX_GATES: usize = 8;

/// Level changes per gate per block (bounded work).
pub const MAX_GATE_EVENTS: usize = 16;

#[derive(Debug, Clone, Copy)]
pub struct CompileOptions {
    pub max_block: usize,
}

impl Default for CompileOptions {
    fn default() -> (r: Self)
        ensures
            r.max_block == MAX_BLOCK,
    {
        Self { max_block: MAX_BLOCK }
    }
}

/// Source of the generations that identify compiled engines. An application
/// keeps one for the whole process so that every engine gets its own.
pub struct Generations {
    next: u64,
}

impl Generations {
    /// The generation the next engine gets.
    pub closed spec fn peek(&self) -> u64 {
        self.next
    }

    pub fn new() -> (r: Self)
        ensures
            r.peek() == 1,
    {
        Generations { next: 1 }
    }
}

/// Hands out the current generation and advances the counter by one
/// (wrapping, like an atomic `fetch_add`).
pub fn next_generation(gens: &mut Generations) -> (r: u64)
    ensures
        r == old(gens).peek(),
        final(gens).peek() == old(gens).peek().wrapping_add(1),
{
    let r = gens.next;
    gens.next = gens.next.wrapping_add(1);
    r
}

/// An engine compiled right after another from the same source of
/// generations carries a different generation.
pub proof fn lemma_next_generation_differs(g: u64)
    ensures
        g.wrapping_add(1) != g,
{
}

/// The generation a source hands out `d` handouts after one that gave `p`.
pub open spec fn advanced(p: u64, d: nat) -> u64
    decreases d,
{
    if d == 0 {
        p
    } else {
        advanced(p, (d - 1) as nat).wrapping_add(1)
    }
}

/// Engines compiled one after another from one source of generations get
/// rising generations: `d` handouts after one that gave `p`, the source gives
/// `p + d`, as long as that stays within `u64`. A new source starts at 1, so
/// its engines get 1, 2, 3, ... in compile order.
pub proof fn lemma_generations_rise(p: u64, d: nat)
    requires
        p + d <= u64::MAX,
    ensures
        advanced(p, d) == p + d,
    decreases d,
{
    if d > 0 {
        lemma_generations_rise(p, (d - 1) as nat);
    }
}

/// One parameter slot: the bit pattern of an `f32` value.
#[derive(Debug)]
pub struct ParamSlot {
    pub bits: u32,
}

impl ParamSlot {
    pub fn new(bits: u32) -> (r: Self)
        ensures
            r.bits == bits,
    {
        Self { bits }
    }

    pub fn store(&mut self, bits: u32)
        ensures
            final(self).bits == bits,
    {
        self.bits = bits;
    }

    pub fn load(&self) -> (r: u32)
        ensures
            r == self.bits,
    {
        self.bits
    }
}

/// One parameter value addressed by slot index (the value as `f32` bits).
#[derive(Debug, Clone, Copy, PartialEq, Eq, Structural)]
pub struct ParamValue {
    pub slot: usize,
    pub value: u32,
}

/// Coalesced parameter values for one block boundary. A snapshot is applied
/// only by the engine whose generation it carries, so a late patch for a
/// previous engine never leaks into a new one.
#[derive(Debug, Clone)]
pub struct ParamSnapshot {
    /// Must match `CompiledGraph::generation()` to be applied.
    pub generation: u64,
    pub values: Vec<ParamValue>,
}

/// No two values address the same slot.
pub open spec fn distinct_slots(vs: Seq<ParamValue>) -> bool {
    forall|i: int, j: int|
        0 <= i < vs.len() && 0 <= j < vs.len() && i != j ==> (#[trigger] vs[i]).slot != (
        #[trigger] vs[j]).slot
}

/// Some value addresses `slot`.
pub open spec fn has_slot(vs: Seq<ParamValue>, slot: usize) -> bool {
    exists|i: int| 0 <= i < vs.len() && (#[trigger] vs[i]).slot == slot
}

/// The value of the first entry that addresses `slot`.
pub open spec fn value_for(vs: Seq<ParamValue>, slot: usize) -> Option<u32>
    decreases vs.len(),
{
    if vs.len() == 0 {
        None
    } else if vs[0].slot == slot {
        Some(vs[0].value)
    } else {
        value_for(vs.drop_first(), slot)
    }
}

/// Writing a value into a snapshot: the first entry for that slot takes it,
/// or it is appended.
pub open spec fn spec_snapshot_push(vs: Seq<ParamValue>, slot: usize, value: u32) -> Seq<
    ParamValue,
> {
    if has_slot(vs, slot) {
        let i = choose|i: int|
            0 <= i < vs.len() && vs[i].slot == slot && forall|k: int| 0 <= k < i ==> vs[k].slot != slot;
        vs.update(i, ParamValue { slot, value })
    } else {
        vs.push(ParamValue { slot, value })
    }
}

impl ParamSnapshot {
    pub fn new(generation: u64) -> (r: Self)
        ensures
            r.generation == generation,
            r.values@ == Seq::<ParamValue>::empty(),
    {
        Self { generation, values: Vec::new() }
    }

    /// Coalesces: the last write per slot wins.
    pub fn push(&mut self, slot: usize, value: u32)
        ensures
            final(self).generation == old(self).generation,
            final(self).values@ == spec_snapshot_push(old(self).values@, slot, value),
    {
        let mut i: usize = 0;
        while i < self.values.len()
            invariant
                i <= self.values@.len(),
                self.values@ == old(self).values@,
                self.generation == old(self).generation,
                forall|k: int| 0 <= k < i ==> (#[trigger] self.values@[k]).slot != slot,
            decreases self.values.len() - i,
        {
            if self.values[i].slot == slot {
                proof {
                    let vs = self.values@;
                    assert(has_slot(vs, slot));
                    let c = choose|c: int|
                        0 <= c < vs.len() && vs[c].slot == slot && forall|k: int|
                            0 <= k < c ==> vs[k].slot != slot;
                    if c < i {
                    } else if c > i {
                        assert(vs[i as int].slot == slot);
                    }
                    assert(c == i);
                }
                self.values.set(i, ParamValue { slot, value });
                return;
            }
            i = i + 1;
        }
        self.values.push(ParamValue { slot, value });
    }
}

/// After writing `value` to `slot`, reading `slot` gives `value` and reading
/// any other slot gives what it gave before; a snapshot with one value per
/// slot keeps one value per slot.
pub proof fn lemma_snapshot_last_write_wins(vs: Seq<ParamValue>, slot: usize, value: u32, other: usize)
    requires
        distinct_slots(vs),
    ensures
        distinct_slots(spec_snapshot_push(vs, slot, value)),
        value_for(spec_snapshot_push(vs, slot, value), slot) == Some(value),
        other != slot ==> value_for(spec_snapshot_push(vs, slot, value), other) == value_for(
            vs,
            other,
        ),
{
    let ws = spec_snapshot_push(vs, slot, value);
    lemma_value_for_first(vs, slot);
    lemma_value_for_first(ws, slot);
    lemma_value_for_first(vs, other);
    lemma_value_for_first(ws, other);
    if has_slot(vs, slot) {
        let i = choose|i: int|
            0 <= i < vs.len() && vs[i].slot == slot && forall|k: int| 0 <= k < i ==> vs[k].slot != slot;
        assert(ws[i].slot == slot);
        assert(has_slot(ws, slot));
        if other != slot && has_slot(ws, other) {
            let j = choose|j: int| 0 <= j < ws.len() && (#[trigger] ws[j]).slot == other;
            assert(vs[j].slot == other);
        }
        if other != slot && has_slot(vs, other) {
            let j = choose|j: int| 0 <= j < vs.len() && (#[trigger] vs[j]).slot == other;
            assert(ws[j].slot == other);
        }
    } else {
        assert(ws[vs.len() as int].slot == slot);
        assert(has_slot(ws, slot));
        if other != slot && has_slot(ws, other) {
            let j = choose|j: int| 0 <= j < ws.len() && (#[trigger] ws[j]).slot == other;
            assert(vs[j].slot == other);
        }
        if other != slot && has_slot(vs, other) {
            let j = choose|j: int| 0 <= j < vs.len() && (#[trigger] vs[j]).slot == other;
            assert(ws[j].slot == other);
        }
    }
}

/// `value_for` reads the unique entry of a slot, if there is one.
proof fn lemma_value_for_first(vs: Seq<ParamValue>, slot: usize)
    ensures
        !has_slot(vs, slot) ==> value_for(vs, slot) is None,
        forall|i: int|
            0 <= i < vs.len() && (#[trigger] vs[i]).slot == slot && (forall|k: int|
                0 <= k < i ==> vs[k].slot != slot) ==> value_for(vs, slot) == Some(vs[i].value),
    decreases vs.len(),
{
    if vs.len() > 0 {
        lemma_value_for_first(vs.drop_first(), slot);
        if !has_slot(vs, slot) {
            assert(vs[0].slot != slot);
            if has_slot(vs.drop_first(), slot) {
                let j = choose|j: int|
                    0 <= j < vs.drop_first().len() && (#[trigger] vs.drop_first()[j]).slot == slot;
                assert(vs[j + 1].slot == slot);
            }
        }
        assert forall|i: int|
            0 <= i < vs.len() && (#[trigger] vs[i]).slot == slot && (forall|k: int|
                0 <= k < i ==> vs[k].slot != slot) implies value_for(vs, slot) == Some(vs[i].value) by {
            if i > 0 {
                assert(vs[0].slot != slot);
                assert(vs.drop_first()[i - 1] == vs[i]);
                assert forall|k: int| 0 <= k < i - 1 implies vs.drop_first()[k].slot != slot by {
                    assert(vs.drop_first()[k] == vs[k + 1]);
                }
            }
        }
    }
}

/// Where a connection's samples flow: from node position `src` to `dst`.
#[derive(Debug, Clone, Copy, PartialEq, Eq, Structural)]
pub struct Edge {
    pub src: usize,
    pub dst: usize,
}

/// A node of a compiled graph: its kind and the slots of its parameters.
#[derive(Debug, Clone, Copy, PartialEq, Eq, Structural)]
pub struct CompiledNode {
    pub kind: NodeKind,
    pub freq: Option<usize>,
    pub amp: Option<usize>,
    pub gain: Option<usize>,
}

/// What a compiled graph holds, as plain values.
pub ghost struct CompiledView {
    pub sample_rate: u32,
    pub max_block: usize,
    pub generation: u64,
    pub nodes: Seq<CompiledNode>,
    /// Node positions in processing order.
    pub order: Seq<usize>,
    pub edges: Seq<Edge>,
    /// Current value of each parameter slot.
    pub params: Seq<u32>,
    /// Which node parameter each slot holds: (node id, parameter name).
    pub slots: Seq<(u32, Seq<char>)>,
    pub output_index: usize,
    /// Gate nodes in node order: (node id, node position).
    pub gates: Seq<(u32, usize)>,
}

/// The slots a node contributes, in slot order: (node id, name, initial value).
/// An oscillator's `freq` comes before its `amp`.
pub open spec fn node_slots(n: NodeView) -> Seq<(u32, Seq<char>, u32)> {
    match n.kind {
        NodeKind::Oscillator => seq![(n.id, "freq"@, n.params[1].1), (n.id, "amp"@, n.params[0].1)],
        NodeKind::Gain => seq![(n.id, "gain"@, n.params[0].1)],
        _ => seq![],
    }
}

/// The slot table of a sequence of nodes: each node's slots in node order.
pub open spec fn slot_layout(nodes: Seq<NodeView>) -> Seq<(u32, Seq<char>, u32)>
    decreases nodes.len(),
{
    if nodes.len() == 0 {
        Seq::empty()
    } else {
        slot_layout(nodes.drop_last()) + node_slots(nodes.last())
    }
}

/// A compiled node whose slots start at `base`.
pub open spec fn compiled_node(n: NodeView, base: int) -> CompiledNode {
    match n.kind {
        NodeKind::Oscillator => CompiledNode {
            kind: n.kind,
            freq: Some(base as usize),
            amp: Some((base + 1) as usize),
            gain: None,
        },
        NodeKind::Gain => CompiledNode { kind: n.kind, freq: None, amp: None, gain: Some(base as usize) },
        _ => CompiledNode { kind: n.kind, freq: None, amp: None, gain: None },
    }
}

pub open spec fn compiled_nodes(nodes: Seq<NodeView>) -> Seq<CompiledNode>
    decreases nodes.len(),
{
    if nodes.len() == 0 {
        Seq::empty()
    } else {
        compiled_nodes(nodes.drop_last()).push(
            compiled_node(nodes.last(), slot_layout(nodes.drop_last()).len() as int),
        )
    }
}

/// Gate nodes among `nodes`, in order: (id, position).
pub open spec fn gate_layout(nodes: Seq<NodeView>) -> Seq<(u32, usize)>
    decreases nodes.len(),
{
    if nodes.len() == 0 {
        Seq::empty()
    } else if nodes.last().kind == NodeKind::Gate {
        gate_layout(nodes.drop_last()).push((nodes.last().id, (nodes.len() - 1) as usize))
    } else {
        gate_layout(nodes.drop_last())
    }
}

/// Position of the last output node among `nodes` (0 when there is none).
pub open spec fn last_output(nodes: Seq<NodeView>) -> usize
    decreases nodes.len(),
{
    if nodes.len() == 0 {
        0
    } else if nodes.last().kind == NodeKind::Output {
        (nodes.len() - 1) as usize
    } else {
        last_output(nodes.drop_last())
    }
}

/// What compiling a graph gives, for a processing order `order`.
pub open spec fn compiled_model(
    g: GraphView,
    max_block: usize,
    generation: u64,
    order: Seq<usize>,
) -> CompiledView {
    let layout = slot_layout(g.nodes);
    CompiledView {
        sample_rate: g.sample_rate,
        max_block,
        generation,
        nodes: compiled_nodes(g.nodes),
        order,
        edges: g.connections.map_values(
            |c: crate::graph::ConnView|
                Edge { src: (c.from_node - 1) as usize, dst: (c.to_node - 1) as usize },
        ),
        params: layout.map_values(|e: (u32, Seq<char>, u32)| e.2),
        slots: layout.map_values(|e: (u32, Seq<char>, u32)| (e.0, e.1)),
        output_index: last_output(g.nodes),
        gates: gate_layout(g.nodes),
    }
}

/// The processing order, as node ids.
pub open spec fn order_ids(order: Seq<usize>) -> Seq<NodeId> {
    order.map_values(|p: usize| NodeId((p + 1) as u32))
}

/// Immutable schedule plus a table of parameter slots.
pub struct CompiledGraph {
    pub sample_rate: u32,
    pub max_block: usize,
    generation: u64,
    nodes: Vec<CompiledNode>,
    order: Vec<usize>,
    edges: Vec<Edge>,
    params: Vec<ParamSlot>,
    output_index: usize,
    param_index: Vec<(NodeId, &'static str, usize)>,
    gate_nodes: Vec<(NodeId, usize)>,
}

impl View for CompiledGraph {
    type V = CompiledView;

    closed spec fn view(&self) -> CompiledView {
        CompiledView {
            sample_rate: self.sample_rate,
            max_block: self.max_block,
            generation: self.generation,
            nodes: self.nodes@,
            order: self.order@,
            edges: self.edges@,
            params: self.params@.map_values(|p: ParamSlot| p.bits),
            slots: self.param_index@.map_values(|e: (NodeId, &'static str, usize)| (e.0.0, e.1@)),
            output_index: self.output_index,
            gates: self.gate_nodes@.map_values(|e: (NodeId, usize)| (e.0.0, e.1)),
        }
    }
}

/// What every compiled graph keeps: indices in range, the processing order a
/// permutation in which every edge runs forward, gates at gate nodes.
pub open spec fn compiled_wf(c: CompiledView) -> bool {
    let n = c.nodes.len();
    &&& n > 0
    &&& c.order.len() == n
    &&& forall|i: int| 0 <= i < n ==> (#[trigger] c.order[i]) < n
    &&& forall|i: int, j: int| 0 <= i < n && 0 <= j < n && i != j ==> c.order[i] != c.order[j]
    &&& forall|k: int| 0 <= k < c.edges.len() ==> (#[trigger] c.edges[k]).src < n && c.edges[k].dst < n
    &&& forall|k: int, i: int, j: int|
        0 <= k < c.edges.len() && 0 <= i <= j < n ==> !(#[trigger] c.order[i] == (
        #[trigger] c.edges[k]).dst && #[trigger] c.order[j] == c.edges[k].src)
    &&& c.slots.len() == c.params.len()
    &&& forall|i: int|
        0 <= i < n ==> ((#[trigger] c.nodes[i]).freq matches Some(s) ==> s < c.params.len()) && (
        c.nodes[i].amp matches Some(s) ==> s < c.params.len()) && (c.nodes[i].gain matches Some(s)
            ==> s < c.params.len())
    &&& c.output_index < n
    &&& c.nodes[c.output_index as int].kind == NodeKind::Output
    &&& forall|k: int|
        0 <= k < c.gates.len() ==> (#[trigger] c.gates[k]).1 < n && c.nodes[c.gates[k].1 as int].kind
            == NodeKind::Gate
}

/// This block's level changes per gate: one list per dispatch slot, each
/// with room for `MAX_GATE_EVENTS` changes. Allocated once and reused for
/// every block; a block never puts more changes in a list than it has room
/// for.
pub struct GateChanges {
    lists: Vec<Vec<(u16, u8)>>,
}

impl View for GateChanges {
    type V = Seq<Seq<(u16, u8)>>;

    closed spec fn view(&self) -> Seq<Seq<(u16, u8)>> {
        self.lists@.map_values(|l: Vec<(u16, u8)>| l@)
    }
}

impl GateChanges {
    pub closed spec fn wf(&self) -> bool {
        self.lists@.len() == MAX_GATES
    }

    pub fn new() -> (r: Self)
        ensures
            r.wf(),
            r@ == Seq::new(MAX_GATES as nat, |i: int| Seq::<(u16, u8)>::empty()),
    {
        let mut lists: Vec<Vec<(u16, u8)>> = Vec::new();
        let mut g: usize = 0;
        while g < MAX_GATES
            invariant
                g <= MAX_GATES,
                lists@.len() == g,
                forall|s: int| 0 <= s < g ==> (#[trigger] lists@[s])@ == Seq::<(u16, u8)>::empty(),
            decreases MAX_GATES - g,
        {
            lists.push(Vec::with_capacity(MAX_GATE_EVENTS));
            g = g + 1;
        }
        let r = GateChanges { lists };
        assert(r@ =~= Seq::new(MAX_GATES as nat, |i: int| Seq::<(u16, u8)>::empty()));
        r
    }

    /// The changes of dispatch slot `s`, in order.
    pub fn slot(&self, s: usize) -> (r: &[(u16, u8)])
        requires
            self.wf(),
            s < MAX_GATES,
        ensures
            r@ == self@[s as int],
    {
        self.lists[s].as_slice()
    }
}

impl CompiledGraph {
    pub closed spec fn wf(&self) -> bool {
        &&& compiled_wf(self@)
        &&& self.order@.len() == self.nodes@.len()
        &&& forall|k: int| 0 <= k < self.param_index@.len() ==> (#[trigger] self.param_index@[k]).2 == k
    }

    /// What a well-formed compiled graph keeps, as plain values.
    pub proof fn lemma_wf(&self)
        requires
            self.wf(),
        ensures
            compiled_wf(self@),
    {
    }
}

/// Looks up the position recorded for node id `id`.
pub fn lookup(map: &[(u32, usize)], id: u32) -> (r: Result<usize, GraphError>)
    ensures
        (exists|i: int| 0 <= i < map@.len() && (#[trigger] map@[i]).0 == id) <==> r is Ok,
        r matches Ok(v) ==> exists|i: int|
            0 <= i < map@.len() && (#[trigger] map@[i]).0 == id && map@[i].1 == v && forall|k: int|
                0 <= k < i ==> map@[k].0 != id,
        r matches Err(e) ==> e@ == ErrorView::UnknownNode(decimal(id as nat)),
{
    let mut i: usize = 0;
    while i < map.len()
        invariant
            i <= map@.len(),
            forall|k: int| 0 <= k < i ==> map@[k].0 != id,
        decreases map.len() - i,
    {
        if map[i].0 == id {
            return Ok(map[i].1);
        }
        i = i + 1;
    }
    Err(GraphError::UnknownNode(decimal_string(id)))
}

/// Appends a slot holding `v` for parameter `name` of node `id`; returns its index.
fn push_param(
    params: &mut Vec<ParamSlot>,
    index: &mut Vec<(NodeId, &'static str, usize)>,
    id: NodeId,
    name: &'static str,
    v: u32,
) -> (r: usize)
    requires
        old(params)@.len() == old(index)@.len(),
    ensures
        r == old(params)@.len(),
        final(params)@.len() == final(index)@.len(),
        final(params)@ == old(params)@.push(ParamSlot { bits: v }),
        final(index)@ == old(index)@.push((id, name, r)),
{
    let i = params.len();
    params.push(ParamSlot::new(v));
    index.push((id, name, i));
    i
}

/// The value of the parameter called `name`, or `default` when the node has none.
fn param_value(params: &Vec<Param>, name: &str, default: u32) -> (r: u32)
    ensures
        forall|i: int|
            0 <= i < params@.len() && (#[trigger] params@[i]).name@ == name@ && (forall|k: int|
                0 <= k < i ==> params@[k].name@ != name@) ==> r == params@[i].bits,
        (forall|i: int| 0 <= i < params@.len() ==> (#[trigger] params@[i]).name@ != name@) ==> r
            == default,
{
    let mut i: usize = 0;
    while i < params.len()
        invariant
            i <= params@.len(),
            forall|k: int| 0 <= k < i ==> (#[trigger] params@[k]).name@ != name@,
        decreases params.len() - i,
    {
        if same_text(params[i].name.as_str(), name) {
            return params[i].bits;
        }
        i = i + 1;
    }
    default
}

impl CompiledGraph {
    /// Checks the graph (an output node, no cycle), orders its nodes, lays
    /// out one slot per parameter (oscillator `freq` then `amp`, gain `gain`)
    /// holding the node's current value, and takes the next generation.
    pub fn compile(graph: &Graph, opts: CompileOptions, gens: &mut Generations) -> (r: Result<
        CompiledGraph,
        GraphError,
    >)
        requires
            graph.wf(),
        ensures
            r is Ok <==> has_output(graph@) && acyclic(graph@),
            r matches Err(e) ==> if !has_output(graph@) {
                e@ == ErrorView::NoOutput
            } else {
                exists|x: int|
                    first_blocked(graph@, x) && e@ == ErrorView::Cycle(
                        #[trigger] graph@.nodes[x].name,
                    )
            },
            r is Err ==> final(gens).peek() == old(gens).peek(),
            r matches Ok(c) ==> {
                &&& c.wf()
                &&& c@ == compiled_model(
                    graph@,
                    if opts.max_block > 1 {
                        opts.max_block
                    } else {
                        1
                    },
                    old(gens).peek(),
                    c@.order,
                )
                &&& is_topo_order(graph@, order_ids(c@.order))
                &&& final(gens).peek() == old(gens).peek().wrapping_add(1)
            },
    {
        match graph.validate() {
            Ok(()) => {},
            Err(e) => {
                return Err(e);
            },
        }
        let max_block = if opts.max_block > 1 {
            opts.max_block
        } else {
            1
        };
        let topo = match graph.topo() {
            Ok(t) => t,
            Err(e) => {
                return Err(e);
            },
        };
        let ghost g = graph@;
        proof {
            graph.lemma_wf();
        }
        let nodes_in = graph.nodes();
        let n = nodes_in.len();
        proof {
            assert(g.nodes.len() == n);
        }
        let mut id_to_idx: Vec<(u32, usize)> = Vec::new();
        let mut nodes: Vec<CompiledNode> = Vec::new();
        let mut params: Vec<ParamSlot> = Vec::new();
        let mut param_index: Vec<(NodeId, &'static str, usize)> = Vec::new();
        let mut gate_nodes: Vec<(NodeId, usize)> = Vec::new();
        let mut output_index: Option<usize> = None;
        let mut i: usize = 0;
        while i < n
            invariant
                i <= n,
                n == g.nodes.len(),
                graph_wf(g),
                nodes_in@.map_values(|x: crate::graph::Node| x@) == g.nodes,
                id_to_idx@.len() == i,
                forall|k: int| 0 <= k < i ==> #[trigger] id_to_idx@[k] == ((k + 1) as u32, k as usize),
                nodes@ == compiled_nodes(g.nodes.take(i as int)),
                nodes@.len() == i,
                params@.len() == slot_layout(g.nodes.take(i as int)).len(),
                param_index@.len() == params@.len(),
                forall|k: int|
                    0 <= k < params@.len() ==> (#[trigger] params@[k]).bits == slot_layout(
                        g.nodes.take(i as int),
                    )[k].2,
                forall|k: int|
                    0 <= k < params@.len() ==> (#[trigger] param_index@[k]).0.0 == slot_layout(
                        g.nodes.take(i as int),
                    )[k].0 && param_index@[k].1@ == slot_layout(g.nodes.take(i as int))[k].1
                        && param_index@[k].2 == k,
                forall|k: int|
                    0 <= k < i ==> ((#[trigger] nodes@[k]).freq matches Some(s) ==> s < params@.len()) && (
                    nodes@[k].amp matches Some(s) ==> s < params@.len()) && (nodes@[k].gain matches Some(s)
                        ==> s < params@.len()),
                gate_nodes@.map_values(|e: (NodeId, usize)| (e.0.0, e.1)) == gate_layout(
                    g.nodes.take(i as int),
                ),
                output_index matches Some(o) ==> o < i && o == last_output(g.nodes.take(i as int))
                    && g.nodes[o as int].kind == NodeKind::Output,
                output_index is None ==> forall|k: int|
                    0 <= k < i ==> (#[trigger] g.nodes[k]).kind != NodeKind::Output,
            decreases n - i,
        {
            let node = &nodes_in[i];
            let ghost pre = g.nodes.take(i as int);
            let ghost post = g.nodes.take(i + 1);
            let ghost nv = g.nodes[i as int];
            proof {
                assert(node@ == nv);
                assert(post.drop_last() =~= pre);
                assert(post.last() == nv);
                assert(nv.id == i + 1);
                assert(params_wf(nv.kind, nv.params));
                reveal_strlit("amp");
                reveal_strlit("freq");
                reveal_strlit("gain");
            }
            id_to_idx.push((node.id.0, i));
            let ghost base = params@.len();
            let ghost gates0 = gate_nodes@;
            let mut freq: Option<usize> = None;
            let mut amp: Option<usize> = None;
            let mut gain: Option<usize> = None;
            match node.kind {
                NodeKind::Oscillator => {
                    let fv = param_value(&node.params, "freq", FREQ_DEFAULT_BITS);
                    let av = param_value(&node.params, "amp", AMP_DEFAULT_BITS);
                    proof {
                        assert(node.params@[0].name@ == nv.params[0].0);
                        assert(node.params@[1].name@ == nv.params[1].0);
                        assert(fv == nv.params[1].1);
                        assert(av == nv.params[0].1);
                    }
                    freq = Some(push_param(&mut params, &mut param_index, node.id, "freq", fv));
                    amp = Some(push_param(&mut params, &mut param_index, node.id, "amp", av));
                },
                NodeKind::Gain => {
                    let gv = param_value(&node.params, "gain", GAIN_DEFAULT_BITS);
                    proof {
                        assert(node.params@[0].name@ == nv.params[0].0);
                        assert(gv == nv.params[0].1);
                    }
                    gain = Some(push_param(&mut params, &mut param_index, node.id, "gain", gv));
                },
                NodeKind::Gate => {
                    gate_nodes.push((node.id, i));
                },
                NodeKind::Output => {
                    output_index = Some(i);
                },
                NodeKind::Mixer => {},
            }
            let ghost nodes0 = nodes@;
            nodes.push(CompiledNode { kind: node.kind, freq, amp, gain });
            proof {
                assert forall|k: int|
                    0 <= k < i + 1 implies ((#[trigger] nodes@[k]).freq matches Some(s) ==> s
                    < params@.len()) && (nodes@[k].amp matches Some(s) ==> s < params@.len()) && (
                nodes@[k].gain matches Some(s) ==> s < params@.len()) by {
                    if k < i {
                        assert(nodes@[k] == nodes0[k]);
                    }
                }
                let lp = slot_layout(pre);
                assert(slot_layout(post) == lp + node_slots(nv));
                assert(compiled_nodes(post) == compiled_nodes(pre).push(compiled_node(nv, lp.len() as int)));
                assert(nodes@ =~= compiled_nodes(post));
                assert forall|k: int|
                    0 <= k < params@.len() implies (#[trigger] params@[k]).bits == slot_layout(post)[k].2
                    && param_index@[k].0.0 == slot_layout(post)[k].0 && param_index@[k].1@ == slot_layout(
                    post,
                )[k].1 && param_index@[k].2 == k by {
                    if k >= lp.len() {
                        assert(slot_layout(post)[k] == node_slots(nv)[k - lp.len()]);
                    } else {
                        assert(slot_layout(post)[k] == lp[k]);
                    }
                }
                if nv.kind == NodeKind::Gate {
                    assert(gate_layout(post) == gate_layout(pre).push((nv.id, i as usize)));
                    assert(gate_nodes@ == gates0.push((node.id, i)));
                    assert(gate_nodes@.map_values(|e: (NodeId, usize)| (e.0.0, e.1)) =~= gate_layout(post));
                } else {
                    assert(gate_layout(post) == gate_layout(pre));
                }
                if nv.kind == NodeKind::Output {
                    assert(last_output(post) == i);
                } else {
                    assert(last_output(post) == last_output(pre));
                }
                assert(id_to_idx@[i as int] == ((i + 1) as u32, i as usize));
            }
            i = i + 1;
        }
        proof {
            assert(g.nodes.take(n as int) =~= g.nodes);
            if output_index is None {
                let w = choose|w: int| 0 <= w < g.nodes.len() && #[trigger] g.nodes[w].kind == NodeKind::Output;
                assert(g.nodes[w].kind != NodeKind::Output);
            }
        }
        let output_index = match output_index {
            Some(o) => o,
            None => {
                return Err(GraphError::NoOutput);
            },
        };
        let conns = graph.connections();
        let mut edges: Vec<Edge> = Vec::new();
        let mut k: usize = 0;
        while k < conns.len()
            invariant
                k <= conns@.len(),
                n == g.nodes.len(),
                graph_wf(g),
                conns@.map_values(|c: crate::graph::Connection| c@) == g.connections,
                id_to_idx@.len() == n,
                forall|j: int| 0 <= j < n ==> #[trigger] id_to_idx@[j] == ((j + 1) as u32, j as usize),
                edges@.len() == k,
                forall|j: int|
                    0 <= j < k ==> #[trigger] edges@[j] == (Edge {
                        src: (g.connections[j].from_node - 1) as usize,
                        dst: (g.connections[j].to_node - 1) as usize,
                    }),
            decreases conns.len() - k,
        {
            let c = &conns[k];
            proof {
                assert(c@ == g.connections[k as int]);
                assert(crate::graph::conn_wf(g.nodes, g.connections[k as int]));
                assert(id_to_idx@[c.from_node.0 - 1] == (c.from_node.0, (c.from_node.0 - 1) as usize));
                assert(id_to_idx@[c.to_node.0 - 1] == (c.to_node.0, (c.to_node.0 - 1) as usize));
            }
            let src = match lookup(id_to_idx.as_slice(), c.from_node.0) {
                Ok(v) => v,
                Err(e) => {
                    return Err(e);
                },
            };
            let dst = match lookup(id_to_idx.as_slice(), c.to_node.0) {
                Ok(v) => v,
                Err(e) => {
                    return Err(e);
                },
            };
            proof {
                let i1 = choose|i1: int|
                    0 <= i1 < id_to_idx@.len() && (#[trigger] id_to_idx@[i1]).0 == c.from_node.0 && id_to_idx@[i1].1
                        == src && forall|k2: int| 0 <= k2 < i1 ==> id_to_idx@[k2].0 != c.from_node.0;
                let i2 = choose|i2: int|
                    0 <= i2 < id_to_idx@.len() && (#[trigger] id_to_idx@[i2]).0 == c.to_node.0 && id_to_idx@[i2].1
                        == dst && forall|k2: int| 0 <= k2 < i2 ==> id_to_idx@[k2].0 != c.to_node.0;
                assert(id_to_idx@[i1] == ((i1 + 1) as u32, i1 as usize));
                assert(id_to_idx@[i2] == ((i2 + 1) as u32, i2 as usize));
            }
            edges.push(Edge { src, dst });
            k = k + 1;
        }
        let mut order: Vec<usize> = Vec::new();
        let mut t: usize = 0;
        while t < topo.len()
            invariant
                t <= topo@.len(),
                n == g.nodes.len(),
                is_topo_order(g, topo@),
                id_to_idx@.len() == n,
                forall|j: int| 0 <= j < n ==> #[trigger] id_to_idx@[j] == ((j + 1) as u32, j as usize),
                order@.len() == t,
                forall|j: int| 0 <= j < t ==> #[trigger] order@[j] == (topo@[j].0 - 1) as usize,
            decreases topo.len() - t,
        {
            let id = topo[t].0;
            proof {
                assert(1 <= topo@[t as int].0 <= n);
                assert(id_to_idx@[id - 1] == (id, (id - 1) as usize));
            }
            let p = match lookup(id_to_idx.as_slice(), id) {
                Ok(v) => v,
                Err(e) => {
                    return Err(e);
                },
            };
            proof {
                let i1 = choose|i1: int|
                    0 <= i1 < id_to_idx@.len() && (#[trigger] id_to_idx@[i1]).0 == id && id_to_idx@[i1].1 == p
                        && forall|k2: int| 0 <= k2 < i1 ==> id_to_idx@[k2].0 != id;
                assert(id_to_idx@[i1] == ((i1 + 1) as u32, i1 as usize));
            }
            order.push(p);
            t = t + 1;
        }
        let generation = next_generation(gens);
        let compiled = CompiledGraph {
            sample_rate: graph.sample_rate(),
            max_block,
            generation,
            nodes,
            order,
            edges,
            params,
            output_index,
            param_index,
            gate_nodes,
        };
        proof {
            let c = compiled@;
            let model = compiled_model(g, max_block, generation, order@);
            assert(order_ids(order@) =~= topo@);
            assert(c.edges =~= model.edges);
            assert(c.params =~= model.params);
            assert(c.slots =~= model.slots);
            assert(c.nodes == model.nodes);
            assert(c =~= model);
            assert(n > 0);
            assert forall|k2: int, i2: int, j2: int|
                0 <= k2 < c.edges.len() && 0 <= i2 <= j2 < n implies !(#[trigger] c.order[i2] == (
            #[trigger] c.edges[k2]).dst && #[trigger] c.order[j2] == c.edges[k2].src) by {
                assert(crate::graph::conn_wf(g.nodes, g.connections[k2]));
                if c.order[i2] == c.edges[k2].dst && c.order[j2] == c.edges[k2].src {
                    assert(topo@[i2].0 == g.connections[k2].to_node);
                    assert(topo@[j2].0 == g.connections[k2].from_node);
                }
            }
            assert forall|i2: int, j2: int| 0 <= i2 < n && 0 <= j2 < n && i2 != j2 implies c.order[i2]
                != c.order[j2] by {
                assert(topo@[i2] != topo@[j2]);
            }
            assert forall|k2: int| 0 <= k2 < c.edges.len() implies (#[trigger] c.edges[k2]).src < n
                && c.edges[k2].dst < n by {
                assert(crate::graph::conn_wf(g.nodes, g.connections[k2]));
            }
            assert forall|k2: int|
                0 <= k2 < c.gates.len() implies (#[trigger] c.gates[k2]).1 < n && c.nodes[c.gates[k2].1 as int].kind
                == NodeKind::Gate by {
                lemma_gate_layout(g.nodes, k2);
                lemma_compiled_kind(g.nodes, c.gates[k2].1 as int);
            }
            lemma_compiled_kind(g.nodes, output_index as int);
        }
        Ok(compiled)
    }
}

proof fn lemma_gate_layout(nodes: Seq<NodeView>, k: int)
    requires
        0 <= k < gate_layout(nodes).len(),
        nodes.len() <= usize::MAX,
    ensures
        gate_layout(nodes)[k].1 < nodes.len(),
        nodes[gate_layout(nodes)[k].1 as int].kind == NodeKind::Gate,
    decreases nodes.len(),
{
    if nodes.len() > 0 {
        let pre = nodes.drop_last();
        if nodes.last().kind == NodeKind::Gate && k == gate_layout(pre).len() {
            assert(gate_layout(nodes)[k] == (nodes.last().id, (nodes.len() - 1) as usize));
        } else {
            lemma_gate_layout(pre, k);
            let p = gate_layout(pre)[k].1 as int;
            assert(gate_layout(nodes)[k] == gate_layout(pre)[k]);
            assert(nodes[p] == pre[p]);
        }
    }
}

/// No two gates carry the same node id.
pub open spec fn gate_ids_unique(gates: Seq<(u32, usize)>) -> bool {
    forall|i: int, j: int| 0 <= i < j < gates.len() ==> (#[trigger] gates[i]).0 != (#[trigger] gates[j]).0
}

proof fn lemma_gate_from_reaches(gates: Seq<(u32, usize)>, k: int, m: int)
    requires
        gate_ids_unique(gates),
        0 <= m <= k < gates.len(),
    ensures
        gate_from(gates, gates[k].0, m) == Some(k),
    decreases k - m,
{
    if m < k {
        assert(gates[m].0 != gates[k].0);
        lemma_gate_from_reaches(gates, k, m + 1);
    }
}

/// Each of the first eight gates owns a dispatch slot: its position among
/// the gates. Gates past the eighth have none.
pub proof fn lemma_gate_slots(gates: Seq<(u32, usize)>, k: int)
    requires
        gate_ids_unique(gates),
        0 <= k < gates.len(),
    ensures
        k < 8 ==> gate_slot_of(gates, gates[k].0) == Some(k),
        k >= 8 ==> gate_slot_of(gates, gates[k].0) is None,
{
    lemma_gate_from_reaches(gates, k, 0);
}

/// The gates of a well-formed graph, listed in node order, carry distinct
/// ids: the ids of their nodes.
pub proof fn lemma_gate_layout_unique(nodes: Seq<NodeView>)
    requires
        forall|i: int| 0 <= i < nodes.len() ==> (#[trigger] nodes[i]).id == i + 1,
        nodes.len() <= usize::MAX,
    ensures
        gate_ids_unique(gate_layout(nodes)),
        forall|k: int|
            0 <= k < gate_layout(nodes).len() ==> (#[trigger] gate_layout(nodes)[k]).0 == gate_layout(
                nodes,
            )[k].1 + 1,
    decreases nodes.len(),
{
    if nodes.len() > 0 {
        let pre = nodes.drop_last();
        assert forall|i: int| 0 <= i < pre.len() implies (#[trigger] pre[i]).id == i + 1 by {
            assert(pre[i] == nodes[i]);
        }
        lemma_gate_layout_unique(pre);
        let gl = gate_layout(nodes);
        assert forall|k: int| 0 <= k < gate_layout(pre).len() implies (#[trigger] gate_layout(pre)[k]).1
            < pre.len() by {
            lemma_gate_layout(pre, k);
        }
        if nodes.last().kind == NodeKind::Gate {
            assert(nodes.last().id == nodes.len());
            assert(gl == gate_layout(pre).push((nodes.last().id, (nodes.len() - 1) as usize)));
        }
    }
}

/// A note-on or note-off for one of the first eight gates of a graph
/// reaches that gate's dispatch slot, and no other.
pub proof fn lemma_note_reaches_gate(gates: Seq<(u32, usize)>, k: int, ev: Event, frames: usize)
    requires
        gate_ids_unique(gates),
        0 <= k < gates.len(),
        k < 8,
        ev.node.0 == gates[k].0,
        ev.kind is NoteOn || ev.kind is NoteOff,
    ensures
        dispatch(gates, seq![ev], frames)[k] == seq![change_of(ev, frames)->0],
        forall|s: int| 0 <= s < MAX_GATES && s != k ==> #[trigger] dispatch(gates, seq![ev], frames)[s]
            == Seq::<(u16, u8)>::empty(),
{
    lemma_gate_slots(gates, k);
    let evs = seq![ev];
    assert(evs.drop_last() =~= Seq::<Event>::empty());
    assert(evs.last() == ev);
    let prev = dispatch(gates, evs.drop_last(), frames);
    assert(prev[k].len() == 0);
    assert(prev[k].push(change_of(ev, frames)->0) =~= seq![change_of(ev, frames)->0]);
}

proof fn lemma_compiled_kind(nodes: Seq<NodeView>, i: int)
    requires
        0 <= i < nodes.len(),
    ensures
        compiled_nodes(nodes).len() == nodes.len(),
        compiled_nodes(nodes)[i].kind == nodes[i].kind,
    decreases nodes.len(),
{
    let pre = nodes.drop_last();
    lemma_compiled_len(nodes);
    lemma_compiled_len(pre);
    if i < nodes.len() - 1 {
        lemma_compiled_kind(pre, i);
        assert(compiled_nodes(nodes)[i] == compiled_nodes(pre)[i]);
        assert(nodes[i] == pre[i]);
    }
}

proof fn lemma_node_at(nodes: Seq<NodeView>, i: int)
    requires
        0 <= i < nodes.len(),
    ensures
        compiled_nodes(nodes)[i] == compiled_node(nodes[i], slot_layout(nodes.take(i)).len() as int),
        slot_layout(nodes.take(i + 1)) == slot_layout(nodes.take(i)) + node_slots(nodes[i]),
        slot_layout(nodes.take(i + 1)).len() <= slot_layout(nodes).len(),
        forall|k: int|
            0 <= k < slot_layout(nodes.take(i + 1)).len() ==> #[trigger] slot_layout(nodes)[k]
                == slot_layout(nodes.take(i + 1))[k],
    decreases nodes.len(),
{
    let n = nodes.len() as int;
    let pre = nodes.drop_last();
    lemma_compiled_len(pre);
    assert(nodes.take(i + 1).drop_last() =~= nodes.take(i));
    assert(nodes.take(i + 1).last() == nodes[i]);
    if i < n - 1 {
        lemma_node_at(pre, i);
        assert(pre.take(i) =~= nodes.take(i));
        assert(pre.take(i + 1) =~= nodes.take(i + 1));
        assert(pre[i] == nodes[i]);
        assert(compiled_nodes(nodes)[i] == compiled_nodes(pre)[i]);
    } else {
        assert(nodes.take(i) =~= pre);
        assert(nodes.take(i + 1) =~= nodes);
    }
}

/// Whether slot `slot` of `c` holds parameter `name` of node `n`: the slot
/// table names that node and parameter, and the slot's value is the one the
/// node has under that name.
pub open spec fn holds_param(c: CompiledView, slot: Option<usize>, n: NodeView, name: Seq<char>) -> bool {
    &&& slot matches Some(s)
    &&& s < c.slots.len()
    &&& s < c.params.len()
    &&& c.slots[s as int] == (n.id, name)
    &&& forall|j: int|
        0 <= j < n.params.len() && (#[trigger] n.params[j]).0 == name ==> c.params[s as int]
            == n.params[j].1
}

/// A compiled node's parameter fields point at the slots that hold its own
/// parameters under their names: an oscillator's `freq` at its `freq`, its
/// `amp` at its `amp`, a gain's `gain` at its `gain`; other kinds have none.
pub proof fn lemma_compiled_slots_named(
    g: GraphView,
    max_block: usize,
    generation: u64,
    order: Seq<usize>,
    i: int,
)
    requires
        graph_wf(g),
        0 <= i < g.nodes.len(),
        slot_layout(g.nodes).len() <= usize::MAX,
    ensures
        ({
            let c = compiled_model(g, max_block, generation, order);
            let n = g.nodes[i];
            &&& n.kind == NodeKind::Oscillator ==> holds_param(c, c.nodes[i].freq, n, "freq"@)
                && holds_param(c, c.nodes[i].amp, n, "amp"@) && c.nodes[i].gain is None
            &&& n.kind == NodeKind::Gain ==> holds_param(c, c.nodes[i].gain, n, "gain"@)
                && c.nodes[i].freq is None && c.nodes[i].amp is None
            &&& n.kind != NodeKind::Oscillator && n.kind != NodeKind::Gain ==> c.nodes[i].freq is None
                && c.nodes[i].amp is None && c.nodes[i].gain is None
        }),
{
    let c = compiled_model(g, max_block, generation, order);
    let n = g.nodes[i];
    let layout = slot_layout(g.nodes);
    lemma_node_at(g.nodes, i);
    let base = slot_layout(g.nodes.take(i)).len() as int;
    let ns = node_slots(n);
    assert(params_wf(n.kind, n.params));
    reveal_strlit("amp");
    reveal_strlit("freq");
    reveal_strlit("gain");
    assert forall|k: int| 0 <= k < ns.len() implies #[trigger] layout[base + k] == ns[k] by {
        assert(slot_layout(g.nodes.take(i + 1))[base + k] == ns[k]);
    }
    if n.kind == NodeKind::Oscillator {
        assert(n.params[0].0 == "amp"@ && n.params[1].0 == "freq"@);
        assert(layout[base] == ns[0] && layout[base + 1] == ns[1]);
        assert(c.slots[base] == (n.id, "freq"@));
        assert(c.slots[base + 1] == (n.id, "amp"@));
        assert forall|j: int| 0 <= j < n.params.len() && (#[trigger] n.params[j]).0 == "freq"@ implies c.params[base]
            == n.params[j].1 by {
            if j == 0 {
                assert("amp"@.len() != "freq"@.len());
            }
        }
        assert forall|j: int| 0 <= j < n.params.len() && (#[trigger] n.params[j]).0 == "amp"@ implies c.params[base
            + 1] == n.params[j].1 by {
            if j == 1 {
                assert("amp"@.len() != "freq"@.len());
            }
        }
    } else if n.kind == NodeKind::Gain {
        assert(n.params[0].0 == "gain"@);
        assert(layout[base] == ns[0]);
        assert(c.slots[base] == (n.id, "gain"@));
    }
}

proof fn lemma_compiled_len(nodes: Seq<NodeView>)
    ensures
        compiled_nodes(nodes).len() == nodes.len(),
    decreases nodes.len(),
{
    if nodes.len() > 0 {
        lemma_compiled_len(nodes.drop_last());
    }
}

/// The first position at or after `k` whose slot holds parameter `name` of node `id`.
pub open spec fn slot_from(slots: Seq<(u32, Seq<char>)>, id: u32, name: Seq<char>, k: int) -> Option<
    int,
>
    decreases slots.len() - k,
{
    if k < 0 || k >= slots.len() {
        None
    } else if slots[k] == (id, name) {
        Some(k)
    } else {
        slot_from(slots, id, name, k + 1)
    }
}

/// The slot that holds parameter `name` of node `id`, if any.
pub open spec fn slot_of(slots: Seq<(u32, Seq<char>)>, id: u32, name: Seq<char>) -> Option<int> {
    slot_from(slots, id, name, 0)
}

/// The same compiled graph with other slot values.
pub open spec fn with_params(c: CompiledView, params: Seq<u32>) -> CompiledView {
    CompiledView { params, ..c }
}

/// Slot values after applying snapshot values in order; a value for a slot
/// that does not exist is ignored.
pub open spec fn apply_values(params: Seq<u32>, vals: Seq<ParamValue>) -> Seq<u32>
    decreases vals.len(),
{
    if vals.len() == 0 {
        params
    } else {
        let p = apply_values(params, vals.drop_last());
        let v = vals.last();
        if v.slot < p.len() {
            p.update(v.slot as int, v.value)
        } else {
            p
        }
    }
}

/// The first gate position at or after `k` for node `node`.
pub open spec fn gate_from(gates: Seq<(u32, usize)>, node: u32, k: int) -> Option<int>
    decreases gates.len() - k,
{
    if k < 0 || k >= gates.len() {
        None
    } else if gates[k].0 == node {
        Some(k)
    } else {
        gate_from(gates, node, k + 1)
    }
}

/// Dispatch slot of gate node `node`: its position among the gates,
/// if that is within the dispatch table.
pub open spec fn gate_slot_of(gates: Seq<(u32, usize)>, node: u32) -> Option<int> {
    match gate_from(gates, node, 0) {
        Some(s) => if s < MAX_GATES {
            Some(s)
        } else {
            None
        },
        None => None,
    }
}

/// An event's frame offset clamped into a block of `frames` frames.
pub open spec fn clamp_frame(frame: u16, frames: usize) -> u16 {
    let last: int = if frames == 0 {
        0
    } else {
        frames - 1
    };
    if frame <= last {
        frame
    } else {
        last as u16
    }
}

/// The level change an event asks of a gate: (frame, velocity); a note-off
/// asks for velocity 0. Other kinds ask nothing of a gate.
pub open spec fn change_of(ev: Event, frames: usize) -> Option<(u16, u8)> {
    match ev.kind {
        EventKind::NoteOn { velocity, .. } => Some((clamp_frame(ev.frame, frames), velocity)),
        EventKind::NoteOff { .. } => Some((clamp_frame(ev.frame, frames), 0u8)),
        _ => None,
    }
}

/// Whether an event asks anything of a gate: a note-on or a note-off.
pub open spec fn is_note(kind: EventKind) -> bool {
    kind is NoteOn || kind is NoteOff
}

/// How many of `evs` reach a gate's dispatch slot but are of a kind a gate
/// does not use (neither note-on nor note-off): dropped, and counted.
pub open spec fn unused_count(gates: Seq<(u32, usize)>, evs: Seq<Event>) -> nat
    decreases evs.len(),
{
    if evs.len() == 0 {
        0
    } else {
        unused_count(gates, evs.drop_last()) + if gate_slot_of(gates, evs.last().node.0) is Some
            && !is_note(evs.last().kind) {
            1nat
        } else {
            0nat
        }
    }
}

/// Per-gate level changes for one block, in event order. Events for unknown
/// or non-gate nodes, events past a gate's `MAX_GATE_EVENTS`, and events of
/// other kinds are ignored.
pub open spec fn dispatch(gates: Seq<(u32, usize)>, evs: Seq<Event>, frames: usize) -> Seq<
    Seq<(u16, u8)>,
>
    decreases evs.len(),
{
    if evs.len() == 0 {
        Seq::new(MAX_GATES as nat, |i: int| Seq::<(u16, u8)>::empty())
    } else {
        let prev = dispatch(gates, evs.drop_last(), frames);
        let ev = evs.last();
        match gate_slot_of(gates, ev.node.0) {
            None => prev,
            Some(s) => if prev[s].len() >= MAX_GATE_EVENTS {
                prev
            } else {
                match change_of(ev, frames) {
                    None => prev,
                    Some(c) => prev.update(s, prev[s].push(c)),
                }
            },
        }
    }
}

proof fn lemma_gate_from_range(gates: Seq<(u32, usize)>, node: u32, k: int)
    requires
        0 <= k,
    ensures
        gate_from(gates, node, k) matches Some(j) ==> k <= j < gates.len(),
    decreases gates.len() - k,
{
    if k < gates.len() && gates[k].0 != node {
        lemma_gate_from_range(gates, node, k + 1);
    }
}

proof fn lemma_dispatch_len(gates: Seq<(u32, usize)>, evs: Seq<Event>, frames: usize)
    ensures
        dispatch(gates, evs, frames).len() == MAX_GATES,
        forall|s: int|
            0 <= s < MAX_GATES ==> (#[trigger] dispatch(gates, evs, frames)[s]).len()
                <= MAX_GATE_EVENTS,
    decreases evs.len(),
{
    if evs.len() > 0 {
        lemma_dispatch_len(gates, evs.drop_last(), frames);
        lemma_gate_from_range(gates, evs.last().node.0, 0);
    }
}

proof fn lemma_wf_params(c: CompiledView, p: Seq<u32>)
    requires
        compiled_wf(c),
        p.len() == c.params.len(),
    ensures
        compiled_wf(with_params(c, p)),
{
}

impl CompiledGraph {
    /// Monotonic engine identity for parameter snapshot validation.
    pub fn generation(&self) -> (r: u64)
        ensures
            r == self@.generation,
    {
        self.generation
    }

    pub fn node_count(&self) -> (r: usize)
        ensures
            r == self@.nodes.len(),
    {
        self.nodes.len()
    }

    pub fn sample_rate(&self) -> (r: u32)
        ensures
            r == self@.sample_rate,
    {
        self.sample_rate
    }

    /// The largest block the engine processes at once.
    pub fn max_block(&self) -> (r: usize)
        ensures
            r == self@.max_block,
    {
        self.max_block
    }

    fn find_slot(&self, id: NodeId, name: &str) -> (r: Option<usize>)
        requires
            self.wf(),
        ensures
            match (r, slot_of(self@.slots, id.0, name@)) {
                (Some(i), Some(j)) => i == j,
                (None, None) => true,
                _ => false,
            },
    {
        let mut i: usize = 0;
        while i < self.param_index.len()
            invariant
                self.wf(),
                i <= self.param_index@.len(),
                self@.slots.len() == self.param_index@.len(),
                slot_of(self@.slots, id.0, name@) == slot_from(self@.slots, id.0, name@, i as int),
            decreases self.param_index.len() - i,
        {
            let e = self.param_index[i];
            proof {
                assert(self@.slots[i as int] == (e.0.0, e.1@));
            }
            if e.0 == id && same_text(e.1, name) {
                return Some(e.2);
            }
            i = i + 1;
        }
        None
    }

    /// The slot holding parameter `name` of node `id`.
    pub fn param_slot(&self, id: NodeId, name: &str) -> (r: Option<usize>)
        requires
            self.wf(),
        ensures
            match (r, slot_of(self@.slots, id.0, name@)) {
                (Some(i), Some(j)) => i == j,
                (None, None) => true,
                _ => false,
            },
            r matches Some(i) ==> i < self@.params.len(),
    {
        let r = self.find_slot(id, name);
        proof {
            lemma_slot_from_range(self@.slots, id.0, name@, 0);
        }
        r
    }

    /// Writes a value (as `f32` bits) into the slot of a node's parameter.
    /// Not range-checked: the graph checked values on the control side.
    pub fn set_param(&mut self, id: NodeId, name: &str, bits: u32) -> (r: Result<(), GraphError>)
        requires
            old(self).wf(),
        ensures
            final(self).wf(),
            slot_of(old(self)@.slots, id.0, name@) is Some <==> r is Ok,
            r matches Err(e) ==> e@ == (ErrorView::UnknownParam {
                node: decimal(id.0 as nat),
                param: name@,
            }) && final(self)@ == old(self)@,
            r is Ok ==> final(self)@ == with_params(
                old(self)@,
                old(self)@.params.update(slot_of(old(self)@.slots, id.0, name@)->0, bits),
            ),
    {
        match self.find_slot(id, name) {
            Some(slot) => {
                proof {
                    lemma_slot_from_range(self@.slots, id.0, name@, 0);
                }
                let ghost before = self@;
                self.params.set(slot, ParamSlot::new(bits));
                proof {
                    assert(self@.params =~= before.params.update(slot as int, bits));
                    assert(self@ == with_params(before, before.params.update(slot as int, bits)));
                    lemma_wf_params(before, before.params.update(slot as int, bits));
                }
                Ok(())
            },
            None => Err(
                GraphError::UnknownParam {
                    node: decimal_string(id.0),
                    param: String::from_str(name),
                },
            ),
        }
    }

    /// Applies a coalesced snapshot at a block boundary, unless it carries
    /// another engine's generation (stale-patch guard). Returns whether it
    /// was applied.
    pub fn apply_snapshot(&mut self, snap: &ParamSnapshot) -> (r: bool)
        requires
            old(self).wf(),
        ensures
            final(self).wf(),
            r == (snap.generation == old(self)@.generation),
            !r ==> final(self)@ == old(self)@,
            r ==> final(self)@ == with_params(old(self)@, apply_values(old(self)@.params, snap.values@)),
    {
        if snap.generation != self.generation {
            return false;
        }
        let ghost before = self@;
        let mut i: usize = 0;
        while i < snap.values.len()
            invariant
                i <= snap.values@.len(),
                self.wf(),
                self@ == with_params(before, apply_values(before.params, snap.values@.take(i as int))),
            decreases snap.values.len() - i,
        {
            let v = snap.values[i];
            let ghost cur = self@;
            proof {
                assert(snap.values@.take(i + 1).drop_last() =~= snap.values@.take(i as int));
                lemma_apply_len(before.params, snap.values@.take(i as int));
            }
            if v.slot < self.params.len() {
                self.params.set(v.slot, ParamSlot::new(v.value));
                proof {
                    assert(self@.params =~= cur.params.update(v.slot as int, v.value));
                    assert(self@ == with_params(cur, cur.params.update(v.slot as int, v.value)));
                    lemma_wf_params(cur, cur.params.update(v.slot as int, v.value));
                }
            }
            i = i + 1;
        }
        proof {
            assert(snap.values@.take(i as int) =~= snap.values@);
        }
        true
    }

    /// Frames to process for a request: at most `max_block` and at most the
    /// output's length.
    pub fn block_frames(&self, frames: usize, out_len: usize) -> (r: usize)
        ensures
            r == vstd::math::min(
                vstd::math::min(frames as int, self@.max_block as int),
                out_len as int,
            ),
    {
        let f = if frames < self.max_block {
            frames
        } else {
            self.max_block
        };
        if f < out_len {
            f
        } else {
            out_len
        }
    }

    /// Dispatch slot of a gate node, by id.
    fn gate_slot_for_id(&self, node: NodeId) -> (r: Option<usize>)
        ensures
            match (r, gate_slot_of(self@.gates, node.0)) {
                (Some(i), Some(j)) => i == j,
                (None, None) => true,
                _ => false,
            },
    {
        let mut i: usize = 0;
        while i < self.gate_nodes.len()
            invariant
                i <= self.gate_nodes@.len(),
                self@.gates.len() == self.gate_nodes@.len(),
                gate_from(self@.gates, node.0, 0) == gate_from(self@.gates, node.0, i as int),
            decreases self.gate_nodes.len() - i,
        {
            proof {
                assert(self@.gates[i as int] == (self.gate_nodes@[i as int].0.0, self.gate_nodes@[i as int].1));
            }
            if self.gate_nodes[i].0 == node {
                if i < MAX_GATES {
                    return Some(i);
                } else {
                    return None;
                }
            }
            i = i + 1;
        }
        None
    }

    /// Collects this block's level changes per gate from the pending events
    /// of the window (in the window's order) into `out`, then rewinds the
    /// window. Each change is (clamped frame, velocity); the level it asks
    /// for is `velocity / 127`. Returns how many events reached a gate but
    /// were of a kind no gate uses.
    pub fn gate_changes(&self, frames: usize, events: &mut EventWindow, out: &mut GateChanges) -> (unused: usize)
        requires
            old(events).wf(),
            old(out).wf(),
        ensures
            final(events).wf(),
            final(events).events() == old(events).events(),
            final(events).slots() == old(events).slots(),
            final(events).capacity() == old(events).capacity(),
            final(events).cursor() == 0,
            final(out).wf(),
            final(out)@ == dispatch(
                self@.gates,
                old(events).events().skip(old(events).cursor() as int),
                frames,
            ),
            unused == unused_count(
                self@.gates,
                old(events).events().skip(old(events).cursor() as int),
            ),
    {
        let ghost evs = events.events();
        let ghost c0 = events.cursor() as int;
        proof {
            events.lemma_wf();
            lemma_dispatch_len(self@.gates, evs.skip(c0), frames);
        }
        let mut g: usize = 0;
        while g < MAX_GATES
            invariant
                g <= MAX_GATES,
                out.lists@.len() == MAX_GATES,
                forall|s: int| 0 <= s < g ==> (#[trigger] out.lists@[s])@ == Seq::<(u16, u8)>::empty(),
            decreases MAX_GATES - g,
        {
            out.lists[g].clear();
            g = g + 1;
        }
        let mut unused: usize = 0;
        proof {
            assert(evs.skip(c0).take(0) =~= Seq::<Event>::empty());
        }
        while events.has_pending()
            invariant
                events.wf(),
                events.events() == evs,
                events.slots() == old(events).slots(),
                unused == unused_count(self@.gates, evs.skip(c0).take(events.cursor() - c0)),
                unused <= events.cursor() - c0,
                events.capacity() == old(events).capacity(),
                0 <= c0 <= events.cursor() <= evs.len(),
                out.lists@.len() == MAX_GATES,
                forall|s: int|
                    0 <= s < MAX_GATES ==> (#[trigger] out.lists@[s])@ == dispatch(
                        self@.gates,
                        evs.skip(c0).take(events.cursor() - c0),
                        frames,
                    )[s],
            decreases evs.len() - events.cursor(),
        {
            let ghost k = events.cursor() - c0;
            proof {
                events.lemma_wf();
            }
            let ev = events.next_pending().unwrap();
            let ghost pre = evs.skip(c0).take(k);
            let ghost post = evs.skip(c0).take(k + 1);
            proof {
                assert(0 <= k < evs.len() - c0);
                assert(ev == evs[c0 + k]);
                assert(evs.skip(c0)[k] == evs[c0 + k]);
                assert(post.len() == k + 1);
                assert(post.drop_last() =~= pre);
                assert(post.last() == ev);
                lemma_dispatch_len(self@.gates, pre, frames);
            }
            let slot = match self.gate_slot_for_id(ev.node) {
                Some(s) => s,
                None => {
                    continue;
                },
            };
            let note = match ev.kind {
                EventKind::NoteOn { .. } => true,
                EventKind::NoteOff { .. } => true,
                _ => false,
            };
            if !note {
                proof {
                    events.lemma_wf();
                }
                unused = unused + 1;
                continue;
            }
            if out.lists[slot].len() >= MAX_GATE_EVENTS {
                continue;
            }
            let level: u8 = match ev.kind {
                EventKind::NoteOn { velocity, .. } => velocity,
                EventKind::NoteOff { .. } => 0,
                _ => {
                    continue;
                },
            };
            let last = if frames == 0 {
                0
            } else {
                frames - 1
            };
            let frame: u16 = if (ev.frame as usize) <= last {
                ev.frame
            } else {
                last as u16
            };
            let ghost before = out.lists@;
            out.lists[slot].push((frame, level));
            proof {
                let d = dispatch(self@.gates, pre, frames);
                assert(change_of(ev, frames) == Some((frame, level)));
                assert forall|s: int| 0 <= s < MAX_GATES implies (#[trigger] out.lists@[s])@ == dispatch(
                    self@.gates,
                    post,
                    frames,
                )[s] by {
                    if s != slot {
                        assert(out.lists@[s] == before[s]);
                    }
                }
            }
        }
        events.rewind();
        proof {
            assert(evs.skip(c0).take(evs.len() - c0) =~= evs.skip(c0));
        }
        proof {
            assert(out@ =~= dispatch(self@.gates, evs.skip(c0), frames));
        }
        unused
    }

    /// The node at position `i`.
    pub fn node(&self, i: usize) -> (r: CompiledNode)
        requires
            i < self@.nodes.len(),
        ensures
            r == self@.nodes[i as int],
    {
        self.nodes[i]
    }

    /// Node positions in processing order.
    pub fn order(&self) -> (r: &[usize])
        ensures
            r@ == self@.order,
    {
        self.order.as_slice()
    }

    pub fn edges(&self) -> (r: &[Edge])
        ensures
            r@ == self@.edges,
    {
        self.edges.as_slice()
    }

    /// Current value (as `f32` bits) of a slot.
    pub fn param_bits(&self, slot: usize) -> (r: u32)
        requires
            slot < self@.params.len(),
        ensures
            r == self@.params[slot as int],
    {
        self.params[slot].load()
    }

    pub fn output_index(&self) -> (r: usize)
        ensures
            r == self@.output_index,
    {
        self.output_index
    }

    /// Dispatch slot of a gate, by node position, if it has one.
    pub fn gate_slot(&self, idx: usize) -> (r: Option<usize>)
        ensures
            r matches Some(s) ==> s < MAX_GATES && s < self@.gates.len() && self@.gates[s as int].1
                == idx && forall|k: int| 0 <= k < s ==> self@.gates[k].1 != idx,
            r is None ==> forall|k: int|
                0 <= k < self@.gates.len() && k < MAX_GATES ==> self@.gates[k].1 != idx,
    {
        let mut i: usize = 0;
        while i < self.gate_nodes.len()
            invariant
                i <= self.gate_nodes@.len(),
                self@.gates.len() == self.gate_nodes@.len(),
                forall|k: int| 0 <= k < i ==> self@.gates[k].1 != idx,
            decreases self.gate_nodes.len() - i,
        {
            proof {
                assert(self@.gates[i as int].1 == self.gate_nodes@[i as int].1);
            }
            if self.gate_nodes[i].1 == idx {
                if i < MAX_GATES {
                    return Some(i);
                } else {
                    return None;
                }
            }
            i = i + 1;
        }
        None
    }
}

/// Dispatch keeps every level change inside the block it belongs to (at a
/// frame below `frames`, for a block of at least one frame), gives each gate
/// at most `MAX_GATE_EVENTS` changes, and keeps each gate's changes in frame
/// order when the events come in frame order.
pub proof fn lemma_dispatch_in_block(gates: Seq<(u32, usize)>, evs: Seq<Event>, frames: usize)
    requires
        frames > 0,
    ensures
        dispatch(gates, evs, frames).len() == MAX_GATES,
        forall|s: int|
            0 <= s < MAX_GATES ==> #[trigger] dispatch(gates, evs, frames)[s].len() <= MAX_GATE_EVENTS,
        forall|s: int, j: int|
            0 <= s < MAX_GATES && 0 <= j < dispatch(gates, evs, frames)[s].len() ==> (#[trigger] dispatch(
                gates,
                evs,
                frames,
            )[s][j]).0 < frames,
        sorted_by_frame(evs) ==> forall|s: int, i: int, j: int|
            0 <= s < MAX_GATES && 0 <= i < j < dispatch(gates, evs, frames)[s].len() ==> (
            #[trigger] dispatch(gates, evs, frames)[s][i]).0 <= (#[trigger] dispatch(
                gates,
                evs,
                frames,
            )[s][j]).0,
    decreases evs.len(),
{
    let d = dispatch(gates, evs, frames);
    if evs.len() == 0 {
        assert(d.len() == MAX_GATES);
    } else {
        let prev = dispatch(gates, evs.drop_last(), frames);
        lemma_dispatch_in_block(gates, evs.drop_last(), frames);
        let ev = evs.last();
        let sorted = sorted_by_frame(evs);
        if sorted {
            assert(sorted_by_frame(evs.drop_last())) by {
                assert forall|a: int, b: int| 0 <= a < b < evs.drop_last().len() implies
                    (#[trigger] evs.drop_last()[a]).frame <= (#[trigger] evs.drop_last()[b]).frame by {
                    assert(evs.drop_last()[a] == evs[a] && evs.drop_last()[b] == evs[b]);
                }
            }
            assert forall|k: int| 0 <= k < evs.drop_last().len() implies (#[trigger] evs.drop_last()[k]).frame
                <= ev.frame by {
                assert(evs.drop_last()[k] == evs[k]);
                assert(ev == evs[evs.len() - 1]);
            }
            lemma_dispatch_frames_below(gates, evs.drop_last(), frames, ev.frame);
        }
        lemma_gate_from_range(gates, ev.node.0, 0);
        match gate_slot_of(gates, ev.node.0) {
            None => {
                assert(d == prev);
            },
            Some(s) => {
                if prev[s].len() >= MAX_GATE_EVENTS {
                    assert(d == prev);
                } else {
                    match change_of(ev, frames) {
                        None => {
                            assert(d == prev);
                        },
                        Some(c) => {
                            assert(d == prev.update(s, prev[s].push(c)));
                            assert(c.0 == clamp_frame(ev.frame, frames));
                            assert(c.0 < frames);
                            assert forall|s2: int, j: int|
                                0 <= s2 < MAX_GATES && 0 <= j < d[s2].len() implies (#[trigger] d[s2][j]).0
                                < frames by {
                                if s2 == s && j == prev[s].len() {
                                } else if s2 == s {
                                    assert(d[s2][j] == prev[s2][j]);
                                } else {
                                    assert(d[s2] == prev[s2]);
                                }
                            }
                            if sorted {
                                assert forall|s2: int, i: int, j: int|
                                    0 <= s2 < MAX_GATES && 0 <= i < j < d[s2].len() implies (
                                    #[trigger] d[s2][i]).0 <= (#[trigger] d[s2][j]).0 by {
                                    if s2 == s {
                                        assert(d[s2][i] == prev[s2][i]);
                                        if j < prev[s].len() {
                                            assert(d[s2][j] == prev[s2][j]);
                                        }
                                    } else {
                                        assert(d[s2] == prev[s2]);
                                    }
                                }
                            }
                        },
                    }
                }
            },
        }
    }
}

/// Changes that come from events at or before frame `f` are at frames at or
/// before the clamp of `f`.
proof fn lemma_dispatch_frames_below(gates: Seq<(u32, usize)>, evs: Seq<Event>, frames: usize, f: u16)
    requires
        frames > 0,
        forall|k: int| 0 <= k < evs.len() ==> (#[trigger] evs[k]).frame <= f,
    ensures
        forall|s: int, j: int|
            0 <= s < MAX_GATES && 0 <= j < dispatch(gates, evs, frames)[s].len() ==> (#[trigger] dispatch(
                gates,
                evs,
                frames,
            )[s][j]).0 <= clamp_frame(f, frames),
    decreases evs.len(),
{
    let d = dispatch(gates, evs, frames);
    if evs.len() > 0 {
        let prev = dispatch(gates, evs.drop_last(), frames);
        lemma_dispatch_in_block(gates, evs.drop_last(), frames);
        assert forall|k: int| 0 <= k < evs.drop_last().len() implies (#[trigger] evs.drop_last()[k]).frame <= f by {
            assert(evs.drop_last()[k] == evs[k]);
        }
        lemma_dispatch_frames_below(gates, evs.drop_last(), frames, f);
        let ev = evs.last();
        assert(ev == evs[evs.len() - 1]);
        assert(ev.frame <= f);
        lemma_gate_from_range(gates, ev.node.0, 0);
        match gate_slot_of(gates, ev.node.0) {
            None => {
                assert(d == prev);
            },
            Some(s) => {
                if prev[s].len() >= MAX_GATE_EVENTS {
                    assert(d == prev);
                } else {
                    match change_of(ev, frames) {
                        None => {
                            assert(d == prev);
                        },
                        Some(c) => {
                            assert(d == prev.update(s, prev[s].push(c)));
                            assert(c.0 <= clamp_frame(f, frames));
                            assert forall|s2: int, j: int|
                                0 <= s2 < MAX_GATES && 0 <= j < d[s2].len() implies (#[trigger] d[s2][j]).0
                                <= clamp_frame(f, frames) by {
                                if s2 == s && j == prev[s].len() {
                                } else if s2 == s {
                                    assert(d[s2][j] == prev[s2][j]);
                                } else {
                                    assert(d[s2] == prev[s2]);
                                }
                            }
                        },
                    }
                }
            },
        }
    }
}

/// The slot values after a snapshot with one value per slot: a slot the
/// snapshot addresses holds the snapshot's value, every other slot keeps its
/// value. Values for slots past the table are ignored.
pub proof fn lemma_apply_values(params: Seq<u32>, vals: Seq<ParamValue>)
    requires
        distinct_slots(vals),
    ensures
        apply_values(params, vals).len() == params.len(),
        forall|s: usize|
            s < params.len() ==> #[trigger] apply_values(params, vals)[s as int] == match value_for(
                vals,
                s,
            ) {
                Some(x) => x,
                None => params[s as int],
            },
    decreases vals.len(),
{
    lemma_apply_len(params, vals);
    if vals.len() > 0 {
        let pre = vals.drop_last();
        let v = vals.last();
        assert(distinct_slots(pre)) by {
            assert forall|i: int, j: int| 0 <= i < pre.len() && 0 <= j < pre.len() && i != j implies (
            #[trigger] pre[i]).slot != (#[trigger] pre[j]).slot by {
                assert(pre[i] == vals[i] && pre[j] == vals[j]);
            }
        }
        lemma_apply_values(params, pre);
        assert forall|s: usize| s < params.len() implies #[trigger] apply_values(params, vals)[s as int]
            == match value_for(vals, s) {
            Some(x) => x,
            None => params[s as int],
        } by {
            lemma_value_for_first(vals, s);
            lemma_value_for_first(pre, s);
            let last = vals.len() - 1;
            if v.slot == s {
                assert(vals[last] == v);
                assert forall|k: int| 0 <= k < last implies vals[k].slot != s by {
                    assert(vals[k].slot != vals[last].slot);
                }
                assert(value_for(vals, s) == Some(v.value));
            } else {
                if has_slot(pre, s) {
                    let i = choose|i: int| 0 <= i < pre.len() && (#[trigger] pre[i]).slot == s;
                    assert(pre[i] == vals[i]);
                    assert forall|k: int| 0 <= k < i implies vals[k].slot != s by {
                        assert(vals[k].slot != vals[i].slot);
                    }
                    assert forall|k: int| 0 <= k < i implies pre[k].slot != s by {
                        assert(pre[k] == vals[k]);
                    }
                    assert(value_for(vals, s) == Some(vals[i].value));
                    assert(value_for(pre, s) == Some(pre[i].value));
                } else {
                    if has_slot(vals, s) {
                        let i = choose|i: int| 0 <= i < vals.len() && (#[trigger] vals[i]).slot == s;
                        if i < last {
                            assert(pre[i] == vals[i]);
                        }
                    }
                    assert(value_for(vals, s) is None);
                }
            }
        }
    }
}

proof fn lemma_apply_len(params: Seq<u32>, vals: Seq<ParamValue>)
    ensures
        apply_values(params, vals).len() == params.len(),
    decreases vals.len(),
{
    if vals.len() > 0 {
        lemma_apply_len(params, vals.drop_last());
    }
}

proof fn lemma_slot_from_range(slots: Seq<(u32, Seq<char>)>, id: u32, name: Seq<char>, k: int)
    requires
        0 <= k,
    ensures
        slot_from(slots, id, name, k) matches Some(j) ==> k <= j < slots.len(),
    decreases slots.len() - k,
{
    if k < slots.len() && slots[k] != (id, name) {
        lemma_slot_from_range(slots, id, name, k + 1);
    }
}

/// `lv` gives each node its dependency level: sources are at level 0, every
/// edge climbs at least one level, and a node above level 0 has an input
/// exactly one level below it. That is the length of the longest chain of
/// edges that ends at the node, so the levels are determined by the graph
/// (`lemma_levels_unique`).
pub open spec fn levels_ok(c: CompiledView, lv: Seq<int>) -> bool {
    &&& lv.len() == c.nodes.len()
    &&& forall|v: int| 0 <= v < lv.len() ==> 0 <= #[trigger] lv[v]
    &&& forall|k: int|
        0 <= k < c.edges.len() ==> lv[(#[trigger] c.edges[k]).src as int] < lv[c.edges[k].dst as int]
    &&& forall|v: int|
        0 <= v < lv.len() && #[trigger] lv[v] > 0 ==> exists|k: int|
            0 <= k < c.edges.len() && (#[trigger] c.edges[k]).dst == v && lv[c.edges[k].src as int]
                == lv[v] - 1
}

proof fn lemma_level_le(c: CompiledView, lv1: Seq<int>, lv2: Seq<int>, v: int)
    requires
        compiled_wf(c),
        levels_ok(c, lv1),
        levels_ok(c, lv2),
        0 <= v < lv1.len(),
    ensures
        lv1[v] <= lv2[v],
    decreases lv1[v],
{
    if lv1[v] > 0 {
        let k = choose|k: int|
            0 <= k < c.edges.len() && (#[trigger] c.edges[k]).dst == v && lv1[c.edges[k].src as int]
                == lv1[v] - 1;
        let u = c.edges[k].src as int;
        assert(0 <= lv1[u]);
        lemma_level_le(c, lv1, lv2, u);
        assert(lv2[u] < lv2[c.edges[k].dst as int]);
    }
}

/// The dependency levels of a compiled graph are determined by it: two
/// level assignments that both satisfy `levels_ok` are the same.
pub proof fn lemma_levels_unique(c: CompiledView, lv1: Seq<int>, lv2: Seq<int>)
    requires
        compiled_wf(c),
        levels_ok(c, lv1),
        levels_ok(c, lv2),
    ensures
        lv1 == lv2,
{
    assert forall|v: int| 0 <= v < lv1.len() implies lv1[v] == lv2[v] by {
        lemma_level_le(c, lv1, lv2, v);
        lemma_level_le(c, lv2, lv1, v);
    }
    assert(lv1 =~= lv2);
}

/// `parts` groups the nodes by level `lv`: one group per level from 0 to the
/// highest, each in ascending node position.
pub open spec fn partitions_by(parts: Seq<Seq<usize>>, lv: Seq<int>) -> bool {
    &&& forall|v: int| 0 <= v < lv.len() ==> #[trigger] lv[v] < parts.len()
    &&& exists|v: int| 0 <= v < lv.len() && #[trigger] lv[v] == parts.len() - 1
    &&& forall|p: int, i: int, j: int|
        0 <= p < parts.len() && 0 <= i < j < parts[p].len() ==> (#[trigger] parts[p][i]) < (
        #[trigger] parts[p][j])
    &&& forall|p: int, i: int|
        0 <= p < parts.len() && 0 <= i < parts[p].len() ==> (#[trigger] parts[p][i]) < lv.len() && lv[
            parts[p][i] as int] == p
    &&& forall|v: int| 0 <= v < lv.len() ==> #[trigger] parts[lv[v]].contains(v as usize)
}

/// Position of node `v` in the processing order.
pub open spec fn order_pos(c: CompiledView, v: int) -> int {
    choose|i: int| 0 <= i < c.order.len() && c.order[i] == v
}

proof fn lemma_order_pos(c: CompiledView)
    requires
        compiled_wf(c),
        c.nodes.len() <= usize::MAX,
    ensures
        forall|v: int|
            0 <= v < c.nodes.len() ==> 0 <= #[trigger] order_pos(c, v) < c.nodes.len() && c.order[order_pos(
                c,
                v,
            )] == v,
        forall|i: int| 0 <= i < c.nodes.len() ==> #[trigger] order_pos(c, c.order[i] as int) == i,
        forall|k: int|
            0 <= k < c.edges.len() ==> order_pos(c, (#[trigger] c.edges[k]).src as int) < order_pos(
                c,
                c.edges[k].dst as int,
            ),
{
    let n = c.nodes.len() as int;
    assert(c.order.no_duplicates());
    lemma_perm_covers(c.order, n);
    assert forall|v: int| 0 <= v < n implies 0 <= #[trigger] order_pos(c, v) < n && c.order[order_pos(c, v)]
        == v by {
        assert(c.order.contains(v as usize));
        let i = choose|i: int| 0 <= i < c.order.len() && c.order[i] == v as usize;
        assert(c.order[i] == v);
    }
    assert forall|i: int| 0 <= i < n implies #[trigger] order_pos(c, c.order[i] as int) == i by {
        let v = c.order[i] as int;
        assert(c.order.contains(v as usize));
        let p = order_pos(c, v);
        assert(c.order[p] == c.order[i]);
    }
    assert forall|k: int| 0 <= k < c.edges.len() implies order_pos(c, (#[trigger] c.edges[k]).src as int)
        < order_pos(c, c.edges[k].dst as int) by {
        let a = order_pos(c, c.edges[k].src as int);
        let b = order_pos(c, c.edges[k].dst as int);
        assert(c.order.contains(c.edges[k].src));
        assert(c.order.contains(c.edges[k].dst));
        if b <= a {
            assert(c.order[b] == c.edges[k].dst && c.order[a] == c.edges[k].src);
        }
    }
}

impl CompiledGraph {
    /// The dependency level of each node, by position.
    fn dependency_levels(&self) -> (level: Vec<usize>)
        requires
            self.wf(),
        ensures
            levels_ok(self@, level@.map_values(|x: usize| x as int)),
            level@.len() == self@.nodes.len(),
            forall|v: int| 0 <= v < level@.len() ==> #[trigger] level@[v] < level@.len(),
    {
        let ghost c = self@;
        let n = self.nodes.len();
        proof {
            lemma_order_pos(c);
        }
        let mut level: Vec<usize> = Vec::new();
        let mut i: usize = 0;
        while i < n
            invariant
                i <= n,
                level@.len() == i,
                forall|v: int| 0 <= v < i ==> #[trigger] level@[v] == 0,
            decreases n - i,
        {
            level.push(0);
            i = i + 1;
        }
        let mut t: usize = 0;
        while t < n
            invariant
                self.wf(),
                c == self@,
                n == c.nodes.len(),
                t <= n,
                level@.len() == n,
                forall|v: int|
                    0 <= v < c.nodes.len() ==> 0 <= #[trigger] order_pos(c, v) < c.nodes.len()
                        && c.order[order_pos(c, v)] == v,
                forall|i2: int| 0 <= i2 < c.nodes.len() ==> #[trigger] order_pos(c, c.order[i2] as int) == i2,
                forall|k: int|
                    0 <= k < c.edges.len() ==> order_pos(c, (#[trigger] c.edges[k]).src as int) < order_pos(
                        c,
                        c.edges[k].dst as int,
                    ),
                forall|v: int| 0 <= v < n && order_pos(c, v) >= t ==> #[trigger] level@[v] == 0,
                forall|v: int| 0 <= v < n && order_pos(c, v) < t ==> #[trigger] level@[v] <= order_pos(c, v),
                forall|k: int|
                    0 <= k < c.edges.len() && order_pos(c, (#[trigger] c.edges[k]).dst as int) < t ==> level@[
                        c.edges[k].src as int] < level@[c.edges[k].dst as int],
                forall|v: int|
                    0 <= v < n && order_pos(c, v) < t && #[trigger] level@[v] > 0 ==> exists|k: int|
                        0 <= k < c.edges.len() && (#[trigger] c.edges[k]).dst == v && level@[
                            c.edges[k].src as int] == level@[v] - 1,
            decreases n - t,
        {
            let v = self.order[t];
            proof {
                assert(c.order[t as int] == v);
                assert(order_pos(c, v as int) == t);
            }
            let mut acc: usize = 0;
            let mut k: usize = 0;
            while k < self.edges.len()
                invariant
                    c == self@,
                    n == c.nodes.len(),
                    level@.len() == n,
                    v < n,
                    order_pos(c, v as int) == t,
                    k <= c.edges.len(),
                    forall|k2: int| 0 <= k2 < c.edges.len() ==> (#[trigger] c.edges[k2]).src < n,
                    forall|w: int| 0 <= w < n && order_pos(c, w) < t ==> #[trigger] level@[w] <= order_pos(c, w),
                    forall|k2: int|
                        0 <= k2 < c.edges.len() ==> order_pos(c, (#[trigger] c.edges[k2]).src as int) < order_pos(
                            c,
                            c.edges[k2].dst as int,
                        ),
                    acc <= t,
                    acc == 0 || exists|k2: int|
                        0 <= k2 < k && (#[trigger] c.edges[k2]).dst == v && level@[c.edges[k2].src as int]
                            + 1 == acc,
                    forall|k2: int|
                        0 <= k2 < k && (#[trigger] c.edges[k2]).dst == v ==> level@[c.edges[k2].src as int]
                            + 1 <= acc,
                decreases c.edges.len() - k,
            {
                let e = self.edges[k];
                if e.dst == v {
                    proof {
                        assert(c.edges[k as int] == e);
                        assert(order_pos(c, e.src as int) < t);
                    }
                    let cand = level[e.src] + 1;
                    if cand > acc {
                        acc = cand;
                    }
                }
                k = k + 1;
            }
            let ghost before = level@;
            level.set(v, acc);
            proof {
                assert forall|k2: int|
                    0 <= k2 < c.edges.len() && order_pos(c, (#[trigger] c.edges[k2]).dst as int) < t + 1
                    implies level@[c.edges[k2].src as int] < level@[c.edges[k2].dst as int] by {
                    assert(c.edges[k2].src < n && c.edges[k2].dst < n);
                    assert(order_pos(c, c.edges[k2].src as int) < order_pos(c, c.edges[k2].dst as int));
                    assert(c.edges[k2].src != v);
                }
                assert forall|w: int|
                    0 <= w < n && order_pos(c, w) < t + 1 && #[trigger] level@[w] > 0 implies exists|k2: int|
                    0 <= k2 < c.edges.len() && (#[trigger] c.edges[k2]).dst == w && level@[c.edges[k2].src as int]
                    == level@[w] - 1 by {
                    if w == v {
                        let k2 = choose|k2: int|
                            0 <= k2 < c.edges.len() && (#[trigger] c.edges[k2]).dst == v && before[c.edges[k2].src as int]
                                + 1 == acc;
                        assert(c.edges[k2].src != v);
                    } else {
                        assert(order_pos(c, w) < t);
                        let k2 = choose|k2: int|
                            0 <= k2 < c.edges.len() && (#[trigger] c.edges[k2]).dst == w && before[c.edges[k2].src as int]
                                == before[w] - 1;
                        assert(order_pos(c, c.edges[k2].src as int) < order_pos(c, w));
                        assert(c.edges[k2].src != v);
                    }
                }
            }
            t = t + 1;
        }
        proof {
            let lv = level@.map_values(|x: usize| x as int);
            assert forall|x: int| 0 <= x < n implies #[trigger] level@[x] < n by {
                assert(order_pos(c, x) < n);
            }
            assert(levels_ok(c, lv)) by {
                assert forall|k2: int| 0 <= k2 < c.edges.len() implies lv[(#[trigger] c.edges[k2]).src as int] < lv[c.edges[k2].dst as int] by {
                    assert(order_pos(c, c.edges[k2].dst as int) < n);
                }
                assert forall|x: int| 0 <= x < lv.len() && #[trigger] lv[x] > 0 implies exists|k2: int|
                    0 <= k2 < c.edges.len() && (#[trigger] c.edges[k2]).dst == x && lv[c.edges[k2].src as int]
                    == lv[x] - 1 by {
                    assert(level@[x] > 0);
                    let k2 = choose|k2: int|
                        0 <= k2 < c.edges.len() && (#[trigger] c.edges[k2]).dst == x && level@[c.edges[k2].src as int]
                            == level@[x] - 1;
                    assert(lv[c.edges[k2].src as int] == level@[c.edges[k2].src as int]);
                }
            }
        }
        level
    }

    /// Groups the nodes into dependency levels: nodes of one level do not
    /// depend on each other, so each level can run in parallel once the
    /// levels before it are done.
    pub fn parallel_partitions(&self) -> (r: Vec<Vec<usize>>)
        requires
            self.wf(),
        ensures
            exists|lv: Seq<int>|
                levels_ok(self@, lv) && partitions_by(
                    r@.map_values(|p: Vec<usize>| p@),
                    lv,
                ),
    {
        let ghost c = self@;
        let n = self.nodes.len();
        let level = self.dependency_levels();
        // the highest level
        let mut top: usize = 0;
        let mut w: usize = 0;
        let ghost mut top_at: int = 0;
        while w < n
            invariant
                n == c.nodes.len(),
                n > 0,
                level@.len() == n,
                w <= n,
                forall|v: int| 0 <= v < w ==> #[trigger] level@[v] <= top,
                (w == 0 && top == 0) || (0 <= top_at < w && level@[top_at] == top),
                forall|v: int| 0 <= v < n ==> #[trigger] level@[v] < n,
            decreases n - w,
        {
            if level[w] > top || w == 0 {
                top = level[w];
                proof {
                    top_at = w as int;
                }
            }
            w = w + 1;
        }
        let mut parts: Vec<Vec<usize>> = Vec::new();
        let mut p: usize = 0;
        while p <= top
            invariant
                n == c.nodes.len(),
                level@.len() == n,
                top < n,
                p <= top + 1,
                parts@.len() == p,
                forall|q: int, i2: int, j2: int|
                    0 <= q < p && 0 <= i2 < j2 < parts@[q]@.len() ==> (#[trigger] parts@[q]@[i2]) < (
                    #[trigger] parts@[q]@[j2]),
                forall|q: int, i2: int|
                    0 <= q < p && 0 <= i2 < parts@[q]@.len() ==> (#[trigger] parts@[q]@[i2]) < n && level@[
                        parts@[q]@[i2] as int] == q,
                forall|v: int| 0 <= v < n && level@[v] < p ==> #[trigger] parts@[level@[v] as int]@.contains(
                    v as usize,
                ),
            decreases top + 1 - p,
        {
            let mut part: Vec<usize> = Vec::new();
            let mut v: usize = 0;
            while v < n
                invariant
                    n == c.nodes.len(),
                    level@.len() == n,
                    v <= n,
                    forall|i2: int, j2: int| 0 <= i2 < j2 < part@.len() ==> part@[i2] < part@[j2],
                    forall|i2: int| 0 <= i2 < part@.len() ==> #[trigger] part@[i2] < v && level@[part@[i2] as int] == p,
                    forall|x: int| 0 <= x < v && #[trigger] level@[x] == p ==> part@.contains(x as usize),
                decreases n - v,
            {
                if level[v] == p {
                    let ghost pb = part@;
                    part.push(v);
                    proof {
                        crate::topo::lemma_push_contains(pb, v);
                    }
                }
                v = v + 1;
            }
            let ghost pb = parts@;
            parts.push(part);
            proof {
                assert forall|x: int| 0 <= x < n && level@[x] < p + 1 implies #[trigger] parts@[level@[x] as int]@.contains(
                    x as usize,
                ) by {
                    if level@[x] < p {
                        assert(parts@[level@[x] as int] == pb[level@[x] as int]);
                    }
                }
            }
            p = p + 1;
        }
        proof {
            let lv = level@.map_values(|x: usize| x as int);
            let pv = parts@.map_values(|q: Vec<usize>| q@);
            assert(partitions_by(pv, lv)) by {
                assert(lv[top_at] == pv.len() - 1);
                assert forall|x: int| 0 <= x < lv.len() implies #[trigger] pv[lv[x]].contains(x as usize) by {
                    assert(parts@[level@[x] as int]@.contains(x as usize));
                }
            }
        }
        parts
    }
}

} // verus!

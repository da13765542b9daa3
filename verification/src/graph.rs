use vstd::prelude::*;

use crate::error::{ErrorView, GraphError};
use crate::text::{decimal, decimal_string, dotted, dotted_string, same_text};
use crate::topo::{
    acyclic, blocked, count_of, dst_of, first_blocked, is_topo_order, lemma_count_front,
    lemma_count_split, lemma_count_succs, lemma_distinct_full, lemma_distinct_short,
    lemma_edges_positive, lemma_pending_bound, lemma_pending_insert, lemma_pending_positive,
    lemma_pending_zero, lemma_push_contains, lemma_drop_last_contains, pending, pred_closed, src_of, succs,
};

verus! {

/// Identity of a node inside one graph. Ids are handed out as 1, 2, 3, ...
#[derive(Debug, Clone, Copy, PartialEq, Eq, Hash, Structural)]
pub struct NodeId(pub u32);

#[derive(Debug, Clone, Copy, PartialEq, Eq, Structural)]
pub enum PortDir {
    In,
    Out,
}

#[derive(Debug, Clone, Copy, PartialEq, Eq, Structural)]
pub enum NodeKind {
    Oscillator,
    Gain,
    Mixer,
    Output,
    Gate,
}

#[derive(Debug, Clone, Copy)]
pub struct PortSpec {
    pub name: &'static str,
    pub dir: PortDir,
    pub channels: u16,
}

pub ghost struct PortView {
    pub name: Seq<char>,
    pub dir: PortDir,
    pub channels: u16,
}

impl View for PortSpec {
    type V = PortView;

    open spec fn view(&self) -> PortView {
        PortView { name: self.name@, dir: self.dir, channels: self.channels }
    }
}

// Parameter values are carried as the bit patterns of IEEE-754 single
// precision numbers (what `f32::to_bits` gives), the representation the
// compiled engine keeps in its parameter slots.
/// 440.0
pub const FREQ_DEFAULT_BITS: u32 = 0x43DC_0000;

/// 0.2
pub const AMP_DEFAULT_BITS: u32 = 0x3E4C_CCCD;

/// 1.0
pub const GAIN_DEFAULT_BITS: u32 = 0x3F80_0000;

/// 20000.0, the highest oscillator frequency.
pub const FREQ_MAX_BITS: u32 = 0x469C_4000;

/// 1.0, the highest oscillator amplitude.
pub const AMP_MAX_BITS: u32 = 0x3F80_0000;

/// 8.0, the highest gain.
pub const GAIN_MAX_BITS: u32 = 0x4100_0000;

/// -0.0, which compares equal to 0.0.
pub const NEGATIVE_ZERO_BITS: u32 = 0x8000_0000;

/// The encoded number lies in `0.0..=max` (and is therefore finite), where
/// `max` is encoded by `max_bits`, a non-negative finite number. Non-negative
/// finite encodings are ordered as their bit patterns; negative zero is the
/// one encoding with the sign bit set that compares equal to zero. NaN and the
/// infinities lie above every finite non-negative encoding.
pub open spec fn nonneg_at_most(bits: u32, max_bits: u32) -> bool {
    bits <= max_bits || bits == NEGATIVE_ZERO_BITS
}

fn nonneg_at_most_exec(bits: u32, max_bits: u32) -> (r: bool)
    ensures
        r == nonneg_at_most(bits, max_bits),
{
    bits <= max_bits || bits == NEGATIVE_ZERO_BITS
}

pub open spec fn in_port() -> PortView {
    PortView { name: "in"@, dir: PortDir::In, channels: 1 }
}

pub open spec fn out_port() -> PortView {
    PortView { name: "out"@, dir: PortDir::Out, channels: 1 }
}

/// The ports of each kind of node, in declaration order.
pub open spec fn ports_of(kind: NodeKind) -> Seq<PortView> {
    match kind {
        NodeKind::Oscillator => seq![out_port()],
        NodeKind::Gain | NodeKind::Mixer | NodeKind::Gate => seq![in_port(), out_port()],
        NodeKind::Output => seq![in_port()],
    }
}

/// The first port at or after position `i` of `ports` that is called `name`.
pub open spec fn port_from(ports: Seq<PortView>, name: Seq<char>, i: int) -> Option<PortView>
    decreases ports.len() - i,
{
    if i < 0 || i >= ports.len() {
        None
    } else if ports[i].name == name {
        Some(ports[i])
    } else {
        port_from(ports, name, i + 1)
    }
}

/// The port of a kind of node called `name`, if it has one.
pub open spec fn port_named(kind: NodeKind, name: Seq<char>) -> Option<PortView> {
    port_from(ports_of(kind), name, 0)
}

/// The parameters that a new node of a kind starts with, ordered by name.
pub open spec fn default_params_of(kind: NodeKind) -> Seq<(Seq<char>, u32)> {
    match kind {
        NodeKind::Oscillator => seq![("amp"@, AMP_DEFAULT_BITS), ("freq"@, FREQ_DEFAULT_BITS)],
        NodeKind::Gain => seq![("gain"@, GAIN_DEFAULT_BITS)],
        _ => seq![],
    }
}

/// Whether a parameter may be set to a value on a kind of node: oscillator
/// `freq` in 0..=20000 and `amp` in 0..=1, gain `gain` in 0..=8; nothing else.
pub open spec fn param_ok_spec(kind: NodeKind, name: Seq<char>, bits: u32) -> bool {
    match kind {
        NodeKind::Oscillator => (name == "freq"@ && nonneg_at_most(bits, FREQ_MAX_BITS)) || (
        name == "amp"@ && nonneg_at_most(bits, AMP_MAX_BITS)),
        NodeKind::Gain => name == "gain"@ && nonneg_at_most(bits, GAIN_MAX_BITS),
        _ => false,
    }
}

/// Whether a kind of node has a parameter of that name.
pub open spec fn has_param(kind: NodeKind, name: Seq<char>) -> bool {
    exists|i: int| 0 <= i < default_params_of(kind).len() && #[trigger] default_params_of(kind)[i].0 == name
}

/// The documented parameter ranges, written as `f32` bit patterns: an
/// oscillator's `freq` lies in 0.0..=20000.0 (0x469C_4000 is 20000.0), its
/// `amp` in 0.0..=1.0 (0x3F80_0000 is 1.0), a gain's `gain` in 0.0..=8.0
/// (0x4100_0000 is 8.0); -0.0 (0x8000_0000) counts as zero. A non-negative
/// `f32` orders like its bit pattern, so these are the values in range.
/// No other kind has parameters, and no other name is accepted.
pub proof fn lemma_param_limits(kind: NodeKind, name: Seq<char>, bits: u32)
    ensures
        param_ok_spec(kind, name, bits) <==> (kind == NodeKind::Oscillator && name == "freq"@ && (
        bits <= 0x469C_4000u32 || bits == 0x8000_0000u32)) || (kind == NodeKind::Oscillator && name
            == "amp"@ && (bits <= 0x3F80_0000u32 || bits == 0x8000_0000u32)) || (kind
            == NodeKind::Gain && name == "gain"@ && (bits <= 0x4100_0000u32 || bits
            == 0x8000_0000u32)),
{
}

/// Setting a parameter succeeds exactly for a known node and a value in its
/// documented range, and then the node holds that value under that name;
/// e.g. an oscillator's `amp` is refused above 1.0.
pub proof fn lemma_set_param_in_range(g: GraphView, id: u32, name: Seq<char>, bits: u32)
    requires
        graph_wf(g),
    ensures
        spec_set_param(g, id, name, bits) is Ok <==> 1 <= id <= g.nodes.len() && (
        (g.nodes[id - 1].kind == NodeKind::Oscillator && name == "freq"@ && (bits <= 0x469C_4000u32
            || bits == 0x8000_0000u32)) || (g.nodes[id - 1].kind == NodeKind::Oscillator && name
            == "amp"@ && (bits <= 0x3F80_0000u32 || bits == 0x8000_0000u32)) || (g.nodes[id - 1].kind
            == NodeKind::Gain && name == "gain"@ && (bits <= 0x4100_0000u32 || bits
            == 0x8000_0000u32))),
        spec_set_param(g, id, name, bits) matches Ok(g2) ==> exists|j: int|
            0 <= j < g2.nodes[id - 1].params.len() && #[trigger] g2.nodes[id - 1].params[j] == (
            name,
            bits,
        ),
{
    if 1 <= id <= g.nodes.len() {
        lemma_param_limits(g.nodes[id - 1].kind, name, bits);
        if spec_set_param(g, id, name, bits) is Ok {
            let n = g.nodes[id - 1];
            let q = param_pos(n.params, name);
            reveal_strlit("amp");
            reveal_strlit("freq");
            reveal_strlit("gain");
            if n.kind == NodeKind::Oscillator {
                if name == "freq"@ {
                    assert(n.params[1].0 == "freq"@);
                } else {
                    assert(n.params[0].0 == "amp"@);
                }
            } else {
                assert(n.params[0].0 == "gain"@);
            }
            assert(0 <= q < n.params.len() && n.params[q].0 == name);
            let g2 = spec_set_param(g, id, name, bits)->Ok_0;
            assert(g2.nodes[id - 1].params[q] == (name, bits));
        }
    }
}

impl NodeKind {
    pub fn ports(self) -> (r: Vec<PortSpec>)
        ensures
            r@.map_values(|p: PortSpec| p@) == ports_of(self),
    {
        let input = PortSpec { name: "in", dir: PortDir::In, channels: 1 };
        let output = PortSpec { name: "out", dir: PortDir::Out, channels: 1 };
        let r = match self {
            NodeKind::Oscillator => vec![output],
            NodeKind::Gain | NodeKind::Mixer | NodeKind::Gate => vec![input, output],
            NodeKind::Output => vec![input],
        };
        assert(r@.map_values(|p: PortSpec| p@) =~= ports_of(self));
        r
    }

    pub fn default_params(self) -> (r: Vec<Param>)
        ensures
            param_views(r@) == default_params_of(self),
    {
        let mut m: Vec<Param> = Vec::new();
        match self {
            NodeKind::Oscillator => {
                m.push(Param { name: String::from_str("amp"), bits: AMP_DEFAULT_BITS });
                m.push(Param { name: String::from_str("freq"), bits: FREQ_DEFAULT_BITS });
            },
            NodeKind::Gain => {
                m.push(Param { name: String::from_str("gain"), bits: GAIN_DEFAULT_BITS });
            },
            NodeKind::Mixer | NodeKind::Output | NodeKind::Gate => {},
        }
        assert(param_views(m@) =~= default_params_of(self));
        m
    }

    pub fn param_ok(self, name: &str, bits: u32) -> (r: bool)
        ensures
            r == param_ok_spec(self, name@, bits),
    {
        match self {
            NodeKind::Oscillator => {
                if same_text(name, "freq") {
                    nonneg_at_most_exec(bits, FREQ_MAX_BITS)
                } else if same_text(name, "amp") {
                    proof {
                        reveal_strlit("freq");
                        reveal_strlit("amp");
                    }
                    nonneg_at_most_exec(bits, AMP_MAX_BITS)
                } else {
                    false
                }
            },
            NodeKind::Gain => same_text(name, "gain") && nonneg_at_most_exec(bits, GAIN_MAX_BITS),
            _ => false,
        }
    }
}

/// The port of a kind of node that is called `name`.
pub fn find_port(kind: NodeKind, name: &str) -> (r: Option<PortSpec>)
    ensures
        match (r, port_named(kind, name@)) {
            (Some(p), Some(v)) => p@ == v,
            (None, None) => true,
            _ => false,
        },
{
    let ports = kind.ports();
    let mut i: usize = 0;
    while i < ports.len()
        invariant
            i <= ports@.len(),
            ports@.map_values(|p: PortSpec| p@) == ports_of(kind),
            port_named(kind, name@) == port_from(ports_of(kind), name@, i as int),
        decreases ports.len() - i,
    {
        assert(ports_of(kind)[i as int] == ports@[i as int]@);
        if same_text(ports[i].name, name) {
            return Some(ports[i]);
        }
        i = i + 1;
    }
    None
}

struct NodeMeta {
    name: String,
    kind: NodeKind,
}

/// One parameter of a node: its name and its value's bit pattern.
#[derive(Debug, Clone)]
pub struct Param {
    pub name: String,
    pub bits: u32,
}

pub open spec fn param_views(ps: Seq<Param>) -> Seq<(Seq<char>, u32)> {
    ps.map_values(|p: Param| p@)
}

impl View for Param {
    type V = (Seq<char>, u32);

    open spec fn view(&self) -> (Seq<char>, u32) {
        (self.name@, self.bits)
    }
}

#[derive(Debug, Clone)]
pub struct Node {
    pub id: NodeId,
    pub name: String,
    pub kind: NodeKind,
    /// Ordered by name, one entry per parameter of the kind.
    pub params: Vec<Param>,
}

pub ghost struct NodeView {
    pub id: u32,
    pub name: Seq<char>,
    pub kind: NodeKind,
    pub params: Seq<(Seq<char>, u32)>,
}

impl Node {
    pub fn clone_node(&self) -> (r: Self)
        ensures
            r@ == self@,
    {
        Node {
            id: self.id,
            name: self.name.clone(),
            kind: self.kind,
            params: clone_params(&self.params),
        }
    }

    fn clone_meta(&self) -> (r: NodeMeta)
        ensures
            r.name@ == self.name@,
            r.kind == self.kind,
    {
        NodeMeta { name: self.name.clone(), kind: self.kind }
    }
}

/// A copy of a parameter list.
pub fn clone_params(ps: &Vec<Param>) -> (r: Vec<Param>)
    ensures
        param_views(r@) == param_views(ps@),
{
    let mut params: Vec<Param> = Vec::new();
    let mut i: usize = 0;
    while i < ps.len()
        invariant
            i <= ps@.len(),
            params@.len() == i,
            param_views(params@) == param_views(ps@).subrange(0, i as int),
        decreases ps.len() - i,
    {
        let ghost prev = params@;
        params.push(Param { name: ps[i].name.clone(), bits: ps[i].bits });
        proof {
            assert(params@ == prev.push(params@[i as int]));
            assert(params@[i as int]@ == ps@[i as int]@);
            assert forall|j: int| 0 <= j < i implies param_views(params@)[j] == param_views(ps@)[j] by {
                assert(params@[j] == prev[j]);
                assert(param_views(prev)[j] == param_views(ps@).subrange(0, i as int)[j]);
            }
            assert(param_views(params@) =~= param_views(ps@).subrange(0, i + 1));
        }
        i = i + 1;
    }
    proof {
        assert(param_views(ps@).subrange(0, i as int) =~= param_views(ps@));
    }
    params
}

impl View for Node {
    type V = NodeView;

    open spec fn view(&self) -> NodeView {
        NodeView {
            id: self.id.0,
            name: self.name@,
            kind: self.kind,
            params: param_views(self.params@),
        }
    }
}

#[derive(Debug, Clone)]
pub struct Connection {
    pub from_node: NodeId,
    pub from_port: String,
    pub to_node: NodeId,
    pub to_port: String,
}

pub ghost struct ConnView {
    pub from_node: u32,
    pub from_port: Seq<char>,
    pub to_node: u32,
    pub to_port: Seq<char>,
}

impl View for Connection {
    type V = ConnView;

    open spec fn view(&self) -> ConnView {
        ConnView {
            from_node: self.from_node.0,
            from_port: self.from_port@,
            to_node: self.to_node.0,
            to_port: self.to_port@,
        }
    }
}

pub ghost struct GraphView {
    pub sample_rate: u32,
    pub nodes: Seq<NodeView>,
    pub connections: Seq<ConnView>,
}

/// A node's parameters are those of its kind, in the same order, each with
/// a value that the kind accepts.
pub open spec fn params_wf(kind: NodeKind, ps: Seq<(Seq<char>, u32)>) -> bool {
    &&& ps.len() == default_params_of(kind).len()
    &&& forall|i: int|
        0 <= i < ps.len() ==> #[trigger] ps[i].0 == default_params_of(kind)[i].0
            && param_ok_spec(kind, ps[i].0, ps[i].1)
}

/// A connection joins an output port of an existing node to an input port of
/// an existing node with as many channels.
pub open spec fn conn_wf(nodes: Seq<NodeView>, c: ConnView) -> bool {
    &&& 1 <= c.from_node <= nodes.len()
    &&& 1 <= c.to_node <= nodes.len()
    &&& port_named(nodes[c.from_node - 1].kind, c.from_port) matches Some(p)
    &&& port_named(nodes[c.to_node - 1].kind, c.to_port) matches Some(q)
    &&& p.dir == PortDir::Out
    &&& q.dir == PortDir::In
    &&& p.channels == q.channels
}

/// What every graph keeps: node `i` has id `i + 1`; names are non-empty and
/// unique; parameters are well formed; connections are well formed.
pub open spec fn graph_wf(g: GraphView) -> bool {
    &&& g.nodes.len() < u32::MAX
    &&& forall|i: int| 0 <= i < g.nodes.len() ==> (#[trigger] g.nodes[i]).id == i + 1
    &&& forall|i: int| 0 <= i < g.nodes.len() ==> (#[trigger] g.nodes[i]).name.len() > 0
    &&& forall|i: int, j: int|
        0 <= i < g.nodes.len() && 0 <= j < g.nodes.len() && i != j ==> (#[trigger] g.nodes[i]).name
            != (#[trigger] g.nodes[j]).name
    &&& forall|i: int|
        0 <= i < g.nodes.len() ==> params_wf((#[trigger] g.nodes[i]).kind, g.nodes[i].params)
    &&& forall|k: int|
        0 <= k < g.connections.len() ==> conn_wf(g.nodes, #[trigger] g.connections[k])
}

/// Some node of the graph is called `name`.
pub open spec fn has_name(g: GraphView, name: Seq<char>) -> bool {
    exists|i: int| 0 <= i < g.nodes.len() && #[trigger] g.nodes[i].name == name
}

/// The node with id `id`, by position.
pub open spec fn has_id(g: GraphView, id: u32) -> bool {
    1 <= id <= g.nodes.len()
}

/// Some node of the graph is an output.
pub open spec fn has_output(g: GraphView) -> bool {
    exists|i: int| 0 <= i < g.nodes.len() && #[trigger] g.nodes[i].kind == NodeKind::Output
}

/// Adding a node: refused for an empty or a taken name; otherwise the node
/// gets the next id and its kind's default parameters.
pub open spec fn spec_add_node(g: GraphView, name: Seq<char>, kind: NodeKind) -> Result<
    (GraphView, u32),
    ErrorView,
> {
    if name.len() == 0 {
        Err(ErrorView::EmptyId)
    } else if has_name(g, name) {
        Err(ErrorView::DuplicateNode(name))
    } else {
        let id = (g.nodes.len() + 1) as u32;
        Ok(
            (
                GraphView {
                    nodes: g.nodes.push(
                        NodeView { id, name, kind, params: default_params_of(kind) },
                    ),
                    ..g
                },
                id,
            ),
        )
    }
}

/// The position of `name` among a node's parameters.
pub open spec fn param_pos(ps: Seq<(Seq<char>, u32)>, name: Seq<char>) -> int {
    choose|i: int| 0 <= i < ps.len() && ps[i].0 == name
}

/// Setting a parameter: refused for an unknown node, an unknown parameter or
/// a value out of range; otherwise that one value changes.
pub open spec fn spec_set_param(g: GraphView, id: u32, name: Seq<char>, bits: u32) -> Result<
    GraphView,
    ErrorView,
> {
    if !has_id(g, id) {
        Err(ErrorView::UnknownNode(decimal(id as nat)))
    } else {
        let n = g.nodes[id - 1];
        if !param_ok_spec(n.kind, name, bits) {
            if !has_param(n.kind, name) {
                Err(ErrorView::UnknownParam { node: n.name, param: name })
            } else {
                Err(ErrorView::ParamRange { node: n.name, param: name })
            }
        } else {
            let ps = n.params.update(param_pos(n.params, name), (name, bits));
            Ok(GraphView { nodes: g.nodes.update(id - 1, NodeView { params: ps, ..n }), ..g })
        }
    }
}

/// Connecting two ports: checked in this order, the source node, the target
/// node, the source port, the target port, the directions, the channels.
pub open spec fn spec_connect(
    g: GraphView,
    from: u32,
    from_port: Seq<char>,
    to: u32,
    to_port: Seq<char>,
) -> Result<GraphView, ErrorView> {
    if !has_id(g, from) {
        Err(ErrorView::UnknownNode(decimal(from as nat)))
    } else if !has_id(g, to) {
        Err(ErrorView::UnknownNode(decimal(to as nat)))
    } else {
        let src = g.nodes[from - 1];
        let dst = g.nodes[to - 1];
        match port_named(src.kind, from_port) {
            None => Err(ErrorView::UnknownPort { node: src.name, port: from_port }),
            Some(sp) => match port_named(dst.kind, to_port) {
                None => Err(ErrorView::UnknownPort { node: dst.name, port: to_port }),
                Some(dp) => if sp.dir != PortDir::Out || dp.dir != PortDir::In {
                    Err(
                        ErrorView::DirectionMismatch {
                            from: dotted(src.name, from_port),
                            from_dir: sp.dir,
                            to: dotted(dst.name, to_port),
                            to_dir: dp.dir,
                        },
                    )
                } else if sp.channels != dp.channels {
                    Err(
                        ErrorView::ChannelMismatch {
                            from: dotted(src.name, from_port),
                            to: dotted(dst.name, to_port),
                            from_ch: sp.channels,
                            to_ch: dp.channels,
                        },
                    )
                } else {
                    Ok(
                        GraphView {
                            connections: g.connections.push(
                                ConnView { from_node: from, from_port, to_node: to, to_port },
                            ),
                            ..g
                        },
                    )
                },
            },
        }
    }
}

#[derive(Debug, Clone)]
pub struct Graph {
    pub sample_rate: u32,
    next_id: u32,
    nodes: Vec<Node>,
    connections: Vec<Connection>,
}

impl View for Graph {
    type V = GraphView;

    closed spec fn view(&self) -> GraphView {
        GraphView {
            sample_rate: self.sample_rate,
            nodes: self.nodes@.map_values(|n: Node| n@),
            connections: self.connections@.map_values(|c: Connection| c@),
        }
    }
}

impl Graph {
    /// The graph's invariant.
    pub closed spec fn wf(&self) -> bool {
        &&& graph_wf(self@)
        &&& self.sample_rate > 0
        &&& self.next_id == self.nodes@.len() + 1
    }

    pub proof fn lemma_wf(&self)
        requires
            self.wf(),
        ensures
            graph_wf(self@),
            self@.sample_rate > 0,
    {
    }

    proof fn lemma_node_view(&self, i: int)
        requires
            0 <= i < self.nodes@.len(),
        ensures
            self@.nodes.len() == self.nodes@.len(),
            self@.nodes[i] == self.nodes@[i]@,
    {
    }

    proof fn lemma_conn_view(&self, k: int)
        requires
            0 <= k < self.connections@.len(),
        ensures
            self@.connections.len() == self.connections@.len(),
            self@.connections[k] == self.connections@[k]@,
    {
    }

    pub fn sample_rate(&self) -> (r: u32)
        ensures
            r == self@.sample_rate,
    {
        self.sample_rate
    }

    pub fn new(sample_rate: u32) -> (r: Result<Self, GraphError>)
        ensures
            sample_rate == 0 <==> r is Err,
            r matches Err(e) ==> e@ == ErrorView::BadSampleRate,
            r matches Ok(g) ==> g.wf() && g@ == (GraphView {
                sample_rate,
                nodes: Seq::empty(),
                connections: Seq::empty(),
            }),
    {
        if sample_rate == 0 {
            return Err(GraphError::BadSampleRate);
        }
        let g = Graph {
            sample_rate,
            next_id: 1,
            nodes: Vec::new(),
            connections: Vec::new(),
        };
        assert(g@.nodes =~= Seq::empty());
        assert(g@.connections =~= Seq::empty());
        Ok(g)
    }

    pub fn nodes(&self) -> (r: &[Node])
        ensures
            r@.map_values(|n: Node| n@) == self@.nodes,
    {
        self.nodes.as_slice()
    }

    pub fn connections(&self) -> (r: &[Connection])
        ensures
            r@.map_values(|c: Connection| c@) == self@.connections,
    {
        self.connections.as_slice()
    }

    pub fn node_count(&self) -> (r: usize)
        ensures
            r == self@.nodes.len(),
    {
        self.nodes.len()
    }

    fn find_name(&self, name: &String) -> (r: Option<usize>)
        ensures
            r matches Some(i) ==> i < self@.nodes.len() && self@.nodes[i as int].name == name@,
            r is None ==> !has_name(self@, name@),
    {
        let mut i: usize = 0;
        while i < self.nodes.len()
            invariant
                i <= self.nodes@.len(),
                self@.nodes == self.nodes@.map_values(|n: Node| n@),
                forall|j: int| 0 <= j < i ==> self@.nodes[j].name != name@,
            decreases self.nodes.len() - i,
        {
            if self.nodes[i].name == *name {
                return Some(i);
            }
            i = i + 1;
        }
        None
    }

    pub fn node_by_name(&self, name: &str) -> (r: Result<&Node, GraphError>)
        requires
            self.wf(),
        ensures
            has_name(self@, name@) <==> r is Ok,
            r matches Ok(n) ==> n@.name == name@ && 1 <= n@.id <= self@.nodes.len() && n@
                == self@.nodes[n@.id - 1],
            r matches Err(e) ==> e@ == ErrorView::UnknownNode(name@),
    {
        let name = String::from_str(name);
        match self.find_name(&name) {
            Some(i) => Ok(&self.nodes[i]),
            None => Err(GraphError::UnknownNode(name)),
        }
    }

    fn find_id(&self, id: NodeId) -> (r: Option<usize>)
        requires
            self.wf(),
        ensures
            has_id(self@, id.0) <==> r is Some,
            r matches Some(i) ==> i == id.0 - 1 && self.nodes@[i as int].id == id
                && self@.nodes[i as int] == self.nodes@[i as int]@,
    {
        let mut i: usize = 0;
        while i < self.nodes.len()
            invariant
                self.wf(),
                i <= self.nodes@.len(),
                forall|j: int| 0 <= j < i ==> self@.nodes[j].id != id.0,
            decreases self.nodes.len() - i,
        {
            proof {
                self.lemma_node_view(i as int);
            }
            if self.nodes[i].id == id {
                return Some(i);
            }
            i = i + 1;
        }
        proof {
            if has_id(self@, id.0) {
                self.lemma_node_view(id.0 - 1);
            }
        }
        None
    }

    pub fn node_by_id(&self, id: NodeId) -> (r: Result<&Node, GraphError>)
        requires
            self.wf(),
        ensures
            has_id(self@, id.0) <==> r is Ok,
            r matches Ok(n) ==> n@ == self@.nodes[id.0 - 1] && n.id == id,
            r matches Err(e) ==> e@ == ErrorView::UnknownNode(decimal(id.0 as nat)),
    {
        match self.find_id(id) {
            Some(i) => Ok(&self.nodes[i]),
            None => Err(GraphError::UnknownNode(decimal_string(id.0))),
        }
    }

    /// Position of a parameter among a node's parameters.
    fn param_index(params: &Vec<Param>, name: &String) -> (r: Option<usize>)
        ensures
            r matches Some(i) ==> i < params@.len() && params@[i as int].name@ == name@,
            r is None ==> forall|i: int| 0 <= i < params@.len() ==> params@[i].name@ != name@,
    {
        let mut i: usize = 0;
        while i < params.len()
            invariant
                i <= params@.len(),
                forall|j: int| 0 <= j < i ==> params@[j].name@ != name@,
            decreases params.len() - i,
        {
            if params[i].name == *name {
                return Some(i);
            }
            i = i + 1;
        }
        None
    }

    pub fn set_param(&mut self, id: NodeId, param: &str, bits: u32) -> (r: Result<(), GraphError>)
        requires
            old(self).wf(),
        ensures
            final(self).wf(),
            match (r, spec_set_param(old(self)@, id.0, param@, bits)) {
                (Ok(_), Ok(g)) => final(self)@ == g,
                (Err(e), Err(se)) => e@ == se && final(self)@ == old(self)@,
                _ => false,
            },
    {
        let i = match self.find_id(id) {
            Some(i) => i,
            None => {
                return Err(GraphError::UnknownNode(decimal_string(id.0)));
            },
        };
        let kind = self.nodes[i].kind;
        let ghost g0 = self@;
        assert(g0.nodes[i as int] == self.nodes@[i as int]@);
        if !kind.param_ok(param, bits) {
            let defaults = kind.default_params();
            let pname = String::from_str(param);
            let known = Self::param_index(&defaults, &pname);
            proof {
                let d = default_params_of(kind);
                assert(param_views(defaults@) == d);
                if known is None {
                    assert forall|j: int| 0 <= j < d.len() implies d[j].0 != param@ by {
                        assert(d[j] == defaults@[j]@);
                    }
                } else {
                    let j = known->0 as int;
                    assert(d[j] == defaults@[j]@);
                    assert(d[j].0 == param@);
                    assert(has_param(kind, param@));
                }
            }
            if known.is_none() {
                return Err(
                    GraphError::UnknownParam { node: self.nodes[i].name.clone(), param: pname },
                );
            }
            return Err(GraphError::ParamRange { node: self.nodes[i].name.clone(), param: pname });
        }
        let pname = String::from_str(param);
        let pos = Self::param_index(&self.nodes[i].params, &pname);
        proof {
            let ps = g0.nodes[i as int].params;
            assert(ps == param_views(self.nodes@[i as int].params@));
            reveal_strlit("amp");
            reveal_strlit("freq");
            reveal_strlit("gain");
            if pos is None {
                assert(ps.len() == default_params_of(kind).len());
                if kind == NodeKind::Oscillator {
                    if param@ == "freq"@ {
                        assert(ps[1].0 == "freq"@);
                    } else {
                        assert(ps[0].0 == "amp"@);
                    }
                } else {
                    assert(ps[0].0 == "gain"@);
                }
                assert(false);
            }
        }
        let p = pos.unwrap();
        let mut node = self.nodes[i].clone_node();
        let ghost before = node@;
        let ghost old_params = node.params@;
        node.params.set(p, Param { name: pname, bits });
        proof {
            let ps = before.params;
            assert(ps[p as int] == old_params[p as int]@);
            assert(ps[p as int].0 == param@);
            let q = param_pos(ps, param@);
            assert(0 <= q < ps.len() && ps[q].0 == param@);
            if q != p {
                // names of a node's parameters are distinct
                assert(ps[q].0 == default_params_of(kind)[q].0);
                assert(ps[p as int].0 == default_params_of(kind)[p as int].0);
                reveal_strlit("amp");
                reveal_strlit("freq");
                assert(false);
            }
            assert(param_views(node.params@) =~= ps.update(q, (param@, bits)));
        }
        self.nodes.set(i, node);
        proof {
            assert(self@.nodes =~= g0.nodes.update(
                i as int,
                NodeView { params: param_views(node.params@), ..g0.nodes[i as int] },
            ));
        }
        Ok(())
    }

    pub fn connect(&mut self, from: NodeId, from_port: &str, to: NodeId, to_port: &str) -> (r: Result<
        (),
        GraphError,
    >)
        requires
            old(self).wf(),
        ensures
            final(self).wf(),
            match (r, spec_connect(old(self)@, from.0, from_port@, to.0, to_port@)) {
                (Ok(_), Ok(g)) => final(self)@ == g,
                (Err(e), Err(se)) => e@ == se && final(self)@ == old(self)@,
                _ => false,
            },
    {
        let si = match self.find_id(from) {
            Some(i) => i,
            None => {
                return Err(GraphError::UnknownNode(decimal_string(from.0)));
            },
        };
        let di = match self.find_id(to) {
            Some(i) => i,
            None => {
                return Err(GraphError::UnknownNode(decimal_string(to.0)));
            },
        };
        let src = self.nodes[si].clone_meta();
        let dst = self.nodes[di].clone_meta();
        let sp = match find_port(src.kind, from_port) {
            Some(p) => p,
            None => {
                return Err(
                    GraphError::UnknownPort { node: src.name, port: String::from_str(from_port) },
                );
            },
        };
        let dp = match find_port(dst.kind, to_port) {
            Some(p) => p,
            None => {
                return Err(
                    GraphError::UnknownPort { node: dst.name, port: String::from_str(to_port) },
                );
            },
        };
        if sp.dir != PortDir::Out || dp.dir != PortDir::In {
            return Err(
                GraphError::DirectionMismatch {
                    from: dotted_string(src.name.as_str(), from_port),
                    from_dir: sp.dir,
                    to: dotted_string(dst.name.as_str(), to_port),
                    to_dir: dp.dir,
                },
            );
        }
        if sp.channels != dp.channels {
            return Err(
                GraphError::ChannelMismatch {
                    from: dotted_string(src.name.as_str(), from_port),
                    to: dotted_string(dst.name.as_str(), to_port),
                    from_ch: sp.channels,
                    to_ch: dp.channels,
                },
            );
        }
        let ghost g0 = self@;
        let c = Connection {
            from_node: from,
            from_port: String::from_str(from_port),
            to_node: to,
            to_port: String::from_str(to_port),
        };
        self.connections.push(c);
        proof {
            assert(self@.connections =~= g0.connections.push(c@));
            assert(self@.nodes =~= g0.nodes);
        }
        Ok(())
    }

    /// Kahn's algorithm with a stack of ready nodes.
    pub(crate) fn topo(&self) -> (r: Result<Vec<NodeId>, GraphError>)
        requires
            self.wf(),
        ensures
            acyclic(self@) <==> r is Ok,
            r matches Ok(order) ==> is_topo_order(self@, order@),
            r matches Err(e) ==> exists|x: int|
                first_blocked(self@, x) && e@ == ErrorView::Cycle(#[trigger] self@.nodes[x].name),
    {
        let ghost g = self@;
        let n = self.nodes.len();
        let ghost m = g.connections.len() as int;
        proof {
            assert(g.nodes.len() == n);
            assert forall|k: int| 0 <= k < m implies 0 <= #[trigger] dst_of(g, k) < n && 0 <= src_of(
                g,
                k,
            ) < n by {
                assert(conn_wf(g.nodes, g.connections[k]));
            }
        }
        let mut indeg: Vec<usize> = Vec::new();
        let mut adj: Vec<Vec<usize>> = Vec::new();
        let mut done: Vec<bool> = Vec::new();
        let mut i: usize = 0;
        while i < n
            invariant
                i <= n,
                indeg@.len() == i,
                adj@.len() == i,
                done@.len() == i,
                forall|j: int| 0 <= j < i ==> #[trigger] indeg@[j] == 0,
                forall|j: int| 0 <= j < i ==> (#[trigger] adj@[j])@ == Seq::<usize>::empty(),
                forall|j: int| 0 <= j < i ==> !#[trigger] done@[j],
            decreases n - i,
        {
            indeg.push(0);
            adj.push(Vec::new());
            done.push(false);
            i = i + 1;
        }
        let mut k: usize = 0;
        while k < self.connections.len()
            invariant
                self.wf(),
                g == self@,
                n == g.nodes.len(),
                m == g.connections.len(),
                k <= m,
                indeg@.len() == n,
                adj@.len() == n,
                forall|k2: int| 0 <= k2 < m ==> 0 <= #[trigger] dst_of(g, k2) < n && 0 <= src_of(g, k2) < n,
                forall|j: int| 0 <= j < n ==> #[trigger] indeg@[j] == pending(g, Set::empty(), j, k as int),
                forall|a: int| 0 <= a < n ==> (#[trigger] adj@[a])@ == succs(g, a, k as int),
            decreases m - k,
        {
            proof {
                self.lemma_conn_view(k as int);
            }
            let a = (self.connections[k].from_node.0 - 1) as usize;
            let b = (self.connections[k].to_node.0 - 1) as usize;
            proof {
                lemma_pending_bound(g, Set::empty(), b as int, k as int);
                assert(a == src_of(g, k as int) && b == dst_of(g, k as int));
            }
            let ghost adj0 = adj@;
            adj[a].push(b);
            indeg.set(b, indeg[b] + 1);
            proof {
                assert forall|a2: int| 0 <= a2 < n implies (#[trigger] adj@[a2])@ == succs(g, a2, k + 1) by {
                    if a2 != a {
                        assert(adj@[a2] == adj0[a2]);
                    }
                }
            }
            k = k + 1;
        }
        let mut q: Vec<usize> = Vec::new();
        let mut j: usize = 0;
        while j < n
            invariant
                j <= n,
                indeg@.len() == n,
                forall|a: int, b: int| 0 <= a < b < q@.len() ==> q@[a] < q@[b],
                forall|a: int| 0 <= a < q@.len() ==> #[trigger] q@[a] < j && indeg@[q@[a] as int] == 0,
                forall|z: int| 0 <= z < j && #[trigger] indeg@[z] == 0 ==> q@.contains(z as usize),
            decreases n - j,
        {
            let ghost q0 = q@;
            if indeg[j] == 0 {
                q.push(j);
                proof {
                    lemma_push_contains(q0, j);
                }
            }
            j = j + 1;
        }
        let mut order: Vec<NodeId> = Vec::new();
        let ghost mut eseq: Seq<int> = Seq::empty();
        let ghost mut pos: Seq<int> = Seq::new(n as nat, |z: int| 0);
        proof {
            assert(eseq.to_set() =~= Set::<int>::empty());
        }
        while q.len() > 0
            invariant
                self.wf(),
                g == self@,
                n == g.nodes.len(),
                m == g.connections.len(),
                indeg@.len() == n,
                adj@.len() == n,
                done@.len() == n,
                pos.len() == n,
                forall|k2: int| 0 <= k2 < m ==> 0 <= #[trigger] dst_of(g, k2) < n && 0 <= src_of(g, k2) < n,
                forall|a: int| 0 <= a < n ==> (#[trigger] adj@[a])@ == succs(g, a, m),
                eseq.no_duplicates(),
                forall|i2: int| 0 <= i2 < eseq.len() ==> 0 <= #[trigger] eseq[i2] < n,
                forall|x: int| 0 <= x < n ==> (#[trigger] done@[x] <==> eseq.contains(x)),
                forall|x: int| 0 <= x < n ==> #[trigger] indeg@[x] == pending(g, eseq.to_set(), x, m),
                order@.len() == eseq.len(),
                forall|i2: int| 0 <= i2 < eseq.len() ==> (#[trigger] order@[i2]).0 == eseq[i2] + 1,
                forall|x: int|
                    0 <= x < n && #[trigger] eseq.contains(x) ==> 0 <= pos[x] < eseq.len() && eseq[pos[x]]
                        == x,
                forall|k2: int|
                    0 <= k2 < m && #[trigger] eseq.contains(dst_of(g, k2)) ==> eseq.contains(src_of(g, k2))
                        && pos[src_of(g, k2)] < pos[dst_of(g, k2)],
                forall|x: int| 0 <= x < n && #[trigger] eseq.contains(x) ==> !blocked(g, x),
                q@.no_duplicates(),
                forall|a: int|
                    0 <= a < q@.len() ==> #[trigger] q@[a] < n && !eseq.contains(q@[a] as int)
                        && indeg@[q@[a] as int] == 0,
                forall|z: int|
                    0 <= z < n && !eseq.contains(z) && #[trigger] indeg@[z] == 0 ==> q@.contains(z as usize),
            decreases n - eseq.len(),
        {
            let ghost q0 = q@;
            let x = q.pop().unwrap();
            proof {
                assert(q0[q0.len() - 1] == x);
                assert(q@ =~= q0.drop_last());
                lemma_drop_last_contains(q0);
                lemma_distinct_short(eseq, n as int, x as int);
                self.lemma_node_view(x as int);
            }
            let ghost d0 = eseq.to_set();
            let ghost e0 = eseq;
            order.push(self.nodes[x].id);
            done.set(x, true);
            proof {
                // every connection into x comes from a node already emitted
                lemma_pending_zero(g, d0, x as int, m);
                // x is not blocked
                if blocked(g, x as int) {
                    let s = choose|s: Set<int>| pred_closed(g, s) && s.contains(x as int);
                    assert(s.contains(x as int));
                    let k2 = choose|k2: int|
                        0 <= k2 < m && dst_of(g, k2) == x && #[trigger] s.contains(src_of(g, k2));
                    assert(d0.contains(src_of(g, k2)));
                    assert(e0.contains(src_of(g, k2)));
                    assert(blocked(g, src_of(g, k2)));
                }
                eseq = eseq.push(x as int);
                lemma_push_contains(e0, x as int);
                pos = pos.update(x as int, e0.len() as int);
                assert(eseq.to_set() =~= d0.insert(x as int));
                assert forall|z: int| 0 <= z < n implies #[trigger] indeg@[z] + 0 == pending(
                    g,
                    eseq.to_set(),
                    z,
                    m,
                ) + count_of(adj@[x as int]@, z) by {
                    lemma_pending_insert(g, d0, x as int, z, m);
                    lemma_count_succs(g, x as int, z, m);
                }
                assert forall|i2: int| 0 <= i2 < eseq.len() implies (#[trigger] order@[i2]).0 == eseq[i2]
                    + 1 by {
                    if i2 < e0.len() {
                        assert(eseq[i2] == e0[i2]);
                    }
                }
                assert forall|z: int| 0 <= z < n implies (#[trigger] done@[z] <==> eseq.contains(z)) by {
                    if z != x {
                        assert(eseq.contains(z) <==> e0.contains(z));
                    } else {
                        assert(eseq[e0.len() as int] == z);
                    }
                }
                assert forall|z: int|
                    0 <= z < n && #[trigger] eseq.contains(z) implies 0 <= pos[z] < eseq.len() && eseq[pos[z]]
                    == z by {
                    if z != x {
                        assert(e0.contains(z));
                    }
                }
                assert forall|k2: int|
                    0 <= k2 < m && #[trigger] eseq.contains(dst_of(g, k2)) implies eseq.contains(
                    src_of(g, k2),
                ) && pos[src_of(g, k2)] < pos[dst_of(g, k2)] by {
                    if dst_of(g, k2) == x {
                        assert(d0.contains(src_of(g, k2)));
                        assert(e0.contains(src_of(g, k2)));
                    } else {
                        assert(e0.contains(dst_of(g, k2)));
                        assert(e0.contains(src_of(g, k2)));
                    }
                }
                assert forall|z: int| 0 <= z < n && #[trigger] eseq.contains(z) implies !blocked(g, z) by {
                    if z != x {
                        assert(e0.contains(z));
                    }
                }
            }
            let ghost d1 = eseq.to_set();
            proof {
                assert(adj@[x as int]@.subrange(0, adj@[x as int]@.len() as int) =~= adj@[x as int]@);
            }
            let mut t: usize = 0;
            while t < adj[x].len()
                invariant
                    self.wf(),
                    g == self@,
                    n == g.nodes.len(),
                    m == g.connections.len(),
                    x < n,
                    indeg@.len() == n,
                    adj@.len() == n,
                    t <= adj@[x as int]@.len(),
                    d1 == eseq.to_set(),
                    d1.contains(x as int),
                    pos.len() == n,
                    eseq.len() > 0,
                    pos[x as int] == eseq.len() - 1,
                    forall|z: int|
                        0 <= z < n && #[trigger] eseq.contains(z) ==> 0 <= pos[z] < eseq.len()
                            && eseq[pos[z]] == z,
                    forall|k2: int| 0 <= k2 < m ==> 0 <= #[trigger] dst_of(g, k2) < n && 0 <= src_of(g, k2) < n,
                    forall|a: int| 0 <= a < n ==> (#[trigger] adj@[a])@ == succs(g, a, m),
                    forall|k2: int|
                        0 <= k2 < m && #[trigger] eseq.contains(dst_of(g, k2)) ==> eseq.contains(
                            src_of(g, k2),
                        ) && pos[src_of(g, k2)] < pos[dst_of(g, k2)],
                    forall|z: int|
                        0 <= z < n ==> #[trigger] indeg@[z] + 0 == pending(g, d1, z, m) + count_of(
                            adj@[x as int]@.subrange(t as int, adj@[x as int]@.len() as int),
                            z,
                        ),
                    q@.no_duplicates(),
                    forall|a: int|
                        0 <= a < q@.len() ==> #[trigger] q@[a] < n && !eseq.contains(q@[a] as int)
                            && indeg@[q@[a] as int] == 0,
                    forall|z: int|
                        0 <= z < n && !eseq.contains(z) && #[trigger] indeg@[z] == 0 ==> q@.contains(
                            z as usize,
                        ),
                decreases adj@[x as int]@.len() - t,
            {
                let ghost s0 = adj@[x as int]@.subrange(t as int, adj@[x as int]@.len() as int);
                let jj = adj[x][t];
                proof {
                    lemma_count_front(s0, jj as int);
                    assert(s0[0] == jj);
                    assert(s0.drop_first() =~= adj@[x as int]@.subrange(
                        t + 1,
                        adj@[x as int]@.len() as int,
                    ));
                    // jj is a target of x, so it has not been emitted
                    lemma_count_succs(g, x as int, jj as int, m);
                    assert(count_of(adj@[x as int]@, jj as int) > 0) by {
                        let full = adj@[x as int]@;
                        assert(full[t as int] == jj);
                        lemma_count_split(full, t as int, jj as int);
                    }
                    lemma_edges_positive(g, x as int, jj as int, m);
                    let k2 = choose|k2: int|
                        0 <= k2 < m && src_of(g, k2) == x && #[trigger] dst_of(g, k2) == jj;
                    if eseq.contains(jj as int) {
                        assert(pos[src_of(g, k2)] < pos[dst_of(g, k2)]);
                        assert(false);
                    }
                }
                let ghost indeg0 = indeg@;
                let ghost qb = q@;
                proof {
                    assert(indeg0[jj as int] >= 1);
                }
                indeg.set(jj, indeg[jj] - 1);
                if indeg[jj] == 0 {
                    q.push(jj);
                    proof {
                        lemma_push_contains(qb, jj);
                        assert(!qb.contains(jj)) by {
                            if qb.contains(jj) {
                                let w = choose|w: int| 0 <= w < qb.len() && qb[w] == jj;
                                assert(indeg0[qb[w] as int] == 0);
                            }
                        }
                        assert forall|a: int, b: int|
                            0 <= a < q@.len() && 0 <= b < q@.len() && a != b implies q@[a] != q@[b] by {
                            if a == qb.len() as int {
                                assert(qb.contains(q@[b]) || b == a);
                                if b < qb.len() {
                                    assert(qb[b] == q@[b]);
                                }
                            } else if b == qb.len() as int {
                                assert(qb[a] == q@[a]);
                            } else {
                                assert(qb[a] == q@[a] && qb[b] == q@[b]);
                            }
                        }
                    }
                }
                proof {
                    assert forall|z: int|
                        0 <= z < n implies #[trigger] indeg@[z] + 0 == pending(g, d1, z, m) + count_of(
                        adj@[x as int]@.subrange(t + 1, adj@[x as int]@.len() as int),
                        z,
                    ) by {
                        lemma_count_front(s0, z);
                    }
                }
                t = t + 1;
            }
            proof {
                assert(adj@[x as int]@.subrange(t as int, adj@[x as int]@.len() as int) =~= Seq::<
                    usize,
                >::empty());
            }
        }
        // no node is ready any more: the nodes left over are blocked
        proof {
            let left = Set::new(|z: int| 0 <= z < n && !eseq.contains(z));
            assert forall|z: int| #[trigger] left.contains(z) implies 0 <= z < n && exists|k2: int|
                0 <= k2 < m && dst_of(g, k2) == z && #[trigger] left.contains(src_of(g, k2)) by {
                if indeg@[z] == 0 {
                    assert(q@.contains(z as usize));
                }
                lemma_pending_positive(g, eseq.to_set(), z, m);
                let k2 = choose|k2: int|
                    0 <= k2 < m && dst_of(g, k2) == z && !eseq.to_set().contains(
                        #[trigger] src_of(g, k2),
                    );
                assert(left.contains(src_of(g, k2)));
            }
            assert(pred_closed(g, left));
            assert forall|z: int| 0 <= z < n && !eseq.contains(z) implies #[trigger] blocked(g, z) by {
                assert(left.contains(z));
            }
        }
        let mut y: usize = 0;
        while y < n
            invariant
                self.wf(),
                g == self@,
                n == g.nodes.len(),
                y <= n,
                done@.len() == n,
                forall|x: int| 0 <= x < n ==> (#[trigger] done@[x] <==> eseq.contains(x)),
                forall|z: int| 0 <= z < n && !eseq.contains(z) ==> #[trigger] blocked(g, z),
                forall|x: int| 0 <= x < n && #[trigger] eseq.contains(x) ==> !blocked(g, x),
                forall|z: int| 0 <= z < y ==> #[trigger] done@[z],
            decreases n - y,
        {
            if !done[y] {
                proof {
                    self.lemma_node_view(y as int);
                    assert forall|z: int| 0 <= z < y implies !#[trigger] blocked(g, z) by {
                        assert(done@[z]);
                    }
                    assert(first_blocked(g, y as int));
                }
                return Err(GraphError::Cycle(self.nodes[y].name.clone()));
            }
            y = y + 1;
        }
        proof {
            assert forall|z: int| 0 <= z < n implies eseq.contains(z) by {
                assert(done@[z]);
            }
            lemma_distinct_full(eseq, n as int);
            assert forall|z: int| 0 <= z < n implies !#[trigger] blocked(g, z) by {
                assert(eseq.contains(z));
            }
            assert forall|kk: int, i2: int, j2: int|
                0 <= kk < m && 0 <= i2 <= j2 < order@.len() implies !((#[trigger] order@[i2]).0
                == (#[trigger] g.connections[kk]).to_node && (#[trigger] order@[j2]).0
                == g.connections[kk].from_node) by {
                if order@[i2].0 == g.connections[kk].to_node && order@[j2].0
                    == g.connections[kk].from_node {
                    assert(eseq[i2] == dst_of(g, kk));
                    assert(eseq[j2] == src_of(g, kk));
                    assert(eseq.contains(dst_of(g, kk)));
                    assert(pos[dst_of(g, kk)] == i2);
                    assert(pos[src_of(g, kk)] == j2);
                }
            }
            assert forall|i2: int, j2: int|
                0 <= i2 < order@.len() && 0 <= j2 < order@.len() && i2 != j2 implies #[trigger] order@[i2]
                != #[trigger] order@[j2] by {
                assert(eseq[i2] != eseq[j2]);
            }
        }
        Ok(order)
    }

    /// A graph is valid when it has an output node and no cycle.
    pub fn validate(&self) -> (r: Result<(), GraphError>)
        requires
            self.wf(),
        ensures
            r is Ok <==> has_output(self@) && acyclic(self@),
            r matches Err(e) ==> if !has_output(self@) {
                e@ == ErrorView::NoOutput
            } else {
                exists|x: int|
                    first_blocked(self@, x) && e@ == ErrorView::Cycle(#[trigger] self@.nodes[x].name)
            },
    {
        let mut i: usize = 0;
        let mut found = false;
        while i < self.nodes.len()
            invariant
                i <= self.nodes@.len(),
                found <==> exists|j: int| 0 <= j < i && #[trigger] self@.nodes[j].kind == NodeKind::Output,
                self@.nodes.len() == self.nodes@.len(),
            decreases self.nodes.len() - i,
        {
            proof {
                self.lemma_node_view(i as int);
            }
            if self.nodes[i].kind == NodeKind::Output {
                found = true;
                assert(self@.nodes[i as int].kind == NodeKind::Output);
            } else {
                assert(self@.nodes[i as int].kind != NodeKind::Output);
            }
            i = i + 1;
        }
        if !found {
            return Err(GraphError::NoOutput);
        }
        match self.topo() {
            Ok(_) => Ok(()),
            Err(e) => Err(e),
        }
    }

    pub fn add_node(&mut self, name: &str, kind: NodeKind) -> (r: Result<NodeId, GraphError>)
        requires
            old(self).wf(),
            old(self)@.nodes.len() + 1 < u32::MAX,
        ensures
            final(self).wf(),
            match (r, spec_add_node(old(self)@, name@, kind)) {
                (Ok(id), Ok((g, sid))) => id.0 == sid && final(self)@ == g,
                (Err(e), Err(se)) => e@ == se && final(self)@ == old(self)@,
                _ => false,
            },
    {
        if name.is_empty() {
            return Err(GraphError::EmptyId);
        }
        let name = String::from_str(name);
        if let Some(_) = self.find_name(&name) {
            return Err(GraphError::DuplicateNode(name));
        }
        let id = NodeId(self.next_id);
        self.next_id = self.next_id + 1;
        let params = kind.default_params();
        proof {
            let pv = param_views(params@);
            assert forall|i: int| 0 <= i < pv.len() implies #[trigger] pv[i].0 == default_params_of(
                kind,
            )[i].0 && param_ok_spec(kind, pv[i].0, pv[i].1) by {
                reveal_strlit("amp");
                reveal_strlit("freq");
                reveal_strlit("gain");
            }
        }
        let ghost old_nodes = self@.nodes;
        let ghost name_view = name@;
        self.nodes.push(Node { id, name, kind, params });
        proof {
            assert(self@.nodes =~= old_nodes.push(
                NodeView { id: id.0, name: name_view, kind, params: default_params_of(kind) },
            ));
        }
        Ok(id)
    }
}

} // verus!

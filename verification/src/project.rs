//! Project files: a graph written as named nodes, their parameters and
//! connections between `[node, port]` pairs. Reading the text is the
//! application's part; building and checking the graph is here.
use vstd::prelude::*;
use vstd::string::StringExecFns;

use crate::error::{ErrorView, GraphError};
use crate::graph::{
    clone_params, conn_wf, default_params_of, graph_wf, has_name, has_output, param_pos,
    param_views, params_wf, spec_add_node, spec_connect, spec_set_param, ConnView, Graph,
    GraphView, NodeId, NodeKind, NodeView, Param,
};
use crate::topo::{acyclic, first_blocked};

verus! {

#[derive(Debug, Clone)]
pub struct ProjectNode {
    pub id: String,
    pub kind: NodeKind,
    /// Parameters in the order the project lists them (by name).
    pub params: Vec<Param>,
}

#[derive(Debug, Clone)]
pub struct ProjectConn {
    /// `[node, port]`
    pub from: [String; 2],
    /// `[node, port]`
    pub to: [String; 2],
}

#[derive(Debug, Clone)]
pub struct Project {
    pub sample_rate: u32,
    pub nodes: Vec<ProjectNode>,
    pub connections: Vec<ProjectConn>,
}

pub ghost struct ProjectNodeView {
    pub id: Seq<char>,
    pub kind: NodeKind,
    pub params: Seq<(Seq<char>, u32)>,
}

pub ghost struct ProjectConnView {
    pub from: (Seq<char>, Seq<char>),
    pub to: (Seq<char>, Seq<char>),
}

pub ghost struct ProjectView {
    pub sample_rate: u32,
    pub nodes: Seq<ProjectNodeView>,
    pub connections: Seq<ProjectConnView>,
}

impl View for ProjectNode {
    type V = ProjectNodeView;

    open spec fn view(&self) -> ProjectNodeView {
        ProjectNodeView { id: self.id@, kind: self.kind, params: param_views(self.params@) }
    }
}

impl View for ProjectConn {
    type V = ProjectConnView;

    open spec fn view(&self) -> ProjectConnView {
        ProjectConnView {
            from: (self.from@[0]@, self.from@[1]@),
            to: (self.to@[0]@, self.to@[1]@),
        }
    }
}

impl View for Project {
    type V = ProjectView;

    open spec fn view(&self) -> ProjectView {
        ProjectView {
            sample_rate: self.sample_rate,
            nodes: self.nodes@.map_values(|n: ProjectNode| n@),
            connections: self.connections@.map_values(|c: ProjectConn| c@),
        }
    }
}

/// Setting a node's parameters one after another, stopping at the first refusal.
pub open spec fn apply_param_list(g: GraphView, id: u32, ps: Seq<(Seq<char>, u32)>) -> Result<
    GraphView,
    ErrorView,
>
    decreases ps.len(),
{
    if ps.len() == 0 {
        Ok(g)
    } else {
        match apply_param_list(g, id, ps.drop_last()) {
            Err(e) => Err(e),
            Ok(g1) => spec_set_param(g1, id, ps.last().0, ps.last().1),
        }
    }
}

/// Adding the project's nodes in order, each followed by its parameters;
/// also gives each node name with the id it got.
pub open spec fn build_nodes(sample_rate: u32, ns: Seq<ProjectNodeView>) -> Result<
    (GraphView, Seq<(Seq<char>, u32)>),
    ErrorView,
>
    decreases ns.len(),
{
    if ns.len() == 0 {
        Ok(
            (
                GraphView { sample_rate, nodes: Seq::empty(), connections: Seq::empty() },
                Seq::empty(),
            ),
        )
    } else {
        match build_nodes(sample_rate, ns.drop_last()) {
            Err(e) => Err(e),
            Ok((g, names)) => {
                let n = ns.last();
                match spec_add_node(g, n.id, n.kind) {
                    Err(e) => Err(e),
                    Ok((g1, id)) => match apply_param_list(g1, id, n.params) {
                        Err(e) => Err(e),
                        Ok(g2) => Ok((g2, names.push((n.id, id)))),
                    },
                }
            },
        }
    }
}

/// The id recorded for the first entry at or after `k` called `name`.
pub open spec fn name_from(names: Seq<(Seq<char>, u32)>, name: Seq<char>, k: int) -> Option<u32>
    decreases names.len() - k,
{
    if k < 0 || k >= names.len() {
        None
    } else if names[k].0 == name {
        Some(names[k].1)
    } else {
        name_from(names, name, k + 1)
    }
}

/// Adding the project's connections in order, with node names resolved.
pub open spec fn build_conns(
    g: GraphView,
    names: Seq<(Seq<char>, u32)>,
    cs: Seq<ProjectConnView>,
) -> Result<GraphView, ErrorView>
    decreases cs.len(),
{
    if cs.len() == 0 {
        Ok(g)
    } else {
        match build_conns(g, names, cs.drop_last()) {
            Err(e) => Err(e),
            Ok(g1) => {
                let c = cs.last();
                match name_from(names, c.from.0, 0) {
                    None => Err(ErrorView::UnknownNode(c.from.0)),
                    Some(a) => match name_from(names, c.to.0, 0) {
                        None => Err(ErrorView::UnknownNode(c.to.0)),
                        Some(b) => spec_connect(g1, a, c.from.1, b, c.to.1),
                    },
                }
            },
        }
    }
}

/// The first node that lies on or downstream of a cycle.
pub open spec fn first_blocked_index(g: GraphView) -> int {
    choose|x: int| first_blocked(g, x)
}

/// What validating a graph gives.
pub open spec fn spec_validate(g: GraphView) -> Result<(), ErrorView> {
    if !has_output(g) {
        Err(ErrorView::NoOutput)
    } else if !acyclic(g) {
        Err(ErrorView::Cycle(g.nodes[first_blocked_index(g)].name))
    } else {
        Ok(())
    }
}

/// What building a graph from a project gives: the sample rate is checked,
/// then nodes and their parameters are added, then connections, then the
/// whole graph is validated; the first refusal is the result.
pub open spec fn spec_to_graph(p: ProjectView) -> Result<GraphView, ErrorView> {
    if p.sample_rate == 0 {
        Err(ErrorView::BadSampleRate)
    } else {
        match build_nodes(p.sample_rate, p.nodes) {
            Err(e) => Err(e),
            Ok((g, names)) => match build_conns(g, names, p.connections) {
                Err(e) => Err(e),
                Ok(g2) => match spec_validate(g2) {
                    Err(e) => Err(e),
                    Ok(_) => Ok(g2),
                },
            },
        }
    }
}

/// A graph built from a project has an output node and no cycle; a project
/// whose nodes and connections build, but whose graph has an output and a
/// node on or downstream of a cycle, is refused with `Cycle` naming the first
/// such node.
pub proof fn lemma_to_graph_validates(p: ProjectView)
    ensures
        spec_to_graph(p) matches Ok(g) ==> has_output(g) && acyclic(g),
        ({
            match build_nodes(p.sample_rate, p.nodes) {
                Ok((g1, names)) => match build_conns(g1, names, p.connections) {
                    Ok(g2) => p.sample_rate > 0 && has_output(g2) && !acyclic(g2) ==> exists|x: int|
                        first_blocked(g2, x) && spec_to_graph(p) == Err::<GraphView, ErrorView>(
                            ErrorView::Cycle(#[trigger] g2.nodes[x].name),
                        ),
                    Err(_) => true,
                },
                Err(_) => true,
            }
        }),
{
    if p.sample_rate > 0 {
        if let Ok((g1, names)) = build_nodes(p.sample_rate, p.nodes) {
            if let Ok(g2) = build_conns(g1, names, p.connections) {
                if has_output(g2) && !acyclic(g2) {
                    let y = choose|y: int| 0 <= y < g2.nodes.len() && #[trigger] crate::topo::blocked(g2, y);
                    lemma_first_blocked_exists(g2, y);
                    let x = first_blocked_index(g2);
                    assert(first_blocked(g2, x));
                }
            }
        }
    }
}

/// Some node is first blocked when any node is blocked.
proof fn lemma_first_blocked_exists(g: GraphView, y: int)
    requires
        0 <= y < g.nodes.len(),
        crate::topo::blocked(g, y),
    ensures
        first_blocked(g, first_blocked_index(g)),
    decreases y,
{
    if forall|z: int| 0 <= z < y ==> !#[trigger] crate::topo::blocked(g, z) {
        assert(first_blocked(g, y));
    } else {
        let z = choose|z: int| 0 <= z < y && #[trigger] crate::topo::blocked(g, z);
        lemma_first_blocked_exists(g, z);
    }
}

/// First blocked nodes are unique.
pub proof fn lemma_first_blocked_unique(g: GraphView, x: int)
    requires
        first_blocked(g, x),
    ensures
        first_blocked_index(g) == x,
{
    let y = first_blocked_index(g);
    assert(first_blocked(g, y));
    if y < x {
        assert(!crate::topo::blocked(g, y));
    } else if x < y {
        assert(!crate::topo::blocked(g, x));
    }
}

fn find_name(names: &Vec<(String, NodeId)>, name: &String) -> (r: Option<NodeId>)
    ensures
        match (r, name_from(names_view(names@), name@, 0)) {
            (Some(id), Some(v)) => id.0 == v,
            (None, None) => true,
            _ => false,
        },
{
    let ghost nv = names@.map_values(|e: (String, NodeId)| (e.0@, e.1.0));
    let mut i: usize = 0;
    while i < names.len()
        invariant
            i <= names@.len(),
            nv == names@.map_values(|e: (String, NodeId)| (e.0@, e.1.0)),
            name_from(nv, name@, 0) == name_from(nv, name@, i as int),
        decreases names.len() - i,
    {
        assert(nv[i as int] == (names@[i as int].0@, names@[i as int].1.0));
        if names[i].0 == *name {
            return Some(names[i].1);
        }
        i = i + 1;
    }
    None
}

/// Once adding parameters has failed, adding more fails the same way.
proof fn lemma_params_err_extends(g: GraphView, id: u32, ps: Seq<(Seq<char>, u32)>, i: int)
    requires
        0 <= i <= ps.len(),
        apply_param_list(g, id, ps.take(i)) is Err,
    ensures
        apply_param_list(g, id, ps) == apply_param_list(g, id, ps.take(i)),
    decreases ps.len() - i,
{
    if i < ps.len() {
        assert(ps.take(i + 1).drop_last() =~= ps.take(i));
        lemma_params_err_extends(g, id, ps, i + 1);
    } else {
        assert(ps.take(i) =~= ps);
    }
}

/// Once adding nodes has failed, adding more fails the same way.
proof fn lemma_nodes_err_extends(sr: u32, ns: Seq<ProjectNodeView>, i: int)
    requires
        0 <= i <= ns.len(),
        build_nodes(sr, ns.take(i)) is Err,
    ensures
        build_nodes(sr, ns) == build_nodes(sr, ns.take(i)),
    decreases ns.len() - i,
{
    if i < ns.len() {
        assert(ns.take(i + 1).drop_last() =~= ns.take(i));
        lemma_nodes_err_extends(sr, ns, i + 1);
    } else {
        assert(ns.take(i) =~= ns);
    }
}

/// Once adding connections has failed, adding more fails the same way.
proof fn lemma_conns_err_extends(
    g: GraphView,
    names: Seq<(Seq<char>, u32)>,
    cs: Seq<ProjectConnView>,
    i: int,
)
    requires
        0 <= i <= cs.len(),
        build_conns(g, names, cs.take(i)) is Err,
    ensures
        build_conns(g, names, cs) == build_conns(g, names, cs.take(i)),
    decreases cs.len() - i,
{
    if i < cs.len() {
        assert(cs.take(i + 1).drop_last() =~= cs.take(i));
        lemma_conns_err_extends(g, names, cs, i + 1);
    } else {
        assert(cs.take(i) =~= cs);
    }
}

pub open spec fn names_view(names: Seq<(String, NodeId)>) -> Seq<(Seq<char>, u32)> {
    names.map_values(|e: (String, NodeId)| (e.0@, e.1.0))
}

/// Sets the parameters in order, stopping at the first refusal.
fn apply_params(g: &mut Graph, id: NodeId, params: &Vec<Param>) -> (r: Result<(), GraphError>)
    requires
        old(g).wf(),
    ensures
        final(g).wf(),
        final(g)@.nodes.len() == old(g)@.nodes.len(),
        match (r, apply_param_list(old(g)@, id.0, param_views(params@))) {
            (Ok(_), Ok(sg)) => final(g)@ == sg,
            (Err(e), Err(se)) => e@ == se,
            _ => false,
        },
{
    let ghost g0 = g@;
    let ghost ps = param_views(params@);
    let mut k: usize = 0;
    let mut failed: Option<GraphError> = None;
    proof {
        assert(ps.take(0) =~= Seq::<(Seq<char>, u32)>::empty());
    }
    while k < params.len() && failed.is_none()
        invariant
            k <= params@.len(),
            ps == param_views(params@),
            g.wf(),
            g@.nodes.len() == g0.nodes.len(),
            failed is None ==> apply_param_list(g0, id.0, ps.take(k as int)) == Ok::<GraphView, ErrorView>(
                g@,
            ),
            failed matches Some(e) ==> apply_param_list(g0, id.0, ps) == Err::<GraphView, ErrorView>(e@),
        decreases params.len() - k,
    {
        proof {
            assert(ps.take(k + 1).drop_last() =~= ps.take(k as int));
            assert(ps.take(k + 1).last() == params@[k as int]@);
        }
        match g.set_param(id, params[k].name.as_str(), params[k].bits) {
            Ok(()) => {},
            Err(e) => {
                proof {
                    assert(apply_param_list(g0, id.0, ps.take(k + 1)) == Err::<GraphView, ErrorView>(e@));
                    lemma_params_err_extends(g0, id.0, ps, k + 1);
                }
                failed = Some(e);
            },
        }
        k = k + 1;
    }
    match failed {
        Some(e) => Err(e),
        None => {
            proof {
                assert(ps.take(k as int) =~= ps);
            }
            Ok(())
        },
    }
}

impl Project {
    fn add_nodes(&self, g: &mut Graph, names: &mut Vec<(String, NodeId)>) -> (r: Result<
        (),
        GraphError,
    >)
        requires
            old(g).wf(),
            old(g)@ == (GraphView {
                sample_rate: self@.sample_rate,
                nodes: Seq::empty(),
                connections: Seq::empty(),
            }),
            old(names)@.len() == 0,
            self.nodes@.len() < u32::MAX,
        ensures
            final(g).wf(),
            match (r, build_nodes(self@.sample_rate, self@.nodes)) {
                (Ok(_), Ok((sg, sn))) => final(g)@ == sg && names_view(final(names)@) == sn,
                (Err(e), Err(se)) => e@ == se,
                _ => false,
            },
    {
        let ghost p = self@;
        let mut i: usize = 0;
        proof {
            assert(p.nodes.take(0) =~= Seq::<ProjectNodeView>::empty());
            assert(names_view(names@) =~= Seq::<(Seq<char>, u32)>::empty());
        }
        let mut failed: Option<GraphError> = None;
        while i < self.nodes.len() && failed.is_none()
            invariant
                p == self@,
                i <= self.nodes@.len(),
                self.nodes@.len() < u32::MAX,
                g.wf(),
                g@.nodes.len() <= i,
                failed is None ==> g@.nodes.len() == i && build_nodes(p.sample_rate, p.nodes.take(i as int))
                    == Ok::<(GraphView, Seq<(Seq<char>, u32)>), ErrorView>((g@, names_view(names@))),
                failed matches Some(e) ==> build_nodes(p.sample_rate, p.nodes) == Err::<
                    (GraphView, Seq<(Seq<char>, u32)>),
                    ErrorView,
                >(e@),
            decreases self.nodes.len() - i,
        {
            let n = &self.nodes[i];
            let ghost pre = p.nodes.take(i as int);
            let ghost post = p.nodes.take(i + 1);
            proof {
                assert(post.drop_last() =~= pre);
                assert(post.last() == n@);
            }
            match g.add_node(n.id.as_str(), n.kind) {
                Ok(id) => {
                    match apply_params(g, id, &n.params) {
                        Ok(()) => {
                            let ghost names0 = names@;
                            names.push((n.id.clone(), id));
                            proof {
                                assert(names_view(names@) =~= names_view(names0).push((n.id@, id.0)));
                            }
                        },
                        Err(e) => {
                            proof {
                                lemma_nodes_err_extends(p.sample_rate, p.nodes, i + 1);
                            }
                            failed = Some(e);
                        },
                    }
                },
                Err(e) => {
                    proof {
                        lemma_nodes_err_extends(p.sample_rate, p.nodes, i + 1);
                    }
                    failed = Some(e);
                },
            }
            i = i + 1;
        }
        match failed {
            Some(e) => Err(e),
            None => {
                proof {
                    assert(p.nodes.take(i as int) =~= p.nodes);
                }
                Ok(())
            },
        }
    }

    fn add_conns(&self, g: &mut Graph, names: &Vec<(String, NodeId)>) -> (r: Result<(), GraphError>)
        requires
            old(g).wf(),
        ensures
            final(g).wf(),
            match (r, build_conns(old(g)@, names_view(names@), self@.connections)) {
                (Ok(_), Ok(sg)) => final(g)@ == sg,
                (Err(e), Err(se)) => e@ == se,
                _ => false,
            },
    {
        let ghost p = self@;
        let ghost gn = g@;
        let ghost nv = names_view(names@);
        let mut k: usize = 0;
        proof {
            assert(p.connections.take(0) =~= Seq::<ProjectConnView>::empty());
        }
        let mut failed: Option<GraphError> = None;
        while k < self.connections.len() && failed.is_none()
            invariant
                p == self@,
                k <= self.connections@.len(),
                g.wf(),
                nv == names_view(names@),
                failed is None ==> build_conns(gn, nv, p.connections.take(k as int)) == Ok::<
                    GraphView,
                    ErrorView,
                >(g@),
                failed matches Some(e) ==> build_conns(gn, nv, p.connections) == Err::<GraphView, ErrorView>(
                    e@,
                ),
            decreases self.connections.len() - k,
        {
            let c = &self.connections[k];
            let ghost post = p.connections.take(k + 1);
            proof {
                assert(post.drop_last() =~= p.connections.take(k as int));
                assert(post.last() == c@);
            }
            match find_name(names, &c.from[0]) {
                None => {
                    let name = c.from[0].clone();
                    proof {
                        assert(name@ == c@.from.0);
                        assert(build_conns(gn, nv, post) == Err::<GraphView, ErrorView>(
                            ErrorView::UnknownNode(c@.from.0),
                        ));
                        lemma_conns_err_extends(gn, nv, p.connections, k + 1);
                    }
                    failed = Some(GraphError::UnknownNode(name));
                },
                Some(a) => {
                    match find_name(names, &c.to[0]) {
                        None => {
                            let name = c.to[0].clone();
                            proof {
                                assert(name@ == c@.to.0);
                                assert(build_conns(gn, nv, post) == Err::<GraphView, ErrorView>(
                                    ErrorView::UnknownNode(c@.to.0),
                                ));
                                lemma_conns_err_extends(gn, nv, p.connections, k + 1);
                            }
                            failed = Some(GraphError::UnknownNode(name));
                        },
                        Some(b) => {
                            match g.connect(a, c.from[1].as_str(), b, c.to[1].as_str()) {
                                Ok(()) => {},
                                Err(e) => {
                                    proof {
                                        lemma_conns_err_extends(gn, nv, p.connections, k + 1);
                                    }
                                    failed = Some(e);
                                },
                            }
                        },
                    }
                },
            }
            k = k + 1;
        }
        match failed {
            Some(e) => Err(e),
            None => {
                proof {
                    assert(p.connections.take(k as int) =~= p.connections);
                }
                Ok(())
            },
        }
    }

    pub fn to_graph(&self) -> (r: Result<Graph, GraphError>)
        requires
            self.nodes@.len() < u32::MAX,
        ensures
            match (r, spec_to_graph(self@)) {
                (Ok(g), Ok(sg)) => g.wf() && g@ == sg,
                (Err(e), Err(se)) => e@ == se,
                _ => false,
            },
    {
        let mut g = match Graph::new(self.sample_rate) {
            Ok(g) => g,
            Err(e) => {
                return Err(e);
            },
        };
        let mut names: Vec<(String, NodeId)> = Vec::new();
        match self.add_nodes(&mut g, &mut names) {
            Ok(()) => {},
            Err(e) => {
                return Err(e);
            },
        }
        match self.add_conns(&mut g, &names) {
            Ok(()) => {},
            Err(e) => {
                return Err(e);
            },
        }
        match g.validate() {
            Ok(()) => {},
            Err(e) => {
                proof {
                    if has_output(g@) {
                        let x = choose|x: int|
                            first_blocked(g@, x) && e@ == ErrorView::Cycle(#[trigger] g@.nodes[x].name);
                        lemma_first_blocked_unique(g@, x);
                    }
                }
                return Err(e);
            },
        }
        Ok(g)
    }
}

/// The project a graph is written as: nodes by name with their kinds and
/// parameters, connections between `[node name, port]` pairs.
pub open spec fn project_of(g: GraphView) -> ProjectView {
    ProjectView {
        sample_rate: g.sample_rate,
        nodes: g.nodes.map_values(
            |n: crate::graph::NodeView| ProjectNodeView { id: n.name, kind: n.kind, params: n.params },
        ),
        connections: g.connections.map_values(
            |c: crate::graph::ConnView|
                ProjectConnView {
                    from: (g.nodes[c.from_node - 1].name, c.from_port),
                    to: (g.nodes[c.to_node - 1].name, c.to_port),
                },
        ),
    }
}

impl Graph {
    /// Writes the graph as a project.
    pub fn to_project(&self) -> (r: Project)
        requires
            self.wf(),
        ensures
            r@ == project_of(self@),
    {
        let ghost g = self@;
        proof {
            self.lemma_wf();
        }
        let ns = self.nodes();
        let mut nodes: Vec<ProjectNode> = Vec::new();
        let mut i: usize = 0;
        while i < ns.len()
            invariant
                i <= ns@.len(),
                ns@.map_values(|n: crate::graph::Node| n@) == g.nodes,
                nodes@.len() == i,
                forall|j: int|
                    0 <= j < i ==> (#[trigger] nodes@[j])@ == project_of(g).nodes[j],
            decreases ns.len() - i,
        {
            let n = &ns[i];
            proof {
                assert(n@ == g.nodes[i as int]);
            }
            nodes.push(ProjectNode { id: n.name.clone(), kind: n.kind, params: clone_params(&n.params) });
            i = i + 1;
        }
        let cs = self.connections();
        let mut connections: Vec<ProjectConn> = Vec::new();
        let mut k: usize = 0;
        while k < cs.len()
            invariant
                self.wf(),
                g == self@,
                k <= cs@.len(),
                cs@.map_values(|c: crate::graph::Connection| c@) == g.connections,
                connections@.len() == k,
                forall|j: int|
                    0 <= j < k ==> (#[trigger] connections@[j])@ == project_of(g).connections[j],
            decreases cs.len() - k,
        {
            let c = &cs[k];
            proof {
                self.lemma_wf();
                assert(c@ == g.connections[k as int]);
                assert(crate::graph::conn_wf(g.nodes, g.connections[k as int]));
            }
            let from_name = match self.node_by_id(c.from_node) {
                Ok(n) => n.name.clone(),
                Err(_) => String::new(),
            };
            let to_name = match self.node_by_id(c.to_node) {
                Ok(n) => n.name.clone(),
                Err(_) => String::new(),
            };
            let pc = ProjectConn {
                from: [from_name, c.from_port.clone()],
                to: [to_name, c.to_port.clone()],
            };
            proof {
                assert(pc@ == project_of(g).connections[k as int]);
            }
            connections.push(pc);
            k = k + 1;
        }
        let r = Project { sample_rate: self.sample_rate(), nodes, connections };
        proof {
            assert(r@.nodes =~= project_of(g).nodes);
            assert(r@.connections =~= project_of(g).connections);
        }
        r
    }
}

/// Each node name of the graph with the id it gets when the nodes are added
/// in order.
pub open spec fn names_of(g: GraphView, i: int) -> Seq<(Seq<char>, u32)> {
    Seq::new(i as nat, |j: int| (g.nodes[j].name, (j + 1) as u32))
}

/// The graph with the parameters of node `i` replaced by `q`.
pub open spec fn with_node_params(g: GraphView, i: int, q: Seq<(Seq<char>, u32)>) -> GraphView {
    GraphView { nodes: g.nodes.update(i, NodeView { params: q, ..g.nodes[i] }), ..g }
}

/// The parameters of a kind of node have distinct names.
proof fn lemma_default_names_distinct(kind: NodeKind, a: int, b: int)
    requires
        0 <= a < default_params_of(kind).len(),
        0 <= b < default_params_of(kind).len(),
        a != b,
    ensures
        default_params_of(kind)[a].0 != default_params_of(kind)[b].0,
{
    if kind == NodeKind::Oscillator {
        reveal_strlit("amp");
        reveal_strlit("freq");
        assert("amp"@.len() != "freq"@.len());
    }
}

/// Setting a node's parameters, in order, to the values of a well-formed
/// list replaces its defaults one by one.
proof fn lemma_apply_params(g0: GraphView, i: int, ps: Seq<(Seq<char>, u32)>, k: int)
    requires
        0 <= i < g0.nodes.len(),
        g0.nodes[i].id == i + 1,
        g0.nodes[i].params == default_params_of(g0.nodes[i].kind),
        params_wf(g0.nodes[i].kind, ps),
        0 <= k <= ps.len(),
        i + 1 <= u32::MAX,
    ensures
        apply_param_list(g0, (i + 1) as u32, ps.take(k)) == Ok::<GraphView, ErrorView>(
            with_node_params(g0, i, ps.take(k) + default_params_of(g0.nodes[i].kind).skip(k)),
        ),
    decreases k,
{
    let kind = g0.nodes[i].kind;
    let d = default_params_of(kind);
    if k == 0 {
        assert(ps.take(0) =~= Seq::<(Seq<char>, u32)>::empty());
        assert(ps.take(0) + d.skip(0) =~= d);
        assert(NodeView { params: d, ..g0.nodes[i] } == g0.nodes[i]);
        assert(g0.nodes.update(i, NodeView { params: d, ..g0.nodes[i] }) =~= g0.nodes);
    } else {
        lemma_apply_params(g0, i, ps, k - 1);
        assert(ps.take(k).drop_last() =~= ps.take(k - 1));
        let gk = with_node_params(g0, i, ps.take(k - 1) + d.skip(k - 1));
        let cur = ps.take(k - 1) + d.skip(k - 1);
        let n = gk.nodes[i];
        assert(n.params == cur);
        let name = ps[k - 1].0;
        assert(ps.take(k).last() == ps[k - 1]);
        assert(param_ok_ok(kind, ps, k - 1));
        assert(cur[k - 1].0 == name);
        let q = param_pos(cur, name);
        assert(0 <= q < cur.len() && cur[q].0 == name);
        if q != k - 1 {
            assert(cur[q].0 == d[q].0);
            lemma_default_names_distinct(kind, q, k - 1);
        }
        assert(cur.update(k - 1, (name, ps[k - 1].1)) =~= ps.take(k) + d.skip(k));
        assert(spec_set_param(gk, (i + 1) as u32, name, ps[k - 1].1) == Ok::<GraphView, ErrorView>(
            with_node_params(g0, i, ps.take(k) + d.skip(k)),
        )) by {
            assert(gk.nodes.update(i, NodeView { params: cur.update(k - 1, (name, ps[k - 1].1)), ..n })
                =~= g0.nodes.update(i, NodeView { params: ps.take(k) + d.skip(k), ..g0.nodes[i] }));
        }
    }
}

/// A well-formed parameter list holds an accepted value at position `k`.
pub open spec fn param_ok_ok(kind: NodeKind, ps: Seq<(Seq<char>, u32)>, k: int) -> bool {
    crate::graph::param_ok_spec(kind, ps[k].0, ps[k].1) && ps[k].0 == default_params_of(kind)[k].0
}

/// Adding the first `i` nodes of a well-formed graph, with their parameters,
/// rebuilds exactly those nodes.
proof fn lemma_build_nodes(g: GraphView, i: int)
    requires
        graph_wf(g),
        0 <= i <= g.nodes.len(),
    ensures
        build_nodes(g.sample_rate, project_of(g).nodes.take(i)) == Ok::<
            (GraphView, Seq<(Seq<char>, u32)>),
            ErrorView,
        >(
            (
                GraphView {
                    sample_rate: g.sample_rate,
                    nodes: g.nodes.take(i),
                    connections: Seq::empty(),
                },
                names_of(g, i),
            ),
        ),
    decreases i,
{
    let pn = project_of(g).nodes;
    if i == 0 {
        assert(pn.take(0) =~= Seq::<ProjectNodeView>::empty());
        assert(g.nodes.take(0) =~= Seq::<NodeView>::empty());
        assert(names_of(g, 0) =~= Seq::<(Seq<char>, u32)>::empty());
    } else {
        lemma_build_nodes(g, i - 1);
        assert(pn.take(i).drop_last() =~= pn.take(i - 1));
        let gi = GraphView {
            sample_rate: g.sample_rate,
            nodes: g.nodes.take(i - 1),
            connections: Seq::empty(),
        };
        let nv = g.nodes[i - 1];
        let last = pn.take(i).last();
        assert(last == pn[i - 1]);
        assert(last == ProjectNodeView { id: nv.name, kind: nv.kind, params: nv.params });
        assert(!has_name(gi, nv.name)) by {
            if has_name(gi, nv.name) {
                let j = choose|j: int| 0 <= j < gi.nodes.len() && #[trigger] gi.nodes[j].name == nv.name;
                assert(g.nodes[j].name == nv.name);
            }
        }
        assert(nv.name.len() > 0);
        assert(nv.id == i);
        let g1 = GraphView {
            nodes: gi.nodes.push(
                NodeView { id: i as u32, name: nv.name, kind: nv.kind, params: default_params_of(nv.kind) },
            ),
            ..gi
        };
        assert(spec_add_node(gi, nv.name, nv.kind) == Ok::<(GraphView, u32), ErrorView>(
            (g1, i as u32),
        ));
        assert(params_wf(nv.kind, nv.params));
        assert forall|k: int| 0 <= k < nv.params.len() implies param_ok_ok(nv.kind, nv.params, k) by {
            assert(nv.params[k].0 == default_params_of(nv.kind)[k].0);
        }
        lemma_apply_params(g1, i - 1, nv.params, nv.params.len() as int);
        assert(nv.params.take(nv.params.len() as int) =~= nv.params);
        assert(nv.params + default_params_of(nv.kind).skip(nv.params.len() as int) =~= nv.params);
        assert(with_node_params(g1, i - 1, nv.params).nodes =~= g.nodes.take(i));
        assert(names_of(g, i - 1).push((nv.name, i as u32)) =~= names_of(g, i));
    }
}

/// In the name table of a graph with unique names, a node's name resolves to its id.
proof fn lemma_name_lookup(g: GraphView, x: int, k: int)
    requires
        graph_wf(g),
        0 <= k <= x < g.nodes.len(),
    ensures
        name_from(names_of(g, g.nodes.len() as int), g.nodes[x].name, k) == Some((x + 1) as u32),
    decreases x - k,
{
    let names = names_of(g, g.nodes.len() as int);
    if k < x {
        assert(names[k].0 == g.nodes[k].name);
        assert(g.nodes[k].name != g.nodes[x].name);
        lemma_name_lookup(g, x, k + 1);
    } else {
        assert(names[k] == (g.nodes[x].name, (x + 1) as u32));
    }
}

/// Adding the first `k` connections of a well-formed graph by name rebuilds them.
proof fn lemma_build_conns(g: GraphView, k: int)
    requires
        graph_wf(g),
        0 <= k <= g.connections.len(),
    ensures
        build_conns(
            GraphView { sample_rate: g.sample_rate, nodes: g.nodes, connections: Seq::empty() },
            names_of(g, g.nodes.len() as int),
            project_of(g).connections.take(k),
        ) == Ok::<GraphView, ErrorView>(
            GraphView { sample_rate: g.sample_rate, nodes: g.nodes, connections: g.connections.take(k) },
        ),
    decreases k,
{
    let g0 = GraphView { sample_rate: g.sample_rate, nodes: g.nodes, connections: Seq::empty() };
    let names = names_of(g, g.nodes.len() as int);
    let pc = project_of(g).connections;
    if k == 0 {
        assert(pc.take(0) =~= Seq::<ProjectConnView>::empty());
        assert(g.connections.take(0) =~= Seq::<ConnView>::empty());
    } else {
        lemma_build_conns(g, k - 1);
        assert(pc.take(k).drop_last() =~= pc.take(k - 1));
        let c = g.connections[k - 1];
        assert(conn_wf(g.nodes, c));
        let last = pc.take(k).last();
        assert(last == pc[k - 1]);
        lemma_name_lookup(g, c.from_node - 1, 0);
        lemma_name_lookup(g, c.to_node - 1, 0);
        let gk = GraphView {
            sample_rate: g.sample_rate,
            nodes: g.nodes,
            connections: g.connections.take(k - 1),
        };
        assert(gk.connections.push(
            ConnView {
                from_node: c.from_node,
                from_port: c.from_port,
                to_node: c.to_node,
                to_port: c.to_port,
            },
        ) =~= g.connections.take(k));
    }
}

/// Writing a valid graph as a project and building a graph from that project
/// gives the same graph back: same sample rate, the same nodes with the same
/// ids, names, kinds and parameter values, the same connections in the same
/// order.
pub proof fn lemma_project_roundtrip(g: GraphView)
    requires
        graph_wf(g),
        g.sample_rate > 0,
        has_output(g),
        acyclic(g),
    ensures
        spec_to_graph(project_of(g)) == Ok::<GraphView, ErrorView>(g),
{
    let n = g.nodes.len() as int;
    lemma_build_nodes(g, n);
    assert(project_of(g).nodes.take(n) =~= project_of(g).nodes);
    assert(g.nodes.take(n) =~= g.nodes);
    lemma_build_conns(g, g.connections.len() as int);
    assert(project_of(g).connections.take(g.connections.len() as int) =~= project_of(
        g,
    ).connections);
    assert(g.connections.take(g.connections.len() as int) =~= g.connections);
    let g2 = GraphView { sample_rate: g.sample_rate, nodes: g.nodes, connections: g.connections };
    assert(g2 == g);
}


/// A graph that validates (an output node, no cycle) can be written as a
/// project that `Project::to_graph` accepts, and reading that project back
/// gives the same graph.
pub proof fn lemma_graph_project_roundtrip(g: &Graph)
    requires
        g.wf(),
        has_output(g@),
        acyclic(g@),
    ensures
        project_of(g@).nodes.len() < u32::MAX,
        spec_to_graph(project_of(g@)) == Ok::<GraphView, ErrorView>(g@),
{
    g.lemma_wf();
    lemma_project_roundtrip(g@);
}

} // verus!

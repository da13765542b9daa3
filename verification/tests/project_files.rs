use moredata::error::GraphError;
use moredata::graph::{Graph, NodeId, NodeKind, Param};
use moredata::project::{Project, ProjectConn, ProjectNode};

fn sine_graph() -> Graph {
    let mut g = Graph::new(48_000).unwrap();
    let osc = g.add_node("osc", NodeKind::Oscillator).unwrap();
    let out = g.add_node("out", NodeKind::Output).unwrap();
    g.set_param(osc, "freq", 440.0f32.to_bits()).unwrap();
    g.set_param(osc, "amp", 0.5f32.to_bits()).unwrap();
    g.connect(osc, "out", out, "in").unwrap();
    g
}

fn node(id: &str, kind: NodeKind, params: &[(&str, f32)]) -> ProjectNode {
    ProjectNode {
        id: id.to_string(),
        kind,
        params: params
            .iter()
            .map(|(n, v)| Param { name: n.to_string(), bits: v.to_bits() })
            .collect(),
    }
}

fn conn(from: (&str, &str), to: (&str, &str)) -> ProjectConn {
    ProjectConn {
        from: [from.0.to_string(), from.1.to_string()],
        to: [to.0.to_string(), to.1.to_string()],
    }
}

#[test]
fn project_roundtrip() {
    let g = sine_graph();
    let p = g.to_project();
    let g2 = p.to_graph().unwrap();
    assert_eq!(g2.nodes().len(), 2);
}

#[test]
fn roundtrip_keeps_everything() {
    let mut g = Graph::new(44_100).unwrap();
    let a = g.add_node("a", NodeKind::Oscillator).unwrap();
    let gain = g.add_node("g", NodeKind::Gain).unwrap();
    let gate = g.add_node("gate", NodeKind::Gate).unwrap();
    let out = g.add_node("out", NodeKind::Output).unwrap();
    g.set_param(a, "freq", 330.0f32.to_bits()).unwrap();
    g.set_param(gain, "gain", 2.0f32.to_bits()).unwrap();
    g.connect(a, "out", gain, "in").unwrap();
    g.connect(gain, "out", gate, "in").unwrap();
    g.connect(gate, "out", out, "in").unwrap();
    let g2 = g.to_project().to_graph().unwrap();
    assert_eq!(g2.sample_rate(), 44_100);
    assert_eq!(g2.nodes().len(), g.nodes().len());
    for (x, y) in g.nodes().iter().zip(g2.nodes()) {
        assert_eq!(x.id, y.id);
        assert_eq!(x.name, y.name);
        assert_eq!(x.kind, y.kind);
        let px: Vec<(String, u32)> = x.params.iter().map(|p| (p.name.clone(), p.bits)).collect();
        let py: Vec<(String, u32)> = y.params.iter().map(|p| (p.name.clone(), p.bits)).collect();
        assert_eq!(px, py);
    }
    assert_eq!(g2.connections().len(), 3);
    for (x, y) in g.connections().iter().zip(g2.connections()) {
        assert_eq!(x.from_node, y.from_node);
        assert_eq!(x.from_port, y.from_port);
        assert_eq!(x.to_node, y.to_node);
        assert_eq!(x.to_port, y.to_port);
    }
}

#[test]
fn to_project_writes_names() {
    let p = sine_graph().to_project();
    assert_eq!(p.sample_rate, 48_000);
    assert_eq!(p.nodes.len(), 2);
    assert_eq!(p.nodes[0].id, "osc");
    assert_eq!(p.nodes[0].kind, NodeKind::Oscillator);
    assert_eq!(p.nodes[0].params[1].name, "freq");
    assert_eq!(p.nodes[0].params[1].bits, 440.0f32.to_bits());
    assert_eq!(p.connections.len(), 1);
    assert_eq!(p.connections[0].from, ["osc".to_string(), "out".to_string()]);
    assert_eq!(p.connections[0].to, ["out".to_string(), "in".to_string()]);
}

#[test]
fn project_builds_graph() {
    let p = Project {
        sample_rate: 48_000,
        nodes: vec![
            node("osc", NodeKind::Oscillator, &[("amp", 0.3), ("freq", 220.0)]),
            node("out", NodeKind::Output, &[]),
        ],
        connections: vec![conn(("osc", "out"), ("out", "in"))],
    };
    let g = p.to_graph().unwrap();
    assert_eq!(g.node_by_name("osc").unwrap().id, NodeId(1));
    assert_eq!(g.node_by_name("osc").unwrap().params[0].bits, 0.3f32.to_bits());
    assert_eq!(g.connections().len(), 1);
}

#[test]
fn project_errors_come_in_order() {
    let bad_rate = Project { sample_rate: 0, nodes: vec![], connections: vec![] };
    assert_eq!(bad_rate.to_graph().unwrap_err(), GraphError::BadSampleRate);

    let dup = Project {
        sample_rate: 48_000,
        nodes: vec![node("a", NodeKind::Output, &[]), node("a", NodeKind::Output, &[])],
        connections: vec![],
    };
    assert_eq!(dup.to_graph().unwrap_err(), GraphError::DuplicateNode("a".to_string()));

    let range = Project {
        sample_rate: 48_000,
        nodes: vec![node("osc", NodeKind::Oscillator, &[("freq", 30_000.0)])],
        connections: vec![],
    };
    assert!(matches!(range.to_graph(), Err(GraphError::ParamRange { .. })));

    let missing = Project {
        sample_rate: 48_000,
        nodes: vec![node("out", NodeKind::Output, &[])],
        connections: vec![conn(("ghost", "out"), ("out", "in"))],
    };
    assert_eq!(missing.to_graph().unwrap_err(), GraphError::UnknownNode("ghost".to_string()));

    let silent = Project {
        sample_rate: 48_000,
        nodes: vec![node("osc", NodeKind::Oscillator, &[])],
        connections: vec![],
    };
    assert_eq!(silent.to_graph().unwrap_err(), GraphError::NoOutput);
}

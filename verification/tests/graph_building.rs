use moredata::error::GraphError;
use moredata::graph::{find_port, Graph, NodeId, NodeKind, PortDir};
use moredata::text::decimal_string;

fn sine_graph() -> Graph {
    let mut g = Graph::new(48_000).unwrap();
    let osc = g.add_node("osc", NodeKind::Oscillator).unwrap();
    let out = g.add_node("out", NodeKind::Output).unwrap();
    g.set_param(osc, "freq", 440.0f32.to_bits()).unwrap();
    g.set_param(osc, "amp", 0.5f32.to_bits()).unwrap();
    g.connect(osc, "out", out, "in").unwrap();
    g
}

#[test]
fn construct_and_validate() {
    let g = sine_graph();
    g.validate().unwrap();
    assert_eq!(g.nodes().len(), 2);
}

#[test]
fn duplicate_node() {
    let mut g = Graph::new(48_000).unwrap();
    g.add_node("osc", NodeKind::Oscillator).unwrap();
    let e = g.add_node("osc", NodeKind::Oscillator).unwrap_err();
    assert!(matches!(e, GraphError::DuplicateNode(_)));
}

#[test]
fn invalid_connection_direction() {
    let mut g = Graph::new(48_000).unwrap();
    let a = g.add_node("osc", NodeKind::Oscillator).unwrap();
    let b = g.add_node("gain", NodeKind::Gain).unwrap();
    let e = g.connect(a, "out", b, "out").unwrap_err();
    assert!(matches!(e, GraphError::DirectionMismatch { .. }));
}

#[test]
fn unknown_port() {
    let mut g = Graph::new(48_000).unwrap();
    let a = g.add_node("osc", NodeKind::Oscillator).unwrap();
    let b = g.add_node("out", NodeKind::Output).unwrap();
    let e = g.connect(a, "nope", b, "in").unwrap_err();
    assert!(matches!(e, GraphError::UnknownPort { .. }));
}

#[test]
fn param_range() {
    let mut g = Graph::new(48_000).unwrap();
    let osc = g.add_node("osc", NodeKind::Oscillator).unwrap();
    assert!(g.set_param(osc, "freq", 99_000.0f32.to_bits()).is_err());
    assert!(g.set_param(osc, "wet", 0.1f32.to_bits()).is_err());
}

#[test]
fn cycle_rejected() {
    let mut g = Graph::new(48_000).unwrap();
    let a = g.add_node("g1", NodeKind::Gain).unwrap();
    let b = g.add_node("g2", NodeKind::Gain).unwrap();
    let _ = g.add_node("out", NodeKind::Output).unwrap();
    g.connect(a, "out", b, "in").unwrap();
    g.connect(b, "out", a, "in").unwrap();
    assert!(matches!(g.validate(), Err(GraphError::Cycle(_))));
}

#[test]
fn no_output() {
    let mut g = Graph::new(48_000).unwrap();
    g.add_node("osc", NodeKind::Oscillator).unwrap();
    assert!(matches!(g.validate(), Err(GraphError::NoOutput)));
}

#[test]
fn bad_sample_rate() {
    assert!(Graph::new(0).is_err());
}

#[test]
fn parallel_independent_chains_compile() {
    let mut g = Graph::new(48000).unwrap();
    let out = g.add_node("out", NodeKind::Output).unwrap();
    for i in 0..2 {
        let osc = g.add_node(&format!("osc{i}"), NodeKind::Oscillator).unwrap();
        let mix = g.add_node(&format!("mix{i}"), NodeKind::Mixer).unwrap();
        g.connect(osc, "out", mix, "in").unwrap();
        g.connect(mix, "out", out, "in").unwrap();
    }
    g.validate().unwrap();
}

#[test]
fn ids_are_handed_out_in_order() {
    let mut g = Graph::new(44_100).unwrap();
    assert_eq!(g.add_node("a", NodeKind::Oscillator).unwrap(), NodeId(1));
    assert_eq!(g.add_node("b", NodeKind::Gain).unwrap(), NodeId(2));
    assert_eq!(g.add_node("c", NodeKind::Output).unwrap(), NodeId(3));
    assert_eq!(g.node_count(), 3);
    assert_eq!(g.sample_rate(), 44_100);
}

#[test]
fn empty_name_refused() {
    let mut g = Graph::new(48_000).unwrap();
    assert!(matches!(g.add_node("", NodeKind::Gain), Err(GraphError::EmptyId)));
    assert_eq!(g.node_count(), 0);
}

#[test]
fn new_nodes_carry_default_params() {
    let mut g = Graph::new(48_000).unwrap();
    let osc = g.add_node("osc", NodeKind::Oscillator).unwrap();
    let gain = g.add_node("gain", NodeKind::Gain).unwrap();
    let n = g.node_by_id(osc).unwrap();
    assert_eq!(n.params.len(), 2);
    assert_eq!(n.params[0].name, "amp");
    assert_eq!(n.params[0].bits, 0.2f32.to_bits());
    assert_eq!(n.params[1].name, "freq");
    assert_eq!(n.params[1].bits, 440.0f32.to_bits());
    let n = g.node_by_id(gain).unwrap();
    assert_eq!(n.params.len(), 1);
    assert_eq!(n.params[0].name, "gain");
    assert_eq!(n.params[0].bits, 1.0f32.to_bits());
}

#[test]
fn set_param_changes_one_value() {
    let mut g = sine_graph();
    let osc = g.node_by_name("osc").unwrap().id;
    g.set_param(osc, "amp", 0.75f32.to_bits()).unwrap();
    let n = g.node_by_name("osc").unwrap();
    assert_eq!(n.params[0].bits, 0.75f32.to_bits());
    assert_eq!(n.params[1].bits, 440.0f32.to_bits());
}

#[test]
fn param_limits_are_inclusive() {
    let mut g = Graph::new(48_000).unwrap();
    let osc = g.add_node("osc", NodeKind::Oscillator).unwrap();
    let gain = g.add_node("gain", NodeKind::Gain).unwrap();
    assert!(g.set_param(osc, "freq", 20_000.0f32.to_bits()).is_ok());
    assert!(g.set_param(osc, "freq", 0.0f32.to_bits()).is_ok());
    assert!(g.set_param(osc, "amp", 1.0f32.to_bits()).is_ok());
    assert!(g.set_param(gain, "gain", 8.0f32.to_bits()).is_ok());
    assert!(matches!(
        g.set_param(gain, "gain", 8.5f32.to_bits()),
        Err(GraphError::ParamRange { .. })
    ));
    assert!(matches!(
        g.set_param(osc, "amp", (-0.1f32).to_bits()),
        Err(GraphError::ParamRange { .. })
    ));
    assert!(matches!(
        g.set_param(osc, "amp", f32::NAN.to_bits()),
        Err(GraphError::ParamRange { .. })
    ));
}

#[test]
fn unknown_node_message_names_the_id() {
    let mut g = Graph::new(48_000).unwrap();
    let e = g.set_param(NodeId(17), "amp", 0.5f32.to_bits()).unwrap_err();
    assert_eq!(e, GraphError::UnknownNode("17".to_string()));
    let e = g.node_by_id(NodeId(205)).unwrap_err();
    assert_eq!(e, GraphError::UnknownNode("205".to_string()));
}

#[test]
fn unknown_param_names_node_and_param() {
    let mut g = Graph::new(48_000).unwrap();
    let out = g.add_node("out", NodeKind::Output).unwrap();
    let e = g.set_param(out, "gain", 1.0f32.to_bits()).unwrap_err();
    assert_eq!(
        e,
        GraphError::UnknownParam { node: "out".to_string(), param: "gain".to_string() }
    );
}

#[test]
fn direction_mismatch_reports_both_ends() {
    let mut g = Graph::new(48_000).unwrap();
    let a = g.add_node("osc", NodeKind::Oscillator).unwrap();
    let b = g.add_node("gain", NodeKind::Gain).unwrap();
    let e = g.connect(a, "out", b, "out").unwrap_err();
    assert_eq!(
        e,
        GraphError::DirectionMismatch {
            from: "osc.out".to_string(),
            from_dir: PortDir::Out,
            to: "gain.out".to_string(),
            to_dir: PortDir::Out,
        }
    );
    assert!(g.connections().is_empty());
}

#[test]
fn connect_appends_connection() {
    let g = sine_graph();
    assert_eq!(g.connections().len(), 1);
    let c = &g.connections()[0];
    assert_eq!(c.from_node, NodeId(1));
    assert_eq!(c.from_port, "out");
    assert_eq!(c.to_node, NodeId(2));
    assert_eq!(c.to_port, "in");
}

#[test]
fn cycle_names_first_blocked_node() {
    let mut g = Graph::new(48_000).unwrap();
    let osc = g.add_node("osc", NodeKind::Oscillator).unwrap();
    let a = g.add_node("g1", NodeKind::Gain).unwrap();
    let b = g.add_node("g2", NodeKind::Gain).unwrap();
    let out = g.add_node("out", NodeKind::Output).unwrap();
    g.connect(osc, "out", a, "in").unwrap();
    g.connect(a, "out", b, "in").unwrap();
    g.connect(b, "out", a, "in").unwrap();
    g.connect(b, "out", out, "in").unwrap();
    assert_eq!(g.validate(), Err(GraphError::Cycle("g1".to_string())));
}

#[test]
fn lookups_by_name_and_id() {
    let g = sine_graph();
    assert_eq!(g.node_by_name("out").unwrap().id, NodeId(2));
    assert_eq!(g.node_by_id(NodeId(1)).unwrap().name, "osc");
    assert_eq!(
        g.node_by_name("missing").unwrap_err(),
        GraphError::UnknownNode("missing".to_string())
    );
}

#[test]
fn kinds_have_their_ports() {
    let osc = NodeKind::Oscillator.ports();
    assert_eq!(osc.len(), 1);
    assert_eq!(osc[0].name, "out");
    assert_eq!(osc[0].dir, PortDir::Out);
    let gain = NodeKind::Gain.ports();
    assert_eq!(gain.len(), 2);
    assert_eq!(gain[0].name, "in");
    assert_eq!(gain[1].name, "out");
    assert_eq!(NodeKind::Output.ports()[0].dir, PortDir::In);
    assert!(find_port(NodeKind::Mixer, "in").is_some());
    assert!(find_port(NodeKind::Output, "out").is_none());
}

#[test]
fn param_ok_by_kind() {
    assert!(NodeKind::Oscillator.param_ok("freq", 440.0f32.to_bits()));
    assert!(!NodeKind::Oscillator.param_ok("freq", 20_001.0f32.to_bits()));
    assert!(NodeKind::Gain.param_ok("gain", 0.0f32.to_bits()));
    assert!(!NodeKind::Mixer.param_ok("gain", 1.0f32.to_bits()));
    assert!(NodeKind::Gate.default_params().is_empty());
}

#[test]
fn error_messages() {
    assert_eq!(decimal_string(0), "0");
    assert_eq!(decimal_string(4_294_967_295), "4294967295");
    assert_eq!(GraphError::UnknownNode("x".to_string()).message(), "unknown node `x`");
    assert_eq!(GraphError::DuplicateNode("x".to_string()).message(), "duplicate node id `x`");
    assert_eq!(
        GraphError::UnknownPort { node: "osc".to_string(), port: "nope".to_string() }.message(),
        "unknown port `nope` on node `osc`"
    );
    assert_eq!(
        GraphError::DirectionMismatch {
            from: "osc.out".to_string(),
            from_dir: PortDir::Out,
            to: "gain.out".to_string(),
            to_dir: PortDir::Out,
        }
        .message(),
        "cannot connect Out port `osc.out` to Out port `gain.out`"
    );
    assert_eq!(
        GraphError::ChannelMismatch {
            from: "a.out".to_string(),
            to: "b.in".to_string(),
            from_ch: 2,
            to_ch: 10,
        }
        .message(),
        "channel mismatch 2 → 10 (a.out → b.in)"
    );
    assert_eq!(
        GraphError::UnknownParam { node: "out".to_string(), param: "gain".to_string() }.message(),
        "unknown parameter `gain` on `out`"
    );
    assert_eq!(
        GraphError::ParamRange { node: "osc".to_string(), param: "freq".to_string() }.message(),
        "parameter `freq` out of range on `osc`"
    );
    assert_eq!(GraphError::Cycle("g1".to_string()).message(), "cycle detected involving `g1`");
    assert_eq!(GraphError::NoOutput.message(), "graph has no output node");
    assert_eq!(GraphError::EmptyId.message(), "empty node id");
    assert_eq!(GraphError::Project("bad".to_string()).message(), "invalid project: bad");
    assert_eq!(GraphError::BadSampleRate.message(), "sample rate must be > 0");
}

use moredata::compile::{
    next_generation, CompileOptions, CompiledGraph, Generations, ParamSlot, ParamSnapshot,
    ParamValue,
};
use moredata::error::GraphError;
use moredata::graph::{Graph, NodeId, NodeKind};
use moredata::scheduler::{Plan, Scheduler, MAX_WORKERS};

fn sine_graph() -> Graph {
    let mut g = Graph::new(48_000).unwrap();
    let osc = g.add_node("osc", NodeKind::Oscillator).unwrap();
    let out = g.add_node("out", NodeKind::Output).unwrap();
    g.set_param(osc, "freq", 440.0f32.to_bits()).unwrap();
    g.set_param(osc, "amp", 0.5f32.to_bits()).unwrap();
    g.connect(osc, "out", out, "in").unwrap();
    g
}

fn gate_graph(freq: f32) -> (Graph, NodeId, NodeId, NodeId) {
    let mut g = Graph::new(48_000).unwrap();
    let osc = g.add_node("osc", NodeKind::Oscillator).unwrap();
    let gate = g.add_node("gate", NodeKind::Gate).unwrap();
    let out = g.add_node("out", NodeKind::Output).unwrap();
    g.set_param(osc, "freq", freq.to_bits()).unwrap();
    g.set_param(osc, "amp", 0.5f32.to_bits()).unwrap();
    g.connect(osc, "out", gate, "in").unwrap();
    g.connect(gate, "out", out, "in").unwrap();
    (g, osc, gate, out)
}

fn make_wide_graph() -> Graph {
    let mut g = Graph::new(48_000).unwrap();
    let mut prev = Vec::new();
    for i in 0..4 {
        let id = g.add_node(&format!("osc{i}"), NodeKind::Oscillator).unwrap();
        g.set_param(id, "freq", (220.0 + (i as f32) * 110.0).to_bits()).unwrap();
        g.set_param(id, "amp", 0.1f32.to_bits()).unwrap();
        prev.push(id);
    }
    let mix = g.add_node("mix", NodeKind::Mixer).unwrap();
    let out = g.add_node("out", NodeKind::Output).unwrap();
    for id in prev {
        g.connect(id, "out", mix, "in").unwrap();
    }
    g.connect(mix, "out", out, "in").unwrap();
    g
}

#[test]
fn partitions_are_level_correct() {
    let g = make_wide_graph();
    let mut gens = Generations::new();
    let cg = CompiledGraph::compile(&g, CompileOptions::default(), &mut gens).unwrap();
    let plan = Plan::from_graph(&cg);
    let parts = plan.partitions();
    assert_eq!(parts.len(), 3);
    assert_eq!(parts[0].len(), 4);
    assert_eq!(parts[1].len(), 1);
    assert_eq!(parts[2].len(), 1);
}

#[test]
fn param_snapshot_coalesces_last_write_wins() {
    let mut snap = ParamSnapshot::new(1);
    snap.push(0, 100.0f32.to_bits());
    snap.push(0, 500.0f32.to_bits());
    snap.push(1, 0.5f32.to_bits());
    assert_eq!(snap.values.len(), 2);
    assert_eq!(snap.values[0].value, 500.0f32.to_bits());
}

#[test]
fn stale_generation_rejected_fresh_accepted() {
    let mut gens = Generations::new();
    let (mut g, osc, _gate, _out) = gate_graph(440.0);
    let cg1 = CompiledGraph::compile(&g, CompileOptions::default(), &mut gens).unwrap();
    let gen1 = cg1.generation();
    g.set_param(osc, "freq", 880.0f32.to_bits()).unwrap();
    let mut cg2 = CompiledGraph::compile(&g, CompileOptions::default(), &mut gens).unwrap();
    let gen2 = cg2.generation();
    assert_ne!(gen1, gen2);
    let mut stale = ParamSnapshot::new(gen1);
    stale.push(cg2.param_slot(osc, "freq").unwrap(), 123.0f32.to_bits());
    assert!(!cg2.apply_snapshot(&stale));
    let mut fresh = ParamSnapshot::new(gen2);
    fresh.push(cg2.param_slot(osc, "freq").unwrap(), 123.0f32.to_bits());
    assert!(cg2.apply_snapshot(&fresh));
    drop((cg1, cg2));
}

#[test]
fn applied_snapshot_writes_its_slots() {
    let mut gens = Generations::new();
    let g = sine_graph();
    let osc = g.node_by_name("osc").unwrap().id;
    let mut cg = CompiledGraph::compile(&g, CompileOptions::default(), &mut gens).unwrap();
    let freq = cg.param_slot(osc, "freq").unwrap();
    let amp = cg.param_slot(osc, "amp").unwrap();
    assert_eq!(cg.param_bits(freq), 440.0f32.to_bits());
    assert_eq!(cg.param_bits(amp), 0.5f32.to_bits());
    let mut snap = ParamSnapshot::new(cg.generation());
    snap.push(freq, 660.0f32.to_bits());
    snap.push(99, 1.0f32.to_bits());
    assert!(cg.apply_snapshot(&snap));
    assert_eq!(cg.param_bits(freq), 660.0f32.to_bits());
    assert_eq!(cg.param_bits(amp), 0.5f32.to_bits());
    let stale = ParamSnapshot::new(cg.generation() + 1);
    assert!(!cg.apply_snapshot(&stale));
    assert_eq!(cg.param_bits(freq), 660.0f32.to_bits());
}

#[test]
fn rt_param_update() {
    let mut gens = Generations::new();
    let g = sine_graph();
    let osc = g.node_by_name("osc").unwrap().id;
    let mut cg = CompiledGraph::compile(&g, CompileOptions::default(), &mut gens).unwrap();
    cg.set_param(osc, "amp", 0.0f32.to_bits()).unwrap();
    let amp = cg.param_slot(osc, "amp").unwrap();
    assert_eq!(cg.param_bits(amp), 0.0f32.to_bits());
    let e = cg.set_param(osc, "wet", 0.0f32.to_bits()).unwrap_err();
    assert_eq!(
        e,
        GraphError::UnknownParam { node: "1".to_string(), param: "wet".to_string() }
    );
}

#[test]
fn generations_are_handed_out_in_order() {
    let mut gens = Generations::new();
    assert_eq!(next_generation(&mut gens), 1);
    assert_eq!(next_generation(&mut gens), 2);
    let g = sine_graph();
    let cg = CompiledGraph::compile(&g, CompileOptions::default(), &mut gens).unwrap();
    assert_eq!(cg.generation(), 3);
}

#[test]
fn compile_orders_sources_first() {
    let mut gens = Generations::new();
    let g = sine_graph();
    let cg = CompiledGraph::compile(&g, CompileOptions::default(), &mut gens).unwrap();
    assert_eq!(cg.node_count(), 2);
    assert_eq!(cg.order(), &[0, 1]);
    assert_eq!(cg.output_index(), 1);
    assert_eq!(cg.edges().len(), 1);
    assert_eq!(cg.edges()[0].src, 0);
    assert_eq!(cg.edges()[0].dst, 1);
    assert_eq!(cg.sample_rate, 48_000);
    assert_eq!(cg.max_block, 64);
    assert_eq!(cg.node(0).kind, NodeKind::Oscillator);
    assert!(cg.node(0).freq.is_some());
    assert!(cg.node(1).freq.is_none());
}

#[test]
fn compile_refuses_invalid_graphs() {
    let mut gens = Generations::new();
    let mut g = Graph::new(48_000).unwrap();
    g.add_node("osc", NodeKind::Oscillator).unwrap();
    assert!(matches!(
        CompiledGraph::compile(&g, CompileOptions::default(), &mut gens),
        Err(GraphError::NoOutput)
    ));
}

#[test]
fn block_frames_is_bounded() {
    let mut gens = Generations::new();
    let g = sine_graph();
    let cg = CompiledGraph::compile(&g, CompileOptions::default(), &mut gens).unwrap();
    assert_eq!(cg.block_frames(100, 200), 64);
    assert_eq!(cg.block_frames(32, 200), 32);
    assert_eq!(cg.block_frames(100, 10), 10);
}

#[test]
fn gate_has_a_dispatch_slot() {
    let mut gens = Generations::new();
    let (g, _osc, _gate, _out) = gate_graph(440.0);
    let cg = CompiledGraph::compile(&g, CompileOptions::default(), &mut gens).unwrap();
    assert_eq!(cg.gate_slot(1), Some(0));
    assert_eq!(cg.gate_slot(0), None);
}

#[test]
fn diamond_levels() {
    let mut g = Graph::new(48_000).unwrap();
    let osc = g.add_node("osc", NodeKind::Oscillator).unwrap();
    let g1 = g.add_node("g1", NodeKind::Gain).unwrap();
    let g2 = g.add_node("g2", NodeKind::Gain).unwrap();
    let mix = g.add_node("mix", NodeKind::Mixer).unwrap();
    let out = g.add_node("out", NodeKind::Output).unwrap();
    g.connect(osc, "out", g1, "in").unwrap();
    g.connect(osc, "out", g2, "in").unwrap();
    g.connect(g1, "out", mix, "in").unwrap();
    g.connect(g2, "out", mix, "in").unwrap();
    g.connect(mix, "out", out, "in").unwrap();
    let mut gens = Generations::new();
    let cg = CompiledGraph::compile(&g, CompileOptions::default(), &mut gens).unwrap();
    let parts = cg.parallel_partitions();
    assert_eq!(parts.len(), 4);
    assert_eq!(parts[0], vec![0]);
    let mut middle = parts[1].clone();
    middle.sort();
    assert_eq!(middle, vec![1, 2]);
    assert_eq!(parts[2], vec![3]);
    assert_eq!(parts[3], vec![4]);
}

#[test]
fn scheduler_clamps_worker_count() {
    let mut gens = Generations::new();
    let cg = CompiledGraph::compile(&sine_graph(), CompileOptions::default(), &mut gens).unwrap();
    let s = Scheduler::new(0, Plan::from_graph(&cg));
    assert_eq!(s.workers().len(), 1);
    let s = Scheduler::new(100, Plan::from_graph(&cg));
    assert_eq!(s.workers().len(), MAX_WORKERS);
    let s = Scheduler::new(3, Plan::from_graph(&cg));
    assert_eq!(s.workers().len(), 3);
    for (i, w) in s.workers().iter().enumerate() {
        assert_eq!(w.id(), i);
    }
    assert_eq!(s.plan().partitions().len(), 2);
}

#[test]
fn param_slot_round_trip() {
    let mut s = ParamSlot::new(1.5f32.to_bits());
    assert_eq!(s.load(), 1.5f32.to_bits());
    s.store(2.5f32.to_bits());
    assert_eq!(s.load(), 2.5f32.to_bits());
    let v = ParamValue { slot: 3, value: 7 };
    assert_eq!(v.slot, 3);
}

fn build_diamond(shuffle: bool) -> Graph {
    let mut g = Graph::new(48000).unwrap();
    let osc = g.add_node("osc", NodeKind::Oscillator).unwrap();
    let g1 = g.add_node("g1", NodeKind::Gain).unwrap();
    let g2 = g.add_node("g2", NodeKind::Gain).unwrap();
    let mix = g.add_node("mix", NodeKind::Mixer).unwrap();
    let out = g.add_node("out", NodeKind::Output).unwrap();
    if shuffle {
        g.connect(g2, "out", mix, "in").unwrap();
        g.connect(g1, "out", mix, "in").unwrap();
        g.connect(osc, "out", g2, "in").unwrap();
        g.connect(osc, "out", g1, "in").unwrap();
    } else {
        g.connect(osc, "out", g1, "in").unwrap();
        g.connect(osc, "out", g2, "in").unwrap();
        g.connect(g1, "out", mix, "in").unwrap();
        g.connect(g2, "out", mix, "in").unwrap();
    }
    g.connect(mix, "out", out, "in").unwrap();
    g.validate().unwrap();
    g
}

#[test]
fn partitions_do_not_depend_on_connection_order() {
    let mut gens = Generations::new();
    let a = CompiledGraph::compile(&build_diamond(false), CompileOptions::default(), &mut gens).unwrap();
    let b = CompiledGraph::compile(&build_diamond(true), CompileOptions::default(), &mut gens).unwrap();
    assert_eq!(a.parallel_partitions(), b.parallel_partitions());
    assert_eq!(a.parallel_partitions(), vec![vec![0], vec![1, 2], vec![3], vec![4]]);
}

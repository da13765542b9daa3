use moredata::audio::{fan_out, AudioBackend, CpalBackend};
use moredata::compile::{CompileOptions, CompiledGraph, GateChanges, Generations, ParamSnapshot};
use moredata::event::{Event, EventKind, EventWindow, BLOCK_EVENT_LIMIT};
use moredata::graph::{Graph, NodeId, NodeKind};
use moredata::runtime::Runtime;

fn gate_engine() -> (Runtime, NodeId) {
    let mut g = Graph::new(48_000).unwrap();
    let osc = g.add_node("osc", NodeKind::Oscillator).unwrap();
    let gate = g.add_node("gate", NodeKind::Gate).unwrap();
    let out = g.add_node("out", NodeKind::Output).unwrap();
    g.connect(osc, "out", gate, "in").unwrap();
    g.connect(gate, "out", out, "in").unwrap();
    let mut gens = Generations::new();
    let cg = CompiledGraph::compile(&g, CompileOptions::default(), &mut gens).unwrap();
    (Runtime::new(cg, "test"), gate)
}

#[test]
fn staging_counts_waiting_events() {
    let (mut rt, gate) = gate_engine();
    for k in 0..300u16 {
        rt.push_event(Event { frame: k % 64, node: gate, kind: EventKind::Trigger });
    }
    assert_eq!(rt.events().dropped(), 44);
    assert_eq!(rt.events_pending(), 256);
    let mut buf = [None; BLOCK_EVENT_LIMIT];
    let mut window = EventWindow::new(&mut buf);
    assert_eq!(rt.stage(&mut window), 128);
    assert_eq!(window.len(), 128);
    assert_eq!(rt.events_pending(), 128);
    rt.finish_block(64, 1_000);
    let d = rt.diagnostics();
    assert_eq!(d.blocks, 1);
    assert_eq!(d.frames, 64);
    assert_eq!(d.last_block_ns, 1_000);
    assert_eq!(d.nodes, 3);
    assert_eq!(d.sample_rate, 48_000);
    assert_eq!(d.max_block, 64);
    assert_eq!(d.backend, "test");
}

#[test]
fn counters_accumulate() {
    let (mut rt, _gate) = gate_engine();
    rt.finish_block(64, 10);
    rt.finish_block(32, 20);
    rt.record_xrun();
    let d = rt.diagnostics();
    assert_eq!(d.blocks, 2);
    assert_eq!(d.frames, 96);
    assert_eq!(d.last_block_ns, 20);
    assert_eq!(d.xruns, 1);
}

#[test]
fn engine_params_need_its_generation() {
    let (mut rt, _gate) = gate_engine();
    let gen = rt.graph().generation();
    assert!(!rt.apply_params(&ParamSnapshot::new(gen + 1)));
    assert!(rt.apply_params(&ParamSnapshot::new(gen)));
}

#[test]
fn fan_out_copies_each_sample_to_its_channels() {
    let mut data = [0i32; 8];
    fan_out(&mut data, 2, 2, 1, &[5, 6]);
    assert_eq!(data, [0, 0, 5, 5, 6, 6, 0, 0]);
    let mut data = [9i16; 6];
    fan_out(&mut data, 3, 2, 0, &[1, 2]);
    assert_eq!(data, [1, 1, 9, 2, 2, 9]);
    let mut data = [0.0f32; 3];
    fan_out(&mut data, 2, 2, 0, &[0.5, 0.25]);
    assert_eq!(data, [0.5, 0.5, 0.25]);
    let mut data = [7u8; 2];
    fan_out(&mut data, 1, 0, 0, &[1, 2]);
    assert_eq!(data, [7, 7]);
}

#[test]
fn cpal_status_from_probe() {
    let b = CpalBackend::probed("Alsa".to_string(), Some("default".to_string()), Some(44_100), Some(2));
    assert_eq!(b.name(), "cpal");
    let s = b.status();
    assert_eq!(s.backend, "cpal");
    assert_eq!(s.host, "Alsa");
    assert_eq!(s.default_output.as_deref(), Some("default"));
    assert_eq!(s.sample_rate, Some(44_100));
    assert_eq!(s.channels, Some(2));
    assert!(!s.pipewire);
}

#[test]
fn engine_params_are_written_when_applied() {
    let mut g = Graph::new(48_000).unwrap();
    let osc = g.add_node("osc", NodeKind::Oscillator).unwrap();
    let out = g.add_node("out", NodeKind::Output).unwrap();
    g.connect(osc, "out", out, "in").unwrap();
    let mut gens = Generations::new();
    let cg = CompiledGraph::compile(&g, CompileOptions::default(), &mut gens).unwrap();
    let mut rt = Runtime::new(cg, "test");
    let slot = rt.graph().param_slot(osc, "amp").unwrap();
    let mut snap = ParamSnapshot::new(rt.graph().generation());
    snap.push(slot, 0.7f32.to_bits());
    assert!(rt.apply_params(&snap));
    assert_eq!(rt.graph().param_bits(slot), 0.7f32.to_bits());
}

#[test]
fn gate_table_is_reused_across_blocks() {
    let (mut rt, gate) = gate_engine();
    let mut changes = GateChanges::new();
    let mut buf = [None; BLOCK_EVENT_LIMIT];
    rt.push_event(Event::note_on(3, gate, 60, 90));
    {
        let mut window = EventWindow::new(&mut buf);
        rt.stage(&mut window);
        window.prepare();
        rt.dispatch(64, &mut window, &mut changes);
    }
    assert_eq!(changes.slot(0), &[(3, 90)]);
    rt.push_event(Event::note_off(5, gate, 60));
    {
        let mut window = EventWindow::new(&mut buf);
        rt.stage(&mut window);
        window.prepare();
        rt.dispatch(64, &mut window, &mut changes);
    }
    assert_eq!(changes.slot(0), &[(5, 0)]);
}

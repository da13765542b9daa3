use moredata::compile::{CompileOptions, CompiledGraph, GateChanges, Generations, MAX_GATES};
use moredata::runtime::Runtime;
use moredata::event::{
    sort_by_frame, stage_events, Event, EventKind, EventQueue, EventWindow, BLOCK_EVENT_LIMIT,
};
use moredata::graph::{Graph, NodeId, NodeKind};

fn gate_graph(freq: f32) -> (Graph, NodeId, NodeId, NodeId) {
    let mut g = Graph::new(48_000).unwrap();
    let osc = g.add_node("osc", NodeKind::Oscillator).unwrap();
    let gate = g.add_node("gate", NodeKind::Gate).unwrap();
    let out = g.add_node("out", NodeKind::Output).unwrap();
    g.set_param(osc, "freq", freq.to_bits()).unwrap();
    g.set_param(osc, "amp", 0.5f32.to_bits()).unwrap();
    g.connect(osc, "out", gate, "in").unwrap();
    g.connect(gate, "out", out, "in").unwrap();
    (g, osc, gate, out)
}

fn new_rt(g: &Graph) -> Runtime {
    let mut gens = Generations::new();
    let cg = CompiledGraph::compile(g, CompileOptions::default(), &mut gens).unwrap();
    Runtime::new(cg, "test")
}

/// One block's event handling as the realtime side does it: stage from the
/// queue, sort by frame, dispatch to the gates.
fn run_block(rt: &mut Runtime, frames: usize) -> Vec<Vec<(u16, u8)>> {
    let mut buf = [None; BLOCK_EVENT_LIMIT];
    let mut window = EventWindow::new(&mut buf);
    rt.stage(&mut window);
    window.prepare();
    let mut changes = GateChanges::new();
    rt.dispatch(frames, &mut window, &mut changes);
    (0..MAX_GATES).map(|s| changes.slot(s).to_vec()).collect()
}

#[test]
fn fifo_and_overflow() {
    let mut q: EventQueue<4> = EventQueue::new();
    let n0 = NodeId(0);
    for i in 0..6u16 {
        q.push(Event { frame: i, node: n0, kind: EventKind::Trigger });
    }
    assert_eq!(q.dropped(), 2);
    for i in 0..4u16 {
        assert_eq!(q.pop().map(|e| e.frame), Some(i));
    }
    assert_eq!(q.pop(), None);
}

#[test]
fn stable_sort_by_frame() {
    let mut evs = [
        Event { frame: 3, node: NodeId(1), kind: EventKind::Trigger },
        Event { frame: 1, node: NodeId(1), kind: EventKind::Trigger },
        Event { frame: 1, node: NodeId(2), kind: EventKind::Trigger },
        Event { frame: 0, node: NodeId(1), kind: EventKind::Trigger },
    ];
    sort_by_frame(&mut evs);
    let frames: Vec<u16> = evs.iter().map(|e| e.frame).collect();
    assert_eq!(frames, vec![0, 1, 1, 3]);
    assert_eq!(evs[1].node, NodeId(1));
    assert_eq!(evs[2].node, NodeId(2));
}

#[test]
fn overflow_policy_drops_newest_and_counts() {
    let mut q = EventQueue::<4>::new();
    for i in 0..7u16 {
        q.push(Event { frame: i, node: NodeId(1), kind: EventKind::Trigger });
    }
    assert_eq!(q.dropped(), 3);
    for i in 0..4u16 {
        assert_eq!(q.pop().map(|e| e.frame), Some(i));
    }
}

#[test]
fn event_ordering_is_frame_deterministic() {
    let (g, _osc, gate, _out) = gate_graph(440.0);
    let mut rt = new_rt(&g);
    rt.push_event(Event::note_on(40, gate, 60, 127));
    rt.push_event(Event::note_off(10, gate, 60));
    let changes = run_block(&mut rt, 64);
    assert_eq!(rt.events_pending(), 0);
    assert_eq!(rt.events().dropped(), 0);
    assert_eq!(changes[0], vec![(10, 0), (40, 127)]);
}

#[test]
fn frame_clamped_no_panic() {
    let (g, _osc, gate, _out) = gate_graph(440.0);
    let mut rt = new_rt(&g);
    rt.push_event(Event::note_on(u16::MAX, gate, 60, 127));
    let changes = run_block(&mut rt, 16);
    assert_eq!(rt.events_pending(), 0);
    assert_eq!(changes[0], vec![(15, 127)]);
}

#[test]
fn mandatory_events_survive_bounded_backlog() {
    let (g, _osc, gate, _out) = gate_graph(220.0);
    let mut rt = new_rt(&g);
    for _block in 0..50u32 {
        for k in 0..100u32 {
            rt.push_event(Event {
                frame: (k % 64) as u16,
                node: gate,
                kind: if k % 2 == 0 {
                    EventKind::NoteOn { note: 60, velocity: 127 }
                } else {
                    EventKind::NoteOff { note: 60 }
                },
            });
        }
        run_block(&mut rt, 64);
    }
    assert_eq!(rt.events().dropped(), 0, "no drops below capacity");
}

#[test]
fn staging_takes_at_most_the_limit() {
    let mut q = EventQueue::<256>::new();
    for i in 0..200u16 {
        q.push(Event { frame: i, node: NodeId(1), kind: EventKind::Trigger });
    }
    let mut buf = [None; BLOCK_EVENT_LIMIT];
    let mut window = EventWindow::new(&mut buf);
    assert_eq!(stage_events(&mut q, &mut window, BLOCK_EVENT_LIMIT), 128);
    assert_eq!(window.len(), 128);
    assert_eq!(q.len(), 72);
    assert_eq!(q.pop().map(|e| e.frame), Some(128));
}

#[test]
fn staging_stops_at_a_full_window() {
    let mut q = EventQueue::<8>::new();
    for i in 0..5u16 {
        q.push(Event { frame: i, node: NodeId(1), kind: EventKind::Trigger });
    }
    let mut buf = [None; 2];
    let mut window = EventWindow::new(&mut buf);
    assert_eq!(stage_events(&mut q, &mut window, 10), 2);
    assert_eq!(window.len(), 2);
    assert!(window.is_full());
    assert_eq!(q.len(), 3);
    assert_eq!(q.dropped(), 0);
    assert_eq!(q.pop().map(|e| e.frame), Some(2));
    assert_eq!(window.next_pending().map(|e| e.frame), Some(0));
    assert_eq!(window.next_pending().map(|e| e.frame), Some(1));
    assert_eq!(window.next_pending(), None);
}

#[test]
fn window_prepare_sorts_and_rewinds() {
    let mut buf = [None; 4];
    let mut window = EventWindow::new(&mut buf);
    assert!(window.is_empty());
    assert!(window.push(Event { frame: 9, node: NodeId(1), kind: EventKind::Trigger }));
    assert!(window.push(Event { frame: 2, node: NodeId(1), kind: EventKind::Trigger }));
    assert!(window.push(Event { frame: 2, node: NodeId(3), kind: EventKind::Trigger }));
    window.prepare();
    assert_eq!(window.next_pending().map(|e| (e.frame, e.node)), Some((2, NodeId(1))));
    assert_eq!(window.next_pending().map(|e| (e.frame, e.node)), Some((2, NodeId(3))));
    window.rewind();
    assert_eq!(window.next_pending().map(|e| e.frame), Some(2));
    assert_eq!(window.len(), 3);
    let mut empty = EventWindow::empty();
    assert!(!empty.push(Event::note_off(0, NodeId(1), 1)));
    assert!(empty.is_empty());
}

#[test]
fn gate_changes_follow_the_gate_slots() {
    let (g, _osc, gate, _out) = gate_graph(440.0);
    let mut rt = new_rt(&g);
    rt.push_event(Event::note_on(5, gate, 60, 64));
    rt.push_event(Event::note_on(3, NodeId(1), 60, 100));
    rt.push_event(Event { frame: 7, node: gate, kind: EventKind::Trigger });
    rt.push_event(Event::note_off(20, gate, 60));
    let changes = run_block(&mut rt, 64);
    assert_eq!(changes.len(), MAX_GATES);
    assert_eq!(changes[0], vec![(5, 64), (20, 0)]);
    for s in 1..MAX_GATES {
        assert!(changes[s].is_empty());
    }
    // a trigger reaches a gate but is of a kind no gate uses
    assert_eq!(rt.events().dropped(), 1);
}

#[test]
fn note_constructors() {
    let on = Event::note_on(4, NodeId(2), 61, 90);
    assert_eq!(on.kind, EventKind::NoteOn { note: 61, velocity: 90 });
    let off = Event::note_off(8, NodeId(2), 61);
    assert_eq!(off.frame, 8);
    assert_eq!(off.kind, EventKind::NoteOff { note: 61 });
}

#[test]
fn window_order_matches_sort_by_frame() {
    let evs = [
        Event { frame: 7, node: NodeId(1), kind: EventKind::Trigger },
        Event { frame: 2, node: NodeId(2), kind: EventKind::Trigger },
        Event { frame: 7, node: NodeId(3), kind: EventKind::Trigger },
        Event { frame: 0, node: NodeId(4), kind: EventKind::Trigger },
        Event { frame: 2, node: NodeId(5), kind: EventKind::Trigger },
    ];
    let mut sorted = evs;
    sort_by_frame(&mut sorted);
    let mut buf = [None; 8];
    let mut window = EventWindow::new(&mut buf);
    for e in evs {
        assert!(window.push(e));
    }
    window.prepare();
    for e in sorted {
        assert_eq!(window.next_pending(), Some(e));
    }
    let nodes: Vec<u32> = sorted.iter().map(|e| e.node.0).collect();
    assert_eq!(nodes, vec![4, 2, 5, 1, 3]);
}

#[test]
fn gate_changes_are_capped_per_block() {
    let (g, _osc, gate, _out) = gate_graph(440.0);
    let mut rt = new_rt(&g);
    for k in 0..40u16 {
        rt.push_event(Event::note_on(k, gate, 60, 1));
    }
    let changes = run_block(&mut rt, 32);
    assert_eq!(changes[0].len(), 16);
    assert_eq!(changes[0][15], (15, 1));
    assert!(changes[0].iter().all(|c| c.0 < 32));
    assert_eq!(rt.events().dropped(), 0);
}

#[test]
fn unused_kinds_are_counted_unknown_nodes_are_not() {
    let (g, osc, gate, _out) = gate_graph(440.0);
    let mut rt = new_rt(&g);
    rt.push_event(Event { frame: 0, node: gate, kind: EventKind::Trigger });
    rt.push_event(Event { frame: 1, node: gate, kind: EventKind::CC { controller: 1, value: 2 } });
    rt.push_event(Event { frame: 2, node: NodeId(99), kind: EventKind::Trigger });
    rt.push_event(Event { frame: 3, node: osc, kind: EventKind::PitchBend { value: 5 } });
    let changes = run_block(&mut rt, 64);
    assert!(changes[0].is_empty());
    assert_eq!(rt.events_pending(), 0);
    assert_eq!(rt.events().dropped(), 2);
    assert_eq!(rt.diagnostics().blocks, 0);
}

#[test]
fn window_slots_are_cleared_and_kept() {
    let mut buf = [Some(Event::note_off(9, NodeId(9), 9)); 4];
    {
        let mut window = EventWindow::new(&mut buf);
        assert!(window.is_empty());
        assert_eq!(window.next_pending(), None);
        for k in 0..4u16 {
            assert!(window.push(Event::note_off(3 - k, NodeId(1), 1)));
        }
        assert!(!window.push(Event::note_off(0, NodeId(1), 1)));
        window.prepare();
    }
    let frames: Vec<u16> = buf.iter().map(|e| e.unwrap().frame).collect();
    assert_eq!(frames, vec![0, 1, 2, 3]);
    let mut buf2 = [Some(Event::note_off(9, NodeId(9), 9)); 3];
    {
        let mut window = EventWindow::new(&mut buf2);
        assert!(window.push(Event::note_off(5, NodeId(1), 1)));
        window.prepare();
    }
    assert_eq!(buf2[0].map(|e| e.frame), Some(5));
    assert_eq!(buf2[1], None);
    assert_eq!(buf2[2], None);
}

#[test]
fn pending_run_and_rewind() {
    let mut buf = [None; 3];
    let mut window = EventWindow::new(&mut buf);
    window.push(Event::note_off(1, NodeId(1), 1));
    window.push(Event::note_off(2, NodeId(1), 1));
    assert_eq!(window.next_pending().map(|e| e.frame), Some(1));
    window.rewind();
    window.rewind();
    assert_eq!(window.next_pending().map(|e| e.frame), Some(1));
    assert_eq!(window.next_pending().map(|e| e.frame), Some(2));
    assert_eq!(window.next_pending(), None);
    assert_eq!(window.next_pending(), None);
    assert_eq!(window.len(), 2);
}

#[test]
fn queue_length_follows_history() {
    let mut q = EventQueue::<2>::new();
    let ev = Event::note_off(0, NodeId(1), 1);
    q.push(ev);
    q.push(ev);
    q.push(ev);
    assert_eq!(q.len(), 2);
    assert_eq!(q.dropped(), 1);
    assert!(q.pop().is_some());
    assert_eq!(q.len(), 1);
    q.push(ev);
    assert!(q.pop().is_some());
    assert!(q.pop().is_some());
    assert!(q.pop().is_none());
    assert_eq!(q.len(), 0);
    assert!(q.is_empty());
}

//! The realtime engine's bookkeeping: the compiled graph it plays, its event
//! queue, and the counters it reports. Sample processing itself belongs to
//! the application; this part decides what each block takes from the queue
//! and what the counters say afterwards.
use vstd::prelude::*;
use vstd::string::StringExecFns;

use crate::compile::{
    apply_values, dispatch, unused_count, with_params, CompiledGraph, GateChanges, ParamSnapshot,
};
use crate::event::{stage_events, Event, EventQueue, EventWindow, BLOCK_EVENT_LIMIT};
use crate::report::Diagnostics;

verus! {

/// Capacity of an engine's event queue.
pub const ENGINE_QUEUE: usize = 256;

pub struct Runtime {
    graph: CompiledGraph,
    events: EventQueue<256>,
    blocks: u64,
    frames: u64,
    xruns: u64,
    last_block_ns: u64,
    events_dropped: u64,
    backend: String,
}

/// The counters of an engine, as plain values.
pub ghost struct Counters {
    pub blocks: u64,
    pub frames: u64,
    pub xruns: u64,
    pub last_block_ns: u64,
    pub events_dropped: u64,
}

impl Runtime {
    pub closed spec fn wf(&self) -> bool {
        self.graph.wf() && self.events.wf()
    }

    pub proof fn lemma_wf(&self)
        requires
            self.wf(),
        ensures
            self.spec_graph().wf(),
            self.queue().wf(),
    {
    }

    pub closed spec fn counters(&self) -> Counters {
        Counters {
            blocks: self.blocks,
            frames: self.frames,
            xruns: self.xruns,
            last_block_ns: self.last_block_ns,
            events_dropped: self.events_dropped,
        }
    }

    pub closed spec fn spec_graph(&self) -> CompiledGraph {
        self.graph
    }

    pub closed spec fn queue(&self) -> EventQueue<256> {
        self.events
    }

    pub closed spec fn backend_name(&self) -> Seq<char> {
        self.backend@
    }

    /// An engine for `graph` with an empty event queue and zeroed counters.
    pub fn new(graph: CompiledGraph, backend: &str) -> (r: Self)
        requires
            graph.wf(),
        ensures
            r.wf(),
            r.spec_graph() == graph,
            r.queue().contents() == Seq::<Event>::empty(),
            r.queue().dropped_count() == 0,
            r.counters() == (Counters {
                blocks: 0,
                frames: 0,
                xruns: 0,
                last_block_ns: 0,
                events_dropped: 0,
            }),
            r.backend_name() == backend@,
    {
        Self::with_events(graph, backend, EventQueue::new())
    }

    /// An engine for `graph` that starts with the events of `events`.
    pub fn with_events(graph: CompiledGraph, backend: &str, events: EventQueue<256>) -> (r: Self)
        requires
            graph.wf(),
            events.wf(),
        ensures
            r.wf(),
            r.spec_graph() == graph,
            r.queue() == events,
            r.counters() == (Counters {
                blocks: 0,
                frames: 0,
                xruns: 0,
                last_block_ns: 0,
                events_dropped: 0,
            }),
            r.backend_name() == backend@,
    {
        Runtime {
            graph,
            events,
            blocks: 0,
            frames: 0,
            xruns: 0,
            last_block_ns: 0,
            events_dropped: 0,
            backend: String::from_str(backend),
        }
    }

    pub fn graph(&self) -> (r: &CompiledGraph)
        ensures
            *r == self.spec_graph(),
    {
        &self.graph
    }

    pub fn events(&self) -> (r: &EventQueue<256>)
        ensures
            *r == self.queue(),
    {
        &self.events
    }

    /// Queues an event for the next block (dropped and counted by the queue
    /// when it is full).
    pub fn push_event(&mut self, ev: Event)
        requires
            old(self).wf(),
        ensures
            final(self).wf(),
            final(self).spec_graph() == old(self).spec_graph(),
            final(self).counters() == old(self).counters(),
            final(self).backend_name() == old(self).backend_name(),
            old(self).queue().contents().len() < ENGINE_QUEUE ==> final(self).queue().contents()
                == old(self).queue().contents().push(ev) && final(self).queue().dropped_count() == old(
                self,
            ).queue().dropped_count(),
            old(self).queue().contents().len() >= ENGINE_QUEUE ==> final(self).queue().contents()
                == old(self).queue().contents() && final(self).queue().dropped_count() == old(
                self,
            ).queue().dropped_count().wrapping_add(1),
    {
        self.events.push(ev);
    }

    /// Control-plane entry for parameter patches; applied only when the
    /// snapshot carries this engine's generation.
    pub fn apply_params(&mut self, snap: &ParamSnapshot) -> (r: bool)
        requires
            old(self).wf(),
        ensures
            final(self).wf(),
            r == (snap.generation == old(self).spec_graph()@.generation),
            final(self).counters() == old(self).counters(),
            final(self).queue() == old(self).queue(),
            final(self).backend_name() == old(self).backend_name(),
            !r ==> final(self).spec_graph()@ == old(self).spec_graph()@,
            r ==> final(self).spec_graph()@ == with_params(
                old(self).spec_graph()@,
                apply_values(old(self).spec_graph()@.params, snap.values@),
            ),
    {
        self.graph.apply_snapshot(snap)
    }

    /// Start of a block: moves up to `BLOCK_EVENT_LIMIT` queued events into
    /// the window, oldest first, while it has room (the rest stay queued),
    /// and records how many events are lost or still waiting. Returns how
    /// many events left the queue.
    pub fn stage(&mut self, window: &mut EventWindow) -> (staged: usize)
        requires
            old(self).wf(),
            old(window).wf(),
        ensures
            final(self).wf(),
            final(window).wf(),
            final(self).spec_graph() == old(self).spec_graph(),
            final(self).backend_name() == old(self).backend_name(),
            staged as int == vstd::math::min(
                vstd::math::min(
                    BLOCK_EVENT_LIMIT as int,
                    old(self).queue().contents().len() as int,
                ),
                old(window).capacity() - old(window).events().len(),
            ),
            final(self).queue().contents() == old(self).queue().contents().skip(staged as int),
            final(self).queue().dropped_count() == old(self).queue().dropped_count(),
            final(window).capacity() == old(window).capacity(),
            final(window).cursor() == old(window).cursor(),
            final(window).events() == old(window).events() + old(self).queue().contents().take(
                staged as int,
            ),
            final(self).counters() == (Counters {
                events_dropped: (final(self).queue().dropped_count() as u64).wrapping_add(
                    final(self).queue().contents().len() as u64,
                ),
                ..old(self).counters()
            }),
    {
        let staged = stage_events(&mut self.events, window, BLOCK_EVENT_LIMIT);
        let dropped = self.events.dropped() as u64;
        let waiting = self.events.len() as u64;
        self.events_dropped = dropped.wrapping_add(waiting);
        staged
    }

    /// Dispatch of a block of `frames` frames: the level changes per gate of
    /// the window's pending events go into `out` (see
    /// `CompiledGraph::gate_changes`), then the window is rewound. Events
    /// that reach a gate but are of a kind it does not use are dropped and
    /// counted: the queue's dropped count rises by exactly their number.
    pub fn dispatch(&mut self, frames: usize, window: &mut EventWindow, out: &mut GateChanges)
        requires
            old(self).wf(),
            old(window).wf(),
            old(out).wf(),
        ensures
            final(self).wf(),
            final(window).wf(),
            final(window).events() == old(window).events(),
            final(window).slots() == old(window).slots(),
            final(window).capacity() == old(window).capacity(),
            final(window).cursor() == 0,
            final(out).wf(),
            final(out)@ == dispatch(
                old(self).spec_graph()@.gates,
                old(window).events().skip(old(window).cursor() as int),
                frames,
            ),
            final(self).spec_graph() == old(self).spec_graph(),
            final(self).backend_name() == old(self).backend_name(),
            final(self).queue().contents() == old(self).queue().contents(),
            final(self).queue().dropped_count() == old(self).queue().dropped_count().wrapping_add(
                unused_count(
                    old(self).spec_graph()@.gates,
                    old(window).events().skip(old(window).cursor() as int),
                ) as usize,
            ),
            final(self).counters() == (Counters {
                events_dropped: (final(self).queue().dropped_count() as u64).wrapping_add(
                    final(self).queue().contents().len() as u64,
                ),
                ..old(self).counters()
            }),
    {
        let unused = self.graph.gate_changes(frames, window, out);
        self.events.count_dropped(unused);
        let dropped = self.events.dropped() as u64;
        let waiting = self.events.len() as u64;
        self.events_dropped = dropped.wrapping_add(waiting);
    }

    /// End of a block of `frames` frames that took `ns` nanoseconds.
    pub fn finish_block(&mut self, frames: usize, ns: u64)
        ensures
            final(self).spec_graph() == old(self).spec_graph(),
            final(self).queue() == old(self).queue(),
            final(self).backend_name() == old(self).backend_name(),
            final(self).wf() == old(self).wf(),
            final(self).counters() == (Counters {
                last_block_ns: ns,
                blocks: old(self).counters().blocks.wrapping_add(1),
                frames: old(self).counters().frames.wrapping_add(frames as u64),
                ..old(self).counters()
            }),
    {
        self.last_block_ns = ns;
        self.blocks = self.blocks.wrapping_add(1);
        self.frames = self.frames.wrapping_add(frames as u64);
    }

    pub fn record_xrun(&mut self)
        ensures
            final(self).spec_graph() == old(self).spec_graph(),
            final(self).queue() == old(self).queue(),
            final(self).backend_name() == old(self).backend_name(),
            final(self).wf() == old(self).wf(),
            final(self).counters() == (Counters {
                xruns: old(self).counters().xruns.wrapping_add(1),
                ..old(self).counters()
            }),
    {
        self.xruns = self.xruns.wrapping_add(1);
    }

    /// The engine's counters, its graph's sample rate, block size and node
    /// count, and the backend it plays on.
    pub fn diagnostics(&self) -> (r: Diagnostics)
        requires
            self.wf(),
        ensures
            r.blocks == self.counters().blocks,
            r.frames == self.counters().frames,
            r.xruns == self.counters().xruns,
            r.last_block_ns == self.counters().last_block_ns,
            r.sample_rate == self.spec_graph()@.sample_rate,
            r.max_block == self.spec_graph()@.max_block,
            r.nodes == self.spec_graph()@.nodes.len(),
            r.backend@ == self.backend_name(),
    {
        Diagnostics {
            blocks: self.blocks,
            frames: self.frames,
            xruns: self.xruns,
            last_block_ns: self.last_block_ns,
            sample_rate: self.graph.sample_rate(),
            max_block: self.graph.max_block(),
            nodes: self.graph.node_count(),
            backend: self.backend.clone(),
        }
    }

    /// How many events wait in the queue.
    pub fn events_pending(&self) -> (r: usize)
        requires
            self.wf(),
        ensures
            r == self.queue().contents().len(),
    {
        self.events.len()
    }
}

} // verus!

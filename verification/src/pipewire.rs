//! PipeWire backend as far as this build goes: configuration, status and
//! the control-plane event loop. The stream itself needs libpipewire, which
//! this build does not link, so opening the backend reports it unsupported.
use vstd::prelude::*;
use vstd::string::StringExecFns;

use crate::audio::{AudioBackend, AudioStatus, BackendError};
use crate::event::{Event, EventKind, EventQueue, EventWindow};
use crate::graph::NodeId;

verus! {

#[derive(Debug, Clone)]
pub struct PipeWireConfig {
    pub sample_rate: u32,
    pub channels: u16,
    pub buffer_size: u32,
    pub client_name: String,
    pub auto_connect: bool,
}

impl Default for PipeWireConfig {
    fn default() -> (r: Self)
        ensures
            r.sample_rate == 48000,
            r.channels == 2,
            r.buffer_size == 64,
            r.client_name@ == "MoreData"@,
            r.auto_connect,
    {
        Self {
            sample_rate: 48000,
            channels: 2,
            buffer_size: 64,
            client_name: String::from_str("MoreData"),
            auto_connect: true,
        }
    }
}

/// Why the backend cannot be opened in this build.
pub open spec fn unsupported_reason() -> Seq<char> {
    "PipeWire backend is Linux-only: rebuild with the 'pipewire-system' feature and libpipewire-0.3 dev packages installed"@
}

pub struct PipeWireBackend {
    config: PipeWireConfig,
}

impl PipeWireBackend {
    /// Opening the backend: unsupported in this build, whatever the config.
    pub fn new(config: PipeWireConfig) -> (r: Result<Self, BackendError>)
        ensures
            r matches Err(BackendError::Unsupported(m)) && m@ == unsupported_reason(),
    {
        let _ = config;
        Err(
            BackendError::Unsupported(
                String::from_str(
                    "PipeWire backend is Linux-only: rebuild with the 'pipewire-system' feature and libpipewire-0.3 dev packages installed",
                ),
            ),
        )
    }

    pub closed spec fn spec_config(&self) -> PipeWireConfig {
        self.config
    }

    pub fn config(&self) -> (r: &PipeWireConfig)
        ensures
            *r == self.spec_config(),
    {
        &self.config
    }
}

impl AudioBackend for PipeWireBackend {
    fn name(&self) -> (r: &'static str)
        ensures
            r@ == "pipewire"@,
    {
        "pipewire"
    }

    fn status(&self) -> (r: AudioStatus)
        ensures
            r.backend@ == "pipewire"@,
            r.host@ == "PipeWire"@,
            r.default_output is None,
            r.sample_rate == Some(self.spec_config().sample_rate),
            r.channels == Some(self.spec_config().channels),
            r.pipewire,
    {
        AudioStatus {
            backend: String::from_str("pipewire"),
            host: String::from_str("PipeWire"),
            default_output: None,
            sample_rate: Some(self.config.sample_rate),
            channels: Some(self.config.channels),
            pipewire: true,
        }
    }
}

/// PipeWire notifications, handled on the control plane.
#[derive(Debug, Clone)]
pub enum PipeWireEvent {
    /// Buffer size changed (quantum change)
    BufferSizeChanged { frames: u32 },
    /// Sample rate changed
    SampleRateChanged { rate: u32 },
    /// Device disconnected
    DeviceDisconnected,
    /// Device connected
    DeviceConnected,
    /// Latency changed
    LatencyChanged { nsec: u32 },
    /// Buffer underrun or overrun
    XRun,
}

/// The engine event a PipeWire notification becomes: a trigger for node 0
/// at the start of the block.
pub open spec fn notification_event() -> Event {
    Event { frame: 0, node: NodeId(0), kind: EventKind::Trigger }
}

/// Capacity of the event loop's queue.
pub const PIPEWIRE_QUEUE: usize = 64;

/// Event loop of the control plane. The audio thread never handles these
/// notifications directly.
pub struct PipeWireEventLoop {
    queue: EventQueue<64>,
    running: bool,
}

impl PipeWireEventLoop {
    pub closed spec fn wf(&self) -> bool {
        self.queue.wf()
    }

    pub proof fn lemma_pending_len(&self)
        requires
            self.wf(),
        ensures
            self.pending().len() <= PIPEWIRE_QUEUE,
    {
        self.queue.lemma_len();
    }

    pub closed spec fn pending(&self) -> Seq<Event> {
        self.queue.contents()
    }

    pub closed spec fn dropped(&self) -> usize {
        self.queue.dropped_count()
    }

    pub closed spec fn is_running(&self) -> bool {
        self.running
    }

    pub fn new() -> (r: Self)
        ensures
            r.wf(),
            r.pending() == Seq::<Event>::empty(),
            r.dropped() == 0,
            !r.is_running(),
    {
        Self { queue: EventQueue::new(), running: false }
    }

    pub fn start(&mut self)
        ensures
            final(self).is_running(),
            final(self).pending() == old(self).pending(),
            final(self).dropped() == old(self).dropped(),
            final(self).wf() == old(self).wf(),
    {
        self.running = true;
    }

    pub fn stop(&mut self)
        ensures
            !final(self).is_running(),
            final(self).pending() == old(self).pending(),
            final(self).dropped() == old(self).dropped(),
            final(self).wf() == old(self).wf(),
    {
        self.running = false;
    }

    /// Queues the engine event for a notification (dropped and counted when
    /// the queue is full).
    pub fn push_event(&mut self, event: PipeWireEvent)
        requires
            old(self).wf(),
        ensures
            final(self).wf(),
            final(self).is_running() == old(self).is_running(),
            old(self).pending().len() < PIPEWIRE_QUEUE ==> final(self).pending() == old(
                self,
            ).pending().push(notification_event()) && final(self).dropped() == old(self).dropped(),
            old(self).pending().len() >= PIPEWIRE_QUEUE ==> final(self).pending() == old(
                self,
            ).pending() && final(self).dropped() == old(self).dropped().wrapping_add(1),
    {
        let ev = match event {
            PipeWireEvent::BufferSizeChanged { .. } => Event {
                frame: 0,
                node: NodeId(0),
                kind: EventKind::Trigger,
            },
            PipeWireEvent::SampleRateChanged { .. } => Event {
                frame: 0,
                node: NodeId(0),
                kind: EventKind::Trigger,
            },
            PipeWireEvent::DeviceDisconnected => Event {
                frame: 0,
                node: NodeId(0),
                kind: EventKind::Trigger,
            },
            PipeWireEvent::DeviceConnected => Event {
                frame: 0,
                node: NodeId(0),
                kind: EventKind::Trigger,
            },
            PipeWireEvent::LatencyChanged { .. } => Event {
                frame: 0,
                node: NodeId(0),
                kind: EventKind::Trigger,
            },
            PipeWireEvent::XRun => Event { frame: 0, node: NodeId(0), kind: EventKind::Trigger },
        };
        self.queue.push(ev);
    }

    /// Moves queued events into the window, oldest first, until the queue is
    /// empty or the window is full; events that do not fit stay queued, in
    /// order.
    pub fn drain_to_window(&mut self, window: &mut EventWindow)
        requires
            old(self).wf(),
            old(window).wf(),
        ensures
            final(self).wf(),
            final(window).wf(),
            final(self).is_running() == old(self).is_running(),
            final(self).dropped() == old(self).dropped(),
            final(window).capacity() == old(window).capacity(),
            final(window).cursor() == old(window).cursor(),
            ({
                let q = old(self).pending();
                let k = vstd::math::min(
                    q.len() as int,
                    old(window).capacity() - old(window).events().len(),
                );
                &&& final(window).events() == old(window).events() + q.take(k)
                &&& final(self).pending() == q.skip(k)
            }),
    {
        let ghost q = self.queue.contents();
        let ghost w0 = window.events();
        let ghost room = window.capacity() - w0.len();
        proof {
            window.lemma_wf();
            self.lemma_pending_len();
        }
        let mut staged: usize = 0;
        while !self.queue.is_empty() && !window.is_full()
            invariant
                self.wf(),
                window.wf(),
                self.is_running() == old(self).is_running(),
                self.dropped() == old(self).dropped(),
                window.capacity() == old(window).capacity(),
                window.cursor() == old(window).cursor(),
                room == window.capacity() - w0.len(),
                q.len() <= PIPEWIRE_QUEUE,
                staged <= room,
                staged <= q.len(),
                self.pending() == q.skip(staged as int),
                window.events() == w0 + q.take(staged as int),
            decreases q.len() - staged,
        {
            let ev = self.queue.pop().unwrap();
            window.push(ev);
            proof {
                assert(ev == q[staged as int]);
                assert(q.skip(staged as int).drop_first() =~= q.skip(staged + 1));
                assert(q.take(staged + 1) =~= q.take(staged as int).push(ev));
            }
            staged = staged + 1;
        }
    }
}

impl Default for PipeWireEventLoop {
    fn default() -> (r: Self)
        ensures
            r.wf(),
            r.pending() == Seq::<Event>::empty(),
            r.dropped() == 0,
            !r.is_running(),
    {
        Self::new()
    }
}

} // verus!

//! Deterministic event transport.
//!
//! Events are an ordered stream, unlike parameters (state). Delivery rules:
//!
//! - FIFO from the control plane; within a block, ordered by `frame`
//!   ascending, ties keep arrival order (stable sort).
//! - Fixed-capacity ring. Overflow policy: drop the newest event, count it in
//!   `dropped`. The counter is the error signal; producers never block.
//! - Frame offsets are clamped into the block at dispatch time.
//! - Events target a `NodeId`; unknown or non-consuming nodes ignore them.
use vstd::prelude::*;

use crate::graph::NodeId;

verus! {

#[derive(Debug, Clone, Copy, PartialEq, Eq, Structural)]
#[allow(inconsistent_fields)]
pub enum EventKind {
    NoteOn { note: u8, velocity: u8 },
    NoteOff { note: u8 },
    PitchBend { value: i16 },
    CC { controller: u8, value: u8 },
    Trigger,
    ProgramChange { program: u8 },
}

#[derive(Debug, Clone, Copy, PartialEq, Eq, Structural)]
pub struct Event {
    /// Sample offset within the target block. Clamped on dispatch.
    pub frame: u16,
    pub node: NodeId,
    pub kind: EventKind,
}

impl Event {
    pub fn note_on(frame: u16, node: NodeId, note: u8, velocity: u8) -> (r: Self)
        ensures
            r == (Event { frame, node, kind: EventKind::NoteOn { note, velocity } }),
    {
        Self { frame, node, kind: EventKind::NoteOn { note, velocity } }
    }

    pub fn note_off(frame: u16, node: NodeId, note: u8) -> (r: Self)
        ensures
            r == (Event { frame, node, kind: EventKind::NoteOff { note } }),
    {
        Self { frame, node, kind: EventKind::NoteOff { note } }
    }
}

/// Bounded FIFO of events with capacity `N`. No allocation after
/// construction. When full, a pushed event is dropped and counted.
pub struct EventQueue<const N: usize> {
    buf: Vec<Option<Event>>,
    head: usize,
    len: usize,
    dropped: usize,
}

impl<const N: usize> EventQueue<N> {
    pub closed spec fn wf(&self) -> bool {
        &&& N > 0
        &&& self.buf@.len() == N
        &&& self.head < N
        &&& self.len <= N
        &&& forall|i: int| 0 <= i < self.len ==> #[trigger] self.buf@[ring_slot(self.head as int, i, N as int)] is Some
    }

    closed spec fn slot(&self, i: int) -> int {
        ring_slot(self.head as int, i, N as int)
    }

    /// The queued events, oldest first.
    pub closed spec fn contents(&self) -> Seq<Event> {
        Seq::new(self.len as nat, |i: int| self.buf@[self.slot(i)]->0)
    }

    /// How many pushed events were dropped because the queue was full
    /// (modulo the width of `usize`).
    pub closed spec fn dropped_count(&self) -> usize {
        self.dropped
    }

    pub proof fn lemma_len(&self)
        requires
            self.wf(),
        ensures
            self.contents().len() <= N,
    {
    }

    pub fn new() -> (r: Self)
        requires
            N > 0,
        ensures
            r.wf(),
            r.contents() == Seq::<Event>::empty(),
            r.dropped_count() == 0,
    {
        let mut buf: Vec<Option<Event>> = Vec::new();
        let mut i: usize = 0;
        while i < N
            invariant
                i <= N,
                buf@.len() == i,
            decreases N - i,
        {
            buf.push(None);
            i = i + 1;
        }
        let r = EventQueue { buf, head: 0, len: 0, dropped: 0 };
        assert(r.contents() =~= Seq::<Event>::empty());
        r
    }

    /// Producer side. Never blocks; drops the newest event on overflow.
    pub fn push(&mut self, ev: Event)
        requires
            old(self).wf(),
        ensures
            final(self).wf(),
            old(self).contents().len() < N ==> final(self).contents() == old(self).contents().push(ev)
                && final(self).dropped_count() == old(self).dropped_count(),
            old(self).contents().len() >= N ==> final(self).contents() == old(self).contents()
                && final(self).dropped_count() == old(self).dropped_count().wrapping_add(1),
            queue_step(N as nat, old(self).contents(), QueueStep::Push(ev), final(self).contents()),
    {
        if self.len >= N {
            self.dropped = self.dropped.wrapping_add(1);
            assert(self.contents() =~= old(self).contents());
            return;
        }
        let ghost before = self.contents();
        let ghost old_buf = self.buf@;
        let room = N - self.head;
        let idx = if self.len < room {
            self.head + self.len
        } else {
            self.len - room
        };
        assert(idx == self.slot(self.len as int));
        self.buf.set(idx, Some(ev));
        self.len = self.len + 1;
        proof {
            assert forall|i: int| 0 <= i < self.len - 1 implies self.slot(i) != idx && #[trigger] self.buf@[self.slot(i)]
                == old_buf[self.slot(i)] by {
            }
            assert forall|i: int| 0 <= i < self.len implies #[trigger] self.buf@[ring_slot(self.head as int, i, N as int)] is Some by {
                if i < self.len - 1 {
                    assert(self.buf@[self.slot(i)] == old_buf[self.slot(i)]);
                }
            }
            assert(self.contents() =~= before.push(ev));
        }
    }

    /// Consumer side. Never blocks.
    pub fn pop(&mut self) -> (r: Option<Event>)
        requires
            old(self).wf(),
        ensures
            final(self).wf(),
            final(self).dropped_count() == old(self).dropped_count(),
            old(self).contents().len() == 0 ==> r is None && final(self).contents() == old(
                self,
            ).contents(),
            old(self).contents().len() > 0 ==> r == Some(old(self).contents()[0])
                && final(self).contents() == old(self).contents().drop_first(),
            queue_step(N as nat, old(self).contents(), QueueStep::Pop(r), final(self).contents()),
    {
        if self.len == 0 {
            return None;
        }
        let ghost before = self.contents();
        let h = self.head;
        let ev = self.buf[h];
        proof {
            assert(self.slot(0) == h as int);
            assert(before[0] == ev->0);
        }
        let ghost old_self = *self;
        self.buf.set(h, None);
        self.head = if self.head + 1 < N {
            self.head + 1
        } else {
            0
        };
        self.len = self.len - 1;
        proof {
            assert forall|i: int| 0 <= i < self.len implies self.slot(i) == old_self.slot(i + 1)
                && self.slot(i) != h by {
            }
            assert forall|i: int| 0 <= i < self.len implies #[trigger] self.buf@[ring_slot(self.head as int, i, N as int)] is Some by {
                assert(self.slot(i) == old_self.slot(i + 1));
                assert(old_self.buf@[old_self.slot(i + 1)] is Some);
            }
            assert(self.contents() =~= before.drop_first());
        }
        ev
    }

    /// Counts `n` more events as dropped, such as events that reached their
    /// node but were of a kind it does not use.
    pub fn count_dropped(&mut self, n: usize)
        ensures
            final(self).wf() == old(self).wf(),
            final(self).contents() == old(self).contents(),
            final(self).dropped_count() == old(self).dropped_count().wrapping_add(n),
    {
        self.dropped = self.dropped.wrapping_add(n);
    }

    pub fn dropped(&self) -> (r: usize)
        ensures
            r == self.dropped_count(),
    {
        self.dropped
    }

    pub fn len(&self) -> (r: usize)
        requires
            self.wf(),
        ensures
            r == self.contents().len(),
    {
        self.len
    }

    pub fn is_empty(&self) -> (r: bool)
        requires
            self.wf(),
        ensures
            r == (self.contents().len() == 0),
    {
        self.len == 0
    }
}

/// One operation on a queue, with what a pop returned.
pub ghost enum QueueStep {
    Push(Event),
    Pop(Option<Event>),
}

/// What one operation does to the contents of a queue of capacity `n`: a
/// push is accepted at the back while there is room, a pop takes the front.
pub open spec fn queue_step(n: nat, before: Seq<Event>, step: QueueStep, after: Seq<Event>) -> bool {
    match step {
        QueueStep::Push(ev) => if before.len() < n {
            after == before.push(ev)
        } else {
            after == before
        },
        QueueStep::Pop(r) => if before.len() == 0 {
            r is None && after == before
        } else {
            r == Some(before[0]) && after == before.drop_first()
        },
    }
}

/// How many of the first `k` operations were accepted pushes.
pub open spec fn accepted_pushes(n: nat, qs: Seq<Seq<Event>>, steps: Seq<QueueStep>, k: int) -> nat
    decreases k,
{
    if k <= 0 {
        0
    } else {
        accepted_pushes(n, qs, steps, k - 1) + if steps[k - 1] is Push && qs[k - 1].len() < n {
            1nat
        } else {
            0nat
        }
    }
}

/// How many of the first `k` operations were pops that returned an event.
pub open spec fn taken_pops(steps: Seq<QueueStep>, k: int) -> nat
    decreases k,
{
    if k <= 0 {
        0
    } else {
        taken_pops(steps, k - 1) + if steps[k - 1] matches QueueStep::Pop(Some(_)) {
            1nat
        } else {
            0nat
        }
    }
}

/// Over any history of pushes and pops (contents `qs[j]` before operation
/// `j`), a queue holds what it started with, plus the accepted pushes, minus
/// the pops that returned an event, and never more than its capacity.
pub proof fn lemma_queue_history(n: nat, qs: Seq<Seq<Event>>, steps: Seq<QueueStep>)
    requires
        qs.len() == steps.len() + 1,
        qs[0].len() <= n,
        forall|j: int| 0 <= j < steps.len() ==> queue_step(n, qs[j], #[trigger] steps[j], qs[j + 1]),
    ensures
        forall|k: int|
            0 <= k <= steps.len() ==> (#[trigger] qs[k]).len() + taken_pops(steps, k) == qs[0].len()
                + accepted_pushes(n, qs, steps, k) && qs[k].len() <= n,
{
    assert forall|k: int| 0 <= k <= steps.len() implies (#[trigger] qs[k]).len() + taken_pops(steps, k)
        == qs[0].len() + accepted_pushes(n, qs, steps, k) && qs[k].len() <= n by {
        lemma_queue_history_upto(n, qs, steps, k);
    }
}

proof fn lemma_queue_history_upto(n: nat, qs: Seq<Seq<Event>>, steps: Seq<QueueStep>, k: int)
    requires
        qs.len() == steps.len() + 1,
        qs[0].len() <= n,
        forall|j: int| 0 <= j < steps.len() ==> queue_step(n, qs[j], #[trigger] steps[j], qs[j + 1]),
        0 <= k <= steps.len(),
    ensures
        qs[k].len() + taken_pops(steps, k) == qs[0].len() + accepted_pushes(n, qs, steps, k),
        qs[k].len() <= n,
    decreases k,
{
    if k > 0 {
        lemma_queue_history_upto(n, qs, steps, k - 1);
        assert(queue_step(n, qs[k - 1], steps[k - 1], qs[k]));
    }
}

/// Where the `i`-th queued event sits in a ring of `n` slots whose oldest
/// event sits at `head`.
pub open spec fn ring_slot(head: int, i: int, n: int) -> int {
    if head + i < n {
        head + i
    } else {
        head + i - n
    }
}

/// Frames never decrease along the sequence.
pub open spec fn sorted_by_frame(s: Seq<Event>) -> bool {
    forall|i: int, j: int| 0 <= i < j < s.len() ==> (#[trigger] s[i]).frame <= (#[trigger] s[j]).frame
}

/// The events of `s` that carry frame `f`, in their order in `s`.
pub open spec fn with_frame(s: Seq<Event>, f: u16) -> Seq<Event>
    decreases s.len(),
{
    if s.len() == 0 {
        Seq::empty()
    } else if s.last().frame == f {
        with_frame(s.drop_last(), f).push(s.last())
    } else {
        with_frame(s.drop_last(), f)
    }
}

/// `t` is `s` stably sorted by frame: sorted, and for every frame the events
/// that carry it appear in the same order as in `s`.
pub open spec fn stable_sorted_of(t: Seq<Event>, s: Seq<Event>) -> bool {
    &&& sorted_by_frame(t)
    &&& forall|f: u16| #[trigger] with_frame(t, f) == with_frame(s, f)
}

proof fn lemma_with_frame_add(a: Seq<Event>, b: Seq<Event>, f: u16)
    ensures
        with_frame(a + b, f) == with_frame(a, f) + with_frame(b, f),
    decreases b.len(),
{
    if b.len() == 0 {
        assert(a + b =~= a);
        assert(with_frame(a, f) + with_frame(b, f) =~= with_frame(a, f));
    } else {
        lemma_with_frame_add(a, b.drop_last(), f);
        assert((a + b).drop_last() =~= a + b.drop_last());
        assert((a + b).last() == b.last());
        if b.last().frame == f {
            assert(with_frame(a, f) + with_frame(b, f) =~= (with_frame(a, f) + with_frame(
                b.drop_last(),
                f,
            )).push(b.last()));
        }
    }
}

/// Events that all carry other frames than `f` contribute nothing to `f`.
proof fn lemma_with_frame_none(u: Seq<Event>, f: u16)
    requires
        forall|k: int| 0 <= k < u.len() ==> (#[trigger] u[k]).frame != f,
    ensures
        with_frame(u, f) == Seq::<Event>::empty(),
    decreases u.len(),
{
    if u.len() > 0 {
        assert forall|k: int| 0 <= k < u.drop_last().len() implies (#[trigger] u.drop_last()[k]).frame
            != f by {
            assert(u.drop_last()[k] == u[k]);
        }
        lemma_with_frame_none(u.drop_last(), f);
        assert(u.last() == u[u.len() - 1]);
    }
}

/// A sequence whose first event carries frame `f` starts its `f` events with it.
proof fn lemma_with_frame_first(u: Seq<Event>, f: u16)
    requires
        u.len() > 0,
        u[0].frame == f,
    ensures
        with_frame(u, f).len() > 0,
        with_frame(u, f)[0] == u[0],
{
    let head = u.take(1);
    let rest = u.skip(1);
    assert(u =~= head + rest);
    lemma_with_frame_add(head, rest, f);
    assert(head.drop_last() =~= Seq::<Event>::empty());
    assert(with_frame(head.drop_last(), f) =~= Seq::<Event>::empty());
    assert(head.last() == u[0]);
    assert(with_frame(head, f) == with_frame(head.drop_last(), f).push(u[0]));
    assert(with_frame(head, f) =~= seq![u[0]]);
}

/// In a sequence sorted by frame, the events from position `i` on carry
/// frames at least that of event `i`.
proof fn lemma_sorted_tail(t: Seq<Event>, i: int, f: u16)
    requires
        sorted_by_frame(t),
        0 <= i < t.len(),
        f < t[i].frame,
    ensures
        with_frame(t.skip(i), f) == Seq::<Event>::empty(),
{
    let u = t.skip(i);
    assert forall|k: int| 0 <= k < u.len() implies (#[trigger] u[k]).frame != f by {
        assert(u[k] == t[i + k]);
        if k > 0 {
            assert(t[i].frame <= t[i + k].frame);
        }
    }
    lemma_with_frame_none(u, f);
}

/// Two stable sorts of the same events agree on their first `i` positions.
proof fn lemma_stable_prefix(t1: Seq<Event>, t2: Seq<Event>, s: Seq<Event>, i: int)
    requires
        stable_sorted_of(t1, s),
        stable_sorted_of(t2, s),
        0 <= i <= t1.len(),
        i <= t2.len(),
    ensures
        t1.take(i) == t2.take(i),
    decreases i,
{
    if i > 0 {
        let p = i - 1;
        lemma_stable_prefix(t1, t2, s, p);
        let a = t1[p];
        let b = t2[p];
        let pre = t1.take(p);
        assert(t2.take(p) == pre);
        assert(t1 =~= pre + t1.skip(p));
        assert(t2 =~= pre + t2.skip(p));
        assert(t1.skip(p)[0] == a);
        assert(t2.skip(p)[0] == b);
        assert forall|f: u16| #[trigger] with_frame(t1, f) == with_frame(pre, f) + with_frame(t1.skip(p), f)
            && with_frame(t2, f) == with_frame(pre, f) + with_frame(t2.skip(p), f) by {
            lemma_with_frame_add(pre, t1.skip(p), f);
            lemma_with_frame_add(pre, t2.skip(p), f);
        }
        assert(with_frame(t1, a.frame) == with_frame(s, a.frame));
        assert(with_frame(t2, a.frame) == with_frame(s, a.frame));
        assert(with_frame(t1, b.frame) == with_frame(s, b.frame));
        assert(with_frame(t2, b.frame) == with_frame(s, b.frame));
        lemma_with_frame_first(t1.skip(p), a.frame);
        lemma_with_frame_first(t2.skip(p), b.frame);
        if a.frame < b.frame {
            lemma_sorted_tail(t2, p, a.frame);
            assert(false);
        } else if b.frame < a.frame {
            lemma_sorted_tail(t1, p, b.frame);
            assert(false);
        }
        let c = with_frame(pre, a.frame).len() as int;
        assert(with_frame(t1, a.frame)[c] == a);
        assert(with_frame(t2, a.frame)[c] == b);
        assert(t1.take(i) =~= t2.take(i)) by {
            assert forall|k: int| 0 <= k < i implies t1.take(i)[k] == t2.take(i)[k] by {
                if k < p {
                    assert(t1.take(i)[k] == pre[k]);
                    assert(t2.take(i)[k] == t2.take(p)[k]);
                }
            }
        }
    }
}

/// Event order is determined: any two stable sorts by frame of the same
/// events are the same sequence.
pub proof fn lemma_stable_sort_unique(t1: Seq<Event>, t2: Seq<Event>, s: Seq<Event>)
    requires
        stable_sorted_of(t1, s),
        stable_sorted_of(t2, s),
    ensures
        t1 == t2,
{
    if t1.len() < t2.len() {
        lemma_stable_prefix(t1, t2, s, t1.len() as int);
        let n = t1.len() as int;
        let b = t2[n];
        assert(t1 =~= t2.take(n));
        assert(t2 =~= t2.take(n) + t2.skip(n));
        lemma_with_frame_add(t2.take(n), t2.skip(n), b.frame);
        lemma_with_frame_first(t2.skip(n), b.frame);
        assert(with_frame(t1, b.frame) == with_frame(s, b.frame));
        assert(with_frame(t2, b.frame) == with_frame(s, b.frame));
        assert(false);
    } else if t2.len() < t1.len() {
        lemma_stable_prefix(t2, t1, s, t2.len() as int);
        let n = t2.len() as int;
        let b = t1[n];
        assert(t2 =~= t1.take(n));
        assert(t1 =~= t1.take(n) + t1.skip(n));
        lemma_with_frame_add(t1.take(n), t1.skip(n), b.frame);
        lemma_with_frame_first(t1.skip(n), b.frame);
        assert(with_frame(t1, b.frame) == with_frame(s, b.frame));
        assert(with_frame(t2, b.frame) == with_frame(s, b.frame));
        assert(false);
    } else {
        lemma_stable_prefix(t1, t2, s, t1.len() as int);
        assert(t1 =~= t1.take(t1.len() as int));
        assert(t2 =~= t2.take(t2.len() as int));
    }
}

/// Swapping two neighbours with different frames keeps every frame's events in order.
proof fn lemma_swap_keeps_frames(s: Seq<Event>, p: int)
    requires
        0 <= p,
        p + 1 < s.len(),
        s[p].frame != s[p + 1].frame,
    ensures
        forall|f: u16|
            #[trigger] with_frame(s.update(p, s[p + 1]).update(p + 1, s[p]), f) == with_frame(s, f),
{
    let t = s.update(p, s[p + 1]).update(p + 1, s[p]);
    let a = s.subrange(0, p);
    let b = s.subrange(p + 2, s.len() as int);
    let x = seq![s[p], s[p + 1]];
    let y = seq![s[p + 1], s[p]];
    assert(s =~= a + x + b);
    assert(t =~= a + y + b);
    assert forall|f: u16| #[trigger] with_frame(t, f) == with_frame(s, f) by {
        lemma_with_frame_add(a + x, b, f);
        lemma_with_frame_add(a, x, f);
        lemma_with_frame_add(a + y, b, f);
        lemma_with_frame_add(a, y, f);
        assert(x.drop_last() =~= seq![s[p]]);
        assert(y.drop_last() =~= seq![s[p + 1]]);
        assert(seq![s[p]].drop_last() =~= Seq::<Event>::empty());
        assert(seq![s[p + 1]].drop_last() =~= Seq::<Event>::empty());
        reveal_with_fuel(with_frame, 3);
        assert(with_frame(x, f) =~= with_frame(y, f));
    }
}

/// Stable insertion sort by frame. Allocation-free; the window sizes it runs
/// on are bounded, so quadratic time is fine.
pub fn sort_by_frame(events: &mut [Event])
    ensures
        final(events)@.len() == old(events)@.len(),
        stable_sorted_of(final(events)@, old(events)@),
{
    let ghost orig = events@;
    let n = events.len();
    let mut i: usize = 1;
    if n == 0 {
        return;
    }
    while i < n
        invariant
            n == events@.len(),
            1 <= i <= n,
            forall|f: u16| #[trigger] with_frame(events@, f) == with_frame(orig, f),
            forall|a: int, b: int| 0 <= a < b < i ==> (#[trigger] events@[a]).frame <= (
            #[trigger] events@[b]).frame,
        decreases n - i,
    {
        let key = events[i];
        let mut j: usize = i;
        proof {
            assert(events@.update(j as int, key) =~= events@);
        }
        while j > 0 && events[j - 1].frame > key.frame
            invariant
                n == events@.len(),
                1 <= i < n,
                j <= i,
                // the logical sequence: the window with the key placed at j
                forall|f: u16| #[trigger] with_frame(events@.update(j as int, key), f) == with_frame(orig, f),
                forall|a: int, b: int| 0 <= a < b < j ==> (#[trigger] events@[a]).frame <= (
                #[trigger] events@[b]).frame,
                forall|a: int, b: int| j < a < b <= i ==> (#[trigger] events@[a]).frame <= (
                #[trigger] events@[b]).frame,
                forall|a: int, b: int| 0 <= a < j && j < b <= i ==> (#[trigger] events@[a]).frame <= (
                #[trigger] events@[b]).frame,
                forall|b: int| j < b <= i ==> (#[trigger] events@[b]).frame > key.frame,
            decreases j,
        {
            let ghost before = events@;
            let prev = events[j - 1];
            events[j] = prev;
            proof {
                let l0 = before.update(j as int, key);
                lemma_swap_keeps_frames(l0, j - 1);
                assert(l0.update(j - 1, l0[j as int]).update(j as int, l0[j - 1]) =~= events@.update(
                    j - 1,
                    key,
                ));
            }
            j = j - 1;
        }
        events[j] = key;
        proof {
            assert forall|a: int, b: int| 0 <= a < b < i + 1 implies (#[trigger] events@[a]).frame <= (
            #[trigger] events@[b]).frame by {
                if a < j as int && b == j as int {
                    if j > 0 {
                        assert(events@[j - 1].frame <= key.frame);
                    }
                }
            }
        }
        i = i + 1;
    }
}

/// The first `len` slots of a staging buffer, each holding an event.
pub open spec fn staged(buf: Seq<Option<Event>>, len: int) -> Seq<Event> {
    Seq::new(len as nat, |i: int| buf[i]->0)
}

/// Whether a staged entry must move past an event with frame `key`.
fn later_than(prev: Option<Event>, key: u16) -> (r: bool)
    ensures
        r == (prev matches Some(p) && p.frame > key),
{
    match prev {
        Some(p) => p.frame > key,
        None => false,
    }
}

/// Maximum number of events staged for one block: bounds sort and dispatch work.
pub const BLOCK_EVENT_LIMIT: usize = 128;

/// One call of `next_pending` on a window whose staged events are `evs`,
/// made at cursor `c`: it returns `r` and leaves the cursor at `c2`.
pub open spec fn pending_step(evs: Seq<Event>, c: nat, r: Option<Event>, c2: nat) -> bool {
    if c < evs.len() {
        r == Some(evs[c as int]) && c2 == c + 1
    } else {
        r is None && c2 == c
    }
}

/// A run of `next_pending` calls that starts at cursor `cs[0]` (0 on a new,
/// rewound or dispatched window) hands out the staged events in order from
/// there, then `None` on every further call.
pub proof fn lemma_pending_run(evs: Seq<Event>, cs: Seq<nat>, rs: Seq<Option<Event>>)
    requires
        cs.len() == rs.len() + 1,
        cs[0] <= evs.len(),
        forall|j: int| 0 <= j < rs.len() ==> pending_step(evs, cs[j], #[trigger] rs[j], cs[j + 1]),
    ensures
        forall|j: int|
            0 <= j < rs.len() ==> #[trigger] rs[j] == if cs[0] + j < evs.len() {
                Some(evs[cs[0] + j])
            } else {
                None
            },
        cs.last() == vstd::math::min((cs[0] + rs.len()) as int, evs.len() as int),
    decreases rs.len(),
{
    if rs.len() > 0 {
        let m = rs.len() - 1;
        lemma_pending_run(evs, cs.take(rs.len() as int), rs.take(m));
        assert(pending_step(evs, cs[m], rs[m], cs[m + 1]));
        assert forall|j: int| 0 <= j < rs.len() implies #[trigger] rs[j] == if cs[0] + j < evs.len() {
            Some(evs[cs[0] + j])
        } else {
            None
        } by {
            if j < m {
                assert(rs.take(m)[j] == rs[j]);
            }
        }
    }
}

/// Borrowed, fixed-capacity staging buffer for one block's events. The
/// realtime side drains the queue into the window, sorts by frame (stable),
/// dispatches, then rewinds for the next block. No allocation.
pub struct EventWindow<'a> {
    buf: &'a mut [Option<Event>],
    len: usize,
    cursor: usize,
}

impl<'a> EventWindow<'a> {
    pub closed spec fn wf(&self) -> bool {
        &&& self.len <= self.buf@.len()
        &&& self.cursor <= self.len
        &&& forall|i: int| 0 <= i < self.len ==> (#[trigger] self.buf@[i]) is Some
    }

    /// The staged events, in their current order.
    pub closed spec fn events(&self) -> Seq<Event> {
        staged(self.buf@, self.len as int)
    }

    /// How many events have been handed out since the last rewind.
    pub closed spec fn cursor(&self) -> nat {
        self.cursor as nat
    }

    /// How many events the window can hold.
    pub closed spec fn capacity(&self) -> nat {
        self.buf@.len()
    }

    /// The slots of the borrowed buffer, staged or not.
    pub closed spec fn slots(&self) -> Seq<Option<Event>> {
        self.buf@
    }

    pub fn new(buf: &'a mut [Option<Event>]) -> (r: Self)
        ensures
            r.wf(),
            r.events() == Seq::<Event>::empty(),
            r.cursor() == 0,
            r.capacity() == old(buf)@.len(),
            r.slots() == Seq::new(old(buf)@.len(), |i: int| None::<Event>),
    {
        let n = buf.len();
        let mut i: usize = 0;
        while i < n
            invariant
                n == buf@.len(),
                i <= n,
                forall|j: int| 0 <= j < i ==> (#[trigger] buf@[j]) is None,
            decreases n - i,
        {
            buf[i] = None;
            i = i + 1;
        }
        let r = Self { buf, len: 0, cursor: 0 };
        assert(r.events() =~= Seq::<Event>::empty());
        assert(r.slots() =~= Seq::new(n as nat, |i: int| None::<Event>));
        r
    }

    pub fn push(&mut self, ev: Event) -> (r: bool)
        requires
            old(self).wf(),
        ensures
            final(self).wf(),
            r == (old(self).events().len() < old(self).capacity()),
            final(self).capacity() == old(self).capacity(),
            final(self).cursor() == old(self).cursor(),
            r ==> final(self).events() == old(self).events().push(ev),
            r ==> final(self).slots() == old(self).slots().update(
                old(self).events().len() as int,
                Some(ev),
            ),
            !r ==> final(self).events() == old(self).events(),
            !r ==> final(self).slots() == old(self).slots(),
    {
        if self.len >= self.buf.len() {
            return false;
        }
        let ghost before = self.events();
        let l = self.len;
        self.buf[l] = Some(ev);
        self.len = self.len + 1;
        assert(self.events() =~= before.push(ev));
        true
    }

    /// Sort staged events by frame ascending (stable). Quadratic, with the
    /// number of events bounded by the window's capacity.
    pub fn prepare(&mut self)
        requires
            old(self).wf(),
        ensures
            final(self).wf(),
            final(self).capacity() == old(self).capacity(),
            final(self).cursor() == old(self).cursor(),
            final(self).events().len() == old(self).events().len(),
            stable_sorted_of(final(self).events(), old(self).events()),
            forall|i: int|
                old(self).events().len() <= i < old(self).capacity() ==> #[trigger] final(self).slots()[i]
                    == old(self).slots()[i],
    {
        let ghost orig = self.events();
        let ghost slots0 = self.buf@;
        let n = self.len;
        if n == 0 {
            return;
        }
        let mut i: usize = 1;
        while i < n
            invariant
                self.wf(),
                n == self.len,
                self.capacity() == old(self).capacity(),
                self.cursor() == old(self).cursor(),
                1 <= i <= n,
                self.buf@.len() == slots0.len(),
                forall|a: int| n <= a < slots0.len() ==> #[trigger] self.buf@[a] == slots0[a],
                forall|f: u16| #[trigger] with_frame(self.events(), f) == with_frame(orig, f),
                forall|a: int, b: int| 0 <= a < b < i ==> (#[trigger] self.events()[a]).frame <= (
                #[trigger] self.events()[b]).frame,
            decreases n - i,
        {
            let key = match self.buf[i] {
                Some(k) => k,
                None => {
                    i = i + 1;
                    continue;
                },
            };
            let mut j: usize = i;
            proof {
                assert(staged(self.buf@.update(j as int, Some(key)), n as int) =~= self.events());
                assert forall|a: int, b: int| 0 <= a < b < j implies (#[trigger] self.buf@[a])->0.frame
                    <= (#[trigger] self.buf@[b])->0.frame by {
                    assert(self.events()[a] == self.buf@[a]->0);
                    assert(self.events()[b] == self.buf@[b]->0);
                }
            }
            while j > 0 && later_than(self.buf[j - 1], key.frame)
                invariant
                    n == self.len,
                    n <= self.buf@.len(),
                    self.cursor <= n,
                    self.capacity() == old(self).capacity(),
                    self.cursor() == old(self).cursor(),
                    1 <= i < n,
                    j <= i,
                    self.buf@.len() == slots0.len(),
                    forall|a: int| n <= a < slots0.len() ==> #[trigger] self.buf@[a] == slots0[a],
                    forall|a: int| 0 <= a < n ==> (#[trigger] self.buf@[a]) is Some,
                    forall|f: u16|
                        #[trigger] with_frame(staged(self.buf@.update(j as int, Some(key)), n as int), f)
                            == with_frame(orig, f),
                    forall|a: int, b: int| 0 <= a < b < j ==> (#[trigger] self.buf@[a])->0.frame <= (
                    #[trigger] self.buf@[b])->0.frame,
                    forall|a: int, b: int| j < a < b <= i ==> (#[trigger] self.buf@[a])->0.frame <= (
                    #[trigger] self.buf@[b])->0.frame,
                    forall|a: int, b: int|
                        0 <= a < j && j < b <= i ==> (#[trigger] self.buf@[a])->0.frame <= (
                        #[trigger] self.buf@[b])->0.frame,
                    forall|b: int| j < b <= i ==> (#[trigger] self.buf@[b])->0.frame > key.frame,
                decreases j,
            {
                let ghost before = self.buf@;
                let prev = self.buf[j - 1];
                self.buf[j] = prev;
                proof {
                    let l0 = staged(before.update(j as int, Some(key)), n as int);
                    lemma_swap_keeps_frames(l0, j - 1);
                    assert(l0.update(j - 1, l0[j as int]).update(j as int, l0[j - 1]) =~= staged(
                        self.buf@.update(j - 1, Some(key)),
                        n as int,
                    ));
                }
                j = j - 1;
            }
            self.buf[j] = Some(key);
            proof {
                assert forall|a: int, b: int| 0 <= a < b < i + 1 implies (#[trigger] self.events()[a]).frame
                    <= (#[trigger] self.events()[b]).frame by {
                    if a < j as int && b == j as int {
                        if j > 0 {
                            assert(self.buf@[j - 1]->0.frame <= key.frame);
                        }
                    }
                }
            }
            i = i + 1;
        }
    }

    pub fn next_pending(&mut self) -> (r: Option<Event>)
        requires
            old(self).wf(),
        ensures
            final(self).wf(),
            final(self).events() == old(self).events(),
            final(self).slots() == old(self).slots(),
            final(self).capacity() == old(self).capacity(),
            old(self).cursor() < old(self).events().len() ==> r == Some(
                old(self).events()[old(self).cursor() as int],
            ) && final(self).cursor() == old(self).cursor() + 1,
            old(self).cursor() >= old(self).events().len() ==> r is None && final(self).cursor()
                == old(self).cursor(),
            pending_step(old(self).events(), old(self).cursor(), r, final(self).cursor()),
    {
        if self.cursor >= self.len {
            return None;
        }
        let ev = self.buf[self.cursor];
        self.cursor = self.cursor + 1;
        ev
    }

    pub proof fn lemma_wf(&self)
        requires
            self.wf(),
        ensures
            self.cursor() <= self.events().len() <= self.capacity(),
            self.events().len() <= usize::MAX,
    {
    }

    /// Whether the window holds as many events as it can.
    pub fn is_full(&self) -> (r: bool)
        requires
            self.wf(),
        ensures
            r == (self.events().len() >= self.capacity()),
    {
        self.len >= self.buf.len()
    }

    /// Whether `next_pending` would hand out an event.
    pub fn has_pending(&self) -> (r: bool)
        requires
            self.wf(),
        ensures
            r == (self.cursor() < self.events().len()),
    {
        self.cursor < self.len
    }

    pub fn rewind(&mut self)
        requires
            old(self).wf(),
        ensures
            final(self).wf(),
            final(self).events() == old(self).events(),
            final(self).slots() == old(self).slots(),
            final(self).capacity() == old(self).capacity(),
            final(self).cursor() == 0,
    {
        self.cursor = 0;
    }

    pub fn len(&self) -> (r: usize)
        requires
            self.wf(),
        ensures
            r == self.events().len(),
    {
        self.len
    }

    pub fn is_empty(&self) -> (r: bool)
        requires
            self.wf(),
        ensures
            r == (self.events().len() == 0),
    {
        self.len == 0
    }
}

impl EventWindow<'static> {
    /// A window with no room: every push is refused, nothing is ever pending.
    pub fn empty() -> (r: Self)
        ensures
            r.wf(),
            r.events() == Seq::<Event>::empty(),
            r.cursor() == 0,
            r.capacity() == 0,
    {
        let buf: &'static mut [Option<Event>] = &mut [];
        let r = Self { buf, len: 0, cursor: 0 };
        assert(r.events() =~= Seq::<Event>::empty());
        r
    }
}

/// Moves up to `limit` events from the queue into the window, oldest first,
/// while the window has room. Events that do not fit stay queued, in order.
/// Returns how many events were moved.
pub fn stage_events<const N: usize>(
    queue: &mut EventQueue<N>,
    window: &mut EventWindow,
    limit: usize,
) -> (staged: usize)
    requires
        old(queue).wf(),
        old(window).wf(),
    ensures
        final(queue).wf(),
        final(window).wf(),
        staged as int == vstd::math::min(
            vstd::math::min(limit as int, old(queue).contents().len() as int),
            old(window).capacity() - old(window).events().len(),
        ),
        final(queue).contents() == old(queue).contents().skip(staged as int),
        final(queue).dropped_count() == old(queue).dropped_count(),
        final(window).capacity() == old(window).capacity(),
        final(window).cursor() == old(window).cursor(),
        final(window).events() == old(window).events() + old(queue).contents().take(staged as int),
{
    let ghost q0 = queue.contents();
    let ghost w0 = window.events();
    let ghost room = window.capacity() - w0.len();
    proof {
        window.lemma_wf();
    }
    let mut staged: usize = 0;
    while staged < limit && !queue.is_empty() && !window.is_full()
        invariant
            queue.wf(),
            window.wf(),
            staged <= limit,
            staged <= q0.len(),
            staged <= room,
            queue.contents() == q0.skip(staged as int),
            queue.dropped_count() == old(queue).dropped_count(),
            window.capacity() == old(window).capacity(),
            window.cursor() == old(window).cursor(),
            room == window.capacity() - w0.len(),
            window.events() == w0 + q0.take(staged as int),
        decreases limit - staged,
    {
        let ev = queue.pop().unwrap();
        window.push(ev);
        proof {
            assert(ev == q0[staged as int]);
            assert(q0.take(staged + 1) =~= q0.take(staged as int).push(ev));
            assert(q0.skip(staged as int).drop_first() =~= q0.skip(staged + 1));
        }
        staged = staged + 1;
    }
    staged
}

} // verus!

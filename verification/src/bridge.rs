//! The bidirectional bridge, modelled as two half-duplex legs.
//!
//! Each leg is driven by read events: a chunk of data, end-of-data, or an
//! I/O failure. The leg decides, per event, whether the chunk is forwarded
//! or the leg stops; failures are treated exactly like a clean end-of-data.
//! A leg on the operator-facing side also stops on the escape byte 0x04,
//! without forwarding the chunk that holds it. A session is over as soon as
//! either leg is done, and the first leg to finish cancels the other.

use vstd::prelude::*;

verus! {

/// The escape byte: read from the operator-facing side, it ends the session
/// locally and is never forwarded.
pub const ESCAPE_BYTE: u8 = 4;

/// The capacity of the bounded hand-off queue between a blocking endpoint
/// and its async counterpart: a slow consumer stalls the producer at this
/// many buffered chunks instead of growing memory without bound.
pub const QUEUE_CAPACITY: usize = 64;

/// The read chunk size on the process and network facing sides.
pub const BULK_CHUNK: usize = 4096;

/// The read chunk size on the interactive, keystroke-driven side.
pub const INTERACTIVE_CHUNK: usize = 256;

/// One read observed by a leg.
pub enum ReadEvent {
    /// A chunk of bytes was read.
    Data(Vec<u8>),
    /// The endpoint signalled end-of-data (a zero-byte read).
    Eof,
    /// The read failed.
    Failed,
}

/// What a leg does with one event.
pub enum LegAction {
    /// Forward the chunk just read, then keep going.
    Forward,
    /// Stop this leg; nothing of the event is forwarded.
    Stop,
}

/// Whether a chunk holds the escape byte.
pub open spec fn chunk_has_escape(d: Seq<u8>) -> bool {
    exists|i: int| 0 <= i < d.len() && d[i] == ESCAPE_BYTE
}

/// The bytes an event carries.
pub open spec fn event_data(ev: ReadEvent) -> Seq<u8> {
    match ev {
        ReadEvent::Data(d) => d@,
        ReadEvent::Eof => Seq::<u8>::empty(),
        ReadEvent::Failed => Seq::<u8>::empty(),
    }
}

/// Whether an event stops a leg: end-of-data and failures always do; a
/// chunk does exactly when the leg filters the escape byte and the chunk
/// holds it.
pub open spec fn leg_stops(filter_escape: bool, ev: ReadEvent) -> bool {
    match ev {
        ReadEvent::Data(d) => filter_escape && chunk_has_escape(d@),
        ReadEvent::Eof => true,
        ReadEvent::Failed => true,
    }
}

/// Whether a sequence of events has stopped the leg.
pub open spec fn leg_stopped(filter_escape: bool, evs: Seq<ReadEvent>) -> bool
    decreases evs.len(),
{
    evs.len() > 0 && (leg_stops(filter_escape, evs[0]) || leg_stopped(
        filter_escape,
        evs.skip(1),
    ))
}

/// The bytes a leg forwards for a sequence of events: the chunks in order,
/// up to but not including the first stopping event.
pub open spec fn leg_output(filter_escape: bool, evs: Seq<ReadEvent>) -> Seq<u8>
    decreases evs.len(),
{
    if evs.len() == 0 {
        Seq::<u8>::empty()
    } else if leg_stops(filter_escape, evs[0]) {
        Seq::<u8>::empty()
    } else {
        event_data(evs[0]) + leg_output(filter_escape, evs.skip(1))
    }
}

/// Once stopped, a leg forwards nothing more, whatever events follow.
pub proof fn lemma_leg_output_after_stop(filter_escape: bool, p: Seq<ReadEvent>, q: Seq<ReadEvent>)
    requires
        leg_stopped(filter_escape, p),
    ensures
        leg_output(filter_escape, p + q) == leg_output(filter_escape, p),
        leg_stopped(filter_escape, p + q),
    decreases p.len(),
{
    if leg_stops(filter_escape, p[0]) {
        assert((p + q)[0] == p[0]);
    } else {
        lemma_leg_output_after_stop(filter_escape, p.skip(1), q);
        assert((p + q)[0] == p[0]);
        assert((p + q).skip(1) =~= p.skip(1) + q);
    }
}

/// Appending one event extends the output by that event's chunk, if the leg
/// was still running and the event does not stop it.
pub proof fn lemma_leg_output_push(filter_escape: bool, evs: Seq<ReadEvent>, ev: ReadEvent)
    ensures
        leg_stopped(filter_escape, evs.push(ev)) == (leg_stopped(filter_escape, evs)
            || leg_stops(filter_escape, ev)),
        leg_output(filter_escape, evs.push(ev)) == if leg_stopped(filter_escape, evs) {
            leg_output(filter_escape, evs)
        } else if leg_stops(filter_escape, ev) {
            leg_output(filter_escape, evs)
        } else {
            leg_output(filter_escape, evs) + event_data(ev)
        },
    decreases evs.len(),
{
    if evs.len() == 0 {
        let p = evs.push(ev);
        assert(p[0] == ev);
        assert(p.skip(1) =~= Seq::<ReadEvent>::empty());
        assert(!leg_stopped(filter_escape, p.skip(1)));
        assert(leg_output(filter_escape, p.skip(1)) =~= Seq::<u8>::empty());
        assert(leg_output(filter_escape, evs) =~= Seq::<u8>::empty());
        if !leg_stops(filter_escape, ev) {
            assert(leg_output(filter_escape, p) =~= event_data(ev) + leg_output(
                filter_escape,
                p.skip(1),
            ));
            assert(leg_output(filter_escape, p) =~= event_data(ev));
            assert(leg_output(filter_escape, evs) + event_data(ev) =~= event_data(ev));
        }
    } else {
        assert(evs.push(ev)[0] == evs[0]);
        assert(evs.push(ev).skip(1) =~= evs.skip(1).push(ev));
        lemma_leg_output_push(filter_escape, evs.skip(1), ev);
        assert(event_data(evs[0]) + (leg_output(filter_escape, evs.skip(1)) + event_data(ev))
            =~= (event_data(evs[0]) + leg_output(filter_escape, evs.skip(1))) + event_data(ev));
    }
}

/// Law: a leg that filters the escape byte never forwards it — whatever the
/// events, the forwarded bytes hold no 0x04.
pub proof fn lemma_escape_never_forwarded(evs: Seq<ReadEvent>)
    ensures
        forall|i: int| 0 <= i < leg_output(true, evs).len()
            ==> #[trigger] leg_output(true, evs)[i] != ESCAPE_BYTE,
    decreases evs.len(),
{
    if evs.len() == 0 {
    } else if leg_stops(true, evs[0]) {
    } else {
        lemma_escape_never_forwarded(evs.skip(1));
        let d = event_data(evs[0]);
        assert(!chunk_has_escape(d));
        assert forall|i: int| 0 <= i < leg_output(true, evs).len()
            implies #[trigger] leg_output(true, evs)[i] != ESCAPE_BYTE by {
            if i < d.len() {
                assert(leg_output(true, evs)[i] == d[i]);
            } else {
                assert(leg_output(true, evs)[i] == leg_output(true, evs.skip(1))[i - d.len()]);
            }
        }
    }
}

/// Law: a stopping event at position `k` — the endpoint closed, failed, or
/// sent the escape — stops the leg within the `k + 1` events up to it, and
/// nothing read after it is ever forwarded.
pub proof fn lemma_leg_terminates(filter_escape: bool, evs: Seq<ReadEvent>, k: int)
    requires
        0 <= k < evs.len(),
        leg_stops(filter_escape, evs[k]),
    ensures
        leg_stopped(filter_escape, evs.take(k + 1)),
        leg_output(filter_escape, evs) == leg_output(filter_escape, evs.take(k + 1)),
    decreases k,
{
    if k == 0 {
        assert(evs.take(1)[0] == evs[0]);
    } else {
        assert(evs.skip(1)[k - 1] == evs[k]);
        lemma_leg_terminates(filter_escape, evs.skip(1), k - 1);
        assert(evs.take(k + 1)[0] == evs[0]);
        assert(evs.take(k + 1).skip(1) =~= evs.skip(1).take(k));
    }
    assert(evs.take(k + 1) + evs.skip(k + 1) =~= evs);
    lemma_leg_output_after_stop(filter_escape, evs.take(k + 1), evs.skip(k + 1));
}

/// One half-duplex leg of a bridge.
pub struct BridgeLeg {
    /// Whether this leg reads the operator-facing side and so treats the
    /// escape byte as a local stop.
    pub filter_escape: bool,
    /// Whether the leg has stopped. Stopping is terminal.
    pub done: bool,
}

impl BridgeLeg {
    /// A fresh, running leg.
    pub fn new(filter_escape: bool) -> (leg: BridgeLeg)
        ensures
            leg.filter_escape == filter_escape,
            !leg.done,
    {
        BridgeLeg { filter_escape, done: false }
    }

    /// Feed one read event to the leg. The chunk is forwarded exactly when
    /// the leg was still running and the event does not stop it; a stopped
    /// leg stays stopped and forwards nothing.
    pub fn on_event(&mut self, ev: &ReadEvent) -> (a: LegAction)
        ensures
            final(self).filter_escape == old(self).filter_escape,
            final(self).done == (old(self).done || leg_stops(old(self).filter_escape, *ev)),
            a is Forward <==> (!old(self).done && !leg_stops(old(self).filter_escape, *ev)),
    {
        if self.done {
            return LegAction::Stop;
        }
        match ev {
            ReadEvent::Data(d) => {
                if self.filter_escape && contains_escape(d) {
                    self.done = true;
                    LegAction::Stop
                } else {
                    LegAction::Forward
                }
            },
            ReadEvent::Eof => {
                self.done = true;
                LegAction::Stop
            },
            ReadEvent::Failed => {
                self.done = true;
                LegAction::Stop
            },
        }
    }
}

/// Whether a chunk holds the escape byte.
pub fn contains_escape(d: &Vec<u8>) -> (r: bool)
    ensures
        r == chunk_has_escape(d@),
{
    let mut i: usize = 0;
    while i < d.len()
        invariant
            i <= d@.len(),
            forall|j: int| 0 <= j < i ==> d@[j] != ESCAPE_BYTE,
        decreases d@.len() - i,
    {
        if d[i] == ESCAPE_BYTE {
            return true;
        }
        i += 1;
    }
    false
}

/// Run one leg over a whole sequence of events, collecting what it
/// forwards. The result is exactly the chunks before the first stopping
/// event, in order.
pub fn run_leg(filter_escape: bool, events: &Vec<ReadEvent>) -> (out: Vec<u8>)
    ensures
        out@ == leg_output(filter_escape, events@),
{
    let mut leg = BridgeLeg::new(filter_escape);
    let mut out: Vec<u8> = Vec::new();
    let mut i: usize = 0;
    while i < events.len()
        invariant
            i <= events@.len(),
            leg.filter_escape == filter_escape,
            leg.done == leg_stopped(filter_escape, events@.take(i as int)),
            out@ == leg_output(filter_escape, events@.take(i as int)),
        decreases events@.len() - i,
    {
        let ev = &events[i];
        let ghost prefix = events@.take(i as int);
        let a = leg.on_event(ev);
        match a {
            LegAction::Forward => {
                let ghost out0 = out@;
                if let ReadEvent::Data(data) = ev {
                    let mut j: usize = 0;
                    while j < data.len()
                        invariant
                            j <= data@.len(),
                            out@ == out0 + data@.take(j as int),
                        decreases data@.len() - j,
                    {
                        out.push(data[j]);
                        j += 1;
                        proof {
                            assert(out@ =~= out0 + data@.take(j as int));
                        }
                    }
                    proof {
                        assert(data@.take(data@.len() as int) =~= data@);
                    }
                }
                proof {
                    assert(out@ =~= out0 + event_data(events@[i as int]));
                }
            },
            LegAction::Stop => {},
        }
        i += 1;
        proof {
            assert(events@.take(i as int) =~= prefix.push(events@[i - 1]));
            lemma_leg_output_push(filter_escape, prefix, events@[i - 1]);
            assert(out@ =~= leg_output(filter_escape, events@.take(i as int)));
        }
    }
    proof {
        assert(events@.take(events@.len() as int) =~= events@);
    }
    out
}

/// The session state of one bridge: two legs, each possibly finished. The
/// session is over as soon as either leg finishes, and the first leg to
/// finish is the one that cancels its sibling.
pub struct Bridge {
    /// Whether the first (operator- or process-facing) leg has finished.
    pub a_done: bool,
    /// Whether the second (network-facing) leg has finished.
    pub b_done: bool,
}

impl Bridge {
    /// Whether the session is over: either leg has finished.
    pub open spec fn session_over(&self) -> bool {
        self.a_done || self.b_done
    }

    /// A fresh session with both legs running.
    pub fn new() -> (b: Bridge)
        ensures
            !b.a_done,
            !b.b_done,
    {
        Bridge { a_done: false, b_done: false }
    }

    /// Record that one leg finished. The session is over from here on, and
    /// the sibling leg is cancelled exactly when this was the first leg to
    /// finish — the bridge never outlives a closed half.
    pub fn leg_finished(&mut self, first_leg: bool) -> (cancel_other: bool)
        ensures
            final(self).a_done == (old(self).a_done || first_leg),
            final(self).b_done == (old(self).b_done || !first_leg),
            final(self).session_over(),
            cancel_other == !old(self).session_over(),
    {
        let was_over = self.a_done || self.b_done;
        if first_leg {
            self.a_done = true;
        } else {
            self.b_done = true;
        }
        !was_over
    }
}

} // verus!

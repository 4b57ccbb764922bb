//! The service lifecycle: deriving the identity, publishing the endpoint,
//! announcing reachability, and the accept loop of direct-shell mode.
//!
//! The outside transport performs the publishing and carries the requests;
//! this module holds the decisions: which state follows which publish
//! outcome, when the address is announced, and what is done with each
//! incoming request — spawn a shell session, reject the circuit, or exit.

use vstd::prelude::*;
use vstd::string::StringExecFns;

verus! {

/// The well-known port the shell service listens on, and the one the client
/// dials. The two sides must agree on it.
pub const SHELL_PORT: u16 = 23;

// ---------------------------------------------------------------------------
// Deriving: the service nickname.
// ---------------------------------------------------------------------------

/// The fixed nickname stem of the service.
pub open spec fn nickname_stem() -> Seq<char> {
    seq!['b', 'a', 'c', 'k', 't', 'o', 'r', '-', 's', 'h', 'e', 'l', 'l']
}

/// The nickname of a service: the stem alone for an ephemeral identity, the
/// stem, a dash and the derived address for a keyed one.
pub open spec fn spec_nickname(address: Option<Seq<char>>) -> Seq<char> {
    match address {
        Option::None => nickname_stem(),
        Option::Some(a) => nickname_stem() + seq!['-'] + a,
    }
}

/// The nickname under which the service is published: derived from the
/// address when a seed fixed one, the bare stem otherwise.
pub fn service_nickname(address: Option<&String>) -> (r: String)
    ensures
        r@ == spec_nickname(match address {
            Option::None => Option::<Seq<char>>::None,
            Option::Some(a) => Option::Some(a@),
        }),
{
    let mut s = String::from_str("backtor-shell");
    proof {
        reveal_strlit("backtor-shell");
        assert(s@ =~= nickname_stem());
    }
    match address {
        Option::None => s,
        Option::Some(a) => {
            s.append("-");
            proof {
                reveal_strlit("-");
                assert(s@ =~= nickname_stem() + seq!['-']);
            }
            s.append(a.as_str());
            s
        },
    }
}

// ---------------------------------------------------------------------------
// Publishing: the state machine over publish outcomes.
// ---------------------------------------------------------------------------

/// Where the lifecycle stands.
#[derive(Clone, Copy, PartialEq, Eq, Structural, Debug)]
pub enum LifecycleState {
    /// Deriving the identity: expanding the seed, or settling for an
    /// ephemeral identity from the transport.
    Deriving,
    /// The first publish attempt; `keyed` says whether it runs under a
    /// seed-derived identity.
    Publishing { keyed: bool },
    /// The publish-or-reuse fallback, after the keyed identity turned out
    /// to be registered already.
    PublishingFallback,
    /// The endpoint is published; the service accepts connections.
    Serving,
    /// A fatal publish failure; this service instance is over.
    Aborted,
}

/// What one publish attempt came back with.
#[derive(Clone, Copy, PartialEq, Eq, Structural, Debug)]
pub enum PublishOutcome {
    /// The endpoint was published.
    Launched,
    /// The identity was previously published and is still active.
    AlreadyRegistered,
    /// Any other failure.
    Failed,
}

/// The state following a publish outcome: success serves; "already
/// registered" on the keyed attempt falls back to the publish-or-reuse
/// path, anywhere else it is fatal; any other failure is fatal. States not
/// waiting on a publish are unchanged.
pub open spec fn spec_publish_step(s: LifecycleState, o: PublishOutcome) -> LifecycleState {
    match s {
        LifecycleState::Publishing { keyed } => match o {
            PublishOutcome::Launched => LifecycleState::Serving,
            PublishOutcome::AlreadyRegistered => if keyed {
                LifecycleState::PublishingFallback
            } else {
                LifecycleState::Aborted
            },
            PublishOutcome::Failed => LifecycleState::Aborted,
        },
        LifecycleState::PublishingFallback => match o {
            PublishOutcome::Launched => LifecycleState::Serving,
            PublishOutcome::AlreadyRegistered => LifecycleState::Aborted,
            PublishOutcome::Failed => LifecycleState::Aborted,
        },
        _ => s,
    }
}

/// Take one publish outcome. Only a publish attempt moves the state; a
/// keyed collision retries once through the fallback path, everything else
/// either serves or aborts.
pub fn publish_step(state: LifecycleState, outcome: PublishOutcome) -> (next: LifecycleState)
    ensures
        next == spec_publish_step(state, outcome),
{
    match state {
        LifecycleState::Publishing { keyed } => match outcome {
            PublishOutcome::Launched => LifecycleState::Serving,
            PublishOutcome::AlreadyRegistered => if keyed {
                LifecycleState::PublishingFallback
            } else {
                LifecycleState::Aborted
            },
            PublishOutcome::Failed => LifecycleState::Aborted,
        },
        LifecycleState::PublishingFallback => match outcome {
            PublishOutcome::Launched => LifecycleState::Serving,
            PublishOutcome::AlreadyRegistered => LifecycleState::Aborted,
            PublishOutcome::Failed => LifecycleState::Aborted,
        },
        _ => state,
    }
}

// ---------------------------------------------------------------------------
// Announcing: the address is emitted once, on the first fully-reachable
// status event, and never again.
// ---------------------------------------------------------------------------

/// Watches the reachability status stream and says when to announce.
pub struct Announcer {
    /// Whether the announcement was already made.
    pub announced: bool,
}

impl Announcer {
    /// A fresh announcer that has announced nothing.
    pub fn new() -> (a: Announcer)
        ensures
            !a.announced,
    {
        Announcer { announced: false }
    }

    /// Take one status event. Announce exactly on the first event that
    /// reports the service fully reachable.
    pub fn on_status(&mut self, fully_reachable: bool) -> (announce: bool)
        ensures
            announce == (!old(self).announced && fully_reachable),
            final(self).announced == (old(self).announced || fully_reachable),
    {
        let announce = !self.announced && fully_reachable;
        if fully_reachable {
            self.announced = true;
        }
        announce
    }
}

/// How many times a status stream makes an announcer starting in state
/// `announced` announce.
pub open spec fn announce_count_from(announced: bool, evs: Seq<bool>) -> int
    decreases evs.len(),
{
    if evs.len() == 0 {
        0
    } else {
        (if !announced && evs[0] {
            1int
        } else {
            0int
        }) + announce_count_from(announced || evs[0], evs.skip(1))
    }
}

proof fn lemma_announce_count_done(evs: Seq<bool>)
    ensures
        announce_count_from(true, evs) == 0,
    decreases evs.len(),
{
    if evs.len() > 0 {
        lemma_announce_count_done(evs.skip(1));
    }
}

/// Law: over any status stream, the address is announced at most once, and
/// exactly once when some event reports the service fully reachable.
pub proof fn lemma_announce_exactly_once(evs: Seq<bool>)
    ensures
        announce_count_from(false, evs) == if exists|i: int| 0 <= i < evs.len() && evs[i] {
            1int
        } else {
            0int
        },
    decreases evs.len(),
{
    if evs.len() == 0 {
    } else if evs[0] {
        lemma_announce_count_done(evs.skip(1));
    } else {
        lemma_announce_exactly_once(evs.skip(1));
        if exists|i: int| 0 <= i < evs.skip(1).len() && evs.skip(1)[i] {
            let i = choose|i: int| 0 <= i < evs.skip(1).len() && evs.skip(1)[i];
            assert(evs[i + 1]);
        } else if exists|i: int| 0 <= i < evs.len() && evs[i] {
            let i = choose|i: int| 0 <= i < evs.len() && evs[i];
            assert(evs.skip(1)[i - 1]);
        }
    }
}

// ---------------------------------------------------------------------------
// Serving, direct-shell mode: the accept loop.
// ---------------------------------------------------------------------------

/// What one accepted stream request is for.
#[derive(Clone, Copy, PartialEq, Eq, Structural, Debug)]
pub enum RequestAction {
    /// The request is for the shell port: accept it and spawn one shell
    /// session.
    AcceptShell,
    /// The request is for any other port: reject it and tear the circuit
    /// down.
    RejectTeardown,
}

/// Filter one stream request by its target port: only the well-known shell
/// port is served.
pub fn classify_request(port: u16) -> (a: RequestAction)
    ensures
        (a is AcceptShell) <==> port == SHELL_PORT,
        (a is RejectTeardown) <==> port != SHELL_PORT,
{
    if port == SHELL_PORT {
        RequestAction::AcceptShell
    } else {
        RequestAction::RejectTeardown
    }
}

/// One event the accept loop waits on.
#[derive(Clone, Copy, PartialEq, Eq, Structural, Debug)]
pub enum ServeEvent {
    /// The cancellation handle of the service fired.
    Cancelled,
    /// A stream request arrived, asking for a target port.
    Request { port: u16 },
}

/// What the accept loop does with one event.
#[derive(Clone, Copy, PartialEq, Eq, Structural, Debug)]
pub enum ServeAction {
    /// Accept the request and spawn one independent shell session.
    SpawnShell,
    /// Reject the request and tear its circuit down; the service goes on.
    RejectCircuit,
    /// Leave the accept loop. Sessions already spawned run on.
    Exit,
}

/// The action for one request, by its port.
pub open spec fn spec_request_action(port: u16) -> ServeAction {
    if port == SHELL_PORT {
        ServeAction::SpawnShell
    } else {
        ServeAction::RejectCircuit
    }
}

/// The actions an accept loop takes for a sequence of events: one action
/// per event up to and including the first cancellation, which makes it
/// exit.
pub open spec fn spec_serve_actions(evs: Seq<ServeEvent>) -> Seq<ServeAction>
    decreases evs.len(),
{
    if evs.len() == 0 {
        Seq::<ServeAction>::empty()
    } else {
        match evs[0] {
            ServeEvent::Cancelled => seq![ServeAction::Exit],
            ServeEvent::Request { port } => seq![spec_request_action(port)] + spec_serve_actions(
                evs.skip(1),
            ),
        }
    }
}

/// Whether no event of the sequence is a cancellation.
pub open spec fn cancel_free(evs: Seq<ServeEvent>) -> bool {
    forall|i: int| 0 <= i < evs.len() ==> !((#[trigger] evs[i]) is Cancelled)
}

/// Law: without a cancellation the accept loop never exits, and serves
/// every request — exactly one spawned shell session per request for the
/// shell port, a rejected and torn-down circuit for every other port.
pub proof fn lemma_requests_all_served(evs: Seq<ServeEvent>)
    requires
        cancel_free(evs),
    ensures
        spec_serve_actions(evs).len() == evs.len(),
        forall|i: int| 0 <= i < evs.len()
            ==> ((#[trigger] spec_serve_actions(evs)[i]) is SpawnShell <==> (evs[i] matches
            ServeEvent::Request { port } && port == SHELL_PORT)),
        forall|i: int| 0 <= i < evs.len()
            ==> ((#[trigger] spec_serve_actions(evs)[i]) is RejectCircuit <==> (evs[i] matches
            ServeEvent::Request { port } && port != SHELL_PORT)),
    decreases evs.len(),
{
    if evs.len() > 0 {
        assert(!(evs[0] is Cancelled));
        assert forall|i: int| 0 <= i < evs.skip(1).len() implies !((#[trigger] evs.skip(1)[i])
            is Cancelled) by {
            assert(evs.skip(1)[i] == evs[i + 1]);
        }
        lemma_requests_all_served(evs.skip(1));
        assert forall|i: int| 0 <= i < evs.len() implies ((#[trigger] spec_serve_actions(evs)[i])
            is SpawnShell <==> (evs[i] matches ServeEvent::Request { port } && port == SHELL_PORT))
            by {
            if i > 0 {
                assert(spec_serve_actions(evs)[i] == spec_serve_actions(evs.skip(1))[i - 1]);
                assert(evs.skip(1)[i - 1] == evs[i]);
            }
        }
        assert forall|i: int| 0 <= i < evs.len() implies ((#[trigger] spec_serve_actions(evs)[i])
            is RejectCircuit <==> (evs[i] matches ServeEvent::Request { port } && port
            != SHELL_PORT)) by {
            if i > 0 {
                assert(spec_serve_actions(evs)[i] == spec_serve_actions(evs.skip(1))[i - 1]);
                assert(evs.skip(1)[i - 1] == evs[i]);
            }
        }
    }
}

/// Law: the accept loop exits at the first cancellation — one `Exit`, and
/// nothing at all for later events — while every request before it was
/// served as usual. Sessions spawned before the cancellation are exactly
/// the shell-port requests before it; no action of the loop touches them.
pub proof fn lemma_cancel_stops_loop(evs: Seq<ServeEvent>, k: int)
    requires
        0 <= k < evs.len(),
        evs[k] is Cancelled,
        forall|i: int| 0 <= i < k ==> !((#[trigger] evs[i]) is Cancelled),
    ensures
        spec_serve_actions(evs).len() == k + 1,
        spec_serve_actions(evs)[k] is Exit,
        forall|i: int| 0 <= i < k
            ==> ((#[trigger] spec_serve_actions(evs)[i]) is SpawnShell <==> (evs[i] matches
            ServeEvent::Request { port } && port == SHELL_PORT)),
    decreases evs.len(),
{
    if k == 0 {
    } else {
        assert(!(evs[0] is Cancelled));
        assert(evs.skip(1)[k - 1] == evs[k]);
        assert forall|i: int| 0 <= i < k - 1 implies !((#[trigger] evs.skip(1)[i]) is Cancelled) by {
            assert(evs.skip(1)[i] == evs[i + 1]);
        }
        lemma_cancel_stops_loop(evs.skip(1), k - 1);
        assert forall|i: int| 0 <= i < k implies ((#[trigger] spec_serve_actions(evs)[i])
            is SpawnShell <==> (evs[i] matches ServeEvent::Request { port } && port == SHELL_PORT))
            by {
            if i > 0 {
                assert(spec_serve_actions(evs)[i] == spec_serve_actions(evs.skip(1))[i - 1]);
                assert(evs.skip(1)[i - 1] == evs[i]);
            }
        }
    }
}

/// The accept loop of direct-shell mode.
pub struct AcceptLoop {
    /// Whether the loop has exited. Exiting is terminal.
    pub stopped: bool,
}

impl AcceptLoop {
    /// A fresh, running accept loop.
    pub fn new() -> (l: AcceptLoop)
        ensures
            !l.stopped,
    {
        AcceptLoop { stopped: false }
    }

    /// Take one event. A cancellation exits the loop, terminally; a request
    /// is served by its port. The loop state never records per-session
    /// work: sessions spawned earlier are unaffected by anything here.
    pub fn on_event(&mut self, ev: ServeEvent) -> (a: ServeAction)
        ensures
            final(self).stopped == (old(self).stopped || ev is Cancelled),
            old(self).stopped ==> a is Exit,
            !old(self).stopped ==> match ev {
                ServeEvent::Cancelled => a is Exit,
                ServeEvent::Request { port } => a == spec_request_action(port),
            },
    {
        if self.stopped {
            return ServeAction::Exit;
        }
        match ev {
            ServeEvent::Cancelled => {
                self.stopped = true;
                ServeAction::Exit
            },
            ServeEvent::Request { port } => match classify_request(port) {
                RequestAction::AcceptShell => ServeAction::SpawnShell,
                RequestAction::RejectTeardown => ServeAction::RejectCircuit,
            },
        }
    }
}

/// Run the accept loop over a whole sequence of events, collecting its
/// actions: one per event up to and including the first cancellation.
pub fn run_accept_loop(events: &Vec<ServeEvent>) -> (actions: Vec<ServeAction>)
    ensures
        actions@ == spec_serve_actions(events@),
{
    let mut l = AcceptLoop::new();
    let mut actions: Vec<ServeAction> = Vec::new();
    let mut i: usize = 0;
    while i < events.len()
        invariant
            i <= events@.len(),
            !l.stopped,
            cancel_free(events@.take(i as int)),
            actions@ == spec_serve_actions(events@.take(i as int)),
        decreases events@.len() - i,
    {
        let ev = events[i];
        let a = l.on_event(ev);
        actions.push(a);
        let stopped = l.stopped;
        i += 1;
        proof {
            lemma_serve_actions_push(events@.take(i - 1), events@[i - 1]);
            assert(events@.take(i as int) =~= events@.take(i - 1).push(events@[i - 1]));
        }
        if stopped {
            proof {
                assert(events@.take(i as int)[i - 1] is Cancelled);
                assert(!cancel_free(events@.take(i as int)));
                assert(events@.take(i as int) + events@.skip(i as int) =~= events@);
                lemma_serve_actions_after_cancel(events@.take(i as int), events@.skip(i as int));
            }
            return actions;
        }
    }
    proof {
        assert(events@.take(events@.len() as int) =~= events@);
    }
    actions
}

/// The one action an event draws from a running accept loop.
pub open spec fn serve_action_of(ev: ServeEvent) -> ServeAction {
    match ev {
        ServeEvent::Cancelled => ServeAction::Exit,
        ServeEvent::Request { port } => spec_request_action(port),
    }
}

/// Appending one event to a cancel-free prefix appends its one action.
proof fn lemma_serve_actions_push(evs: Seq<ServeEvent>, ev: ServeEvent)
    requires
        cancel_free(evs),
    ensures
        spec_serve_actions(evs.push(ev)) == spec_serve_actions(evs).push(serve_action_of(ev)),
        !(ev is Cancelled) ==> cancel_free(evs.push(ev)),
    decreases evs.len(),
{
    if evs.len() == 0 {
        let p = evs.push(ev);
        assert(p[0] == ev);
        assert(p.skip(1) =~= Seq::<ServeEvent>::empty());
        assert(spec_serve_actions(p.skip(1)) =~= Seq::<ServeAction>::empty());
        assert(spec_serve_actions(evs) =~= Seq::<ServeAction>::empty());
        match ev {
            ServeEvent::Cancelled => {
                assert(spec_serve_actions(p) =~= spec_serve_actions(evs).push(
                    serve_action_of(ev),
                ));
            },
            ServeEvent::Request { port } => {
                assert(spec_serve_actions(p) =~= seq![spec_request_action(port)]
                    + Seq::<ServeAction>::empty());
                assert(spec_serve_actions(p) =~= spec_serve_actions(evs).push(
                    serve_action_of(ev),
                ));
            },
        }
    } else {
        assert(evs.push(ev)[0] == evs[0]);
        assert(evs.push(ev).skip(1) =~= evs.skip(1).push(ev));
        assert(!(evs[0] is Cancelled));
        assert forall|i: int| 0 <= i < evs.skip(1).len() implies !((#[trigger] evs.skip(1)[i])
            is Cancelled) by {
            assert(evs.skip(1)[i] == evs[i + 1]);
        }
        lemma_serve_actions_push(evs.skip(1), ev);
        match evs[0] {
            ServeEvent::Cancelled => {},
            ServeEvent::Request { port } => {
                assert(seq![spec_request_action(port)] + spec_serve_actions(evs.skip(1)).push(
                    serve_action_of(ev),
                ) =~= (seq![spec_request_action(port)] + spec_serve_actions(evs.skip(1))).push(
                    serve_action_of(ev),
                ));
            },
        }
    }
    if !(ev is Cancelled) && cancel_free(evs) {
        assert forall|i: int| 0 <= i < evs.push(ev).len() implies !((#[trigger] evs.push(ev)[i])
            is Cancelled) by {
            if i < evs.len() {
                assert(evs.push(ev)[i] == evs[i]);
            } else {
                assert(evs.push(ev)[i] == ev);
            }
        }
    }
}

/// Once a prefix holds a cancellation, later events add no actions.
proof fn lemma_serve_actions_after_cancel(p: Seq<ServeEvent>, q: Seq<ServeEvent>)
    requires
        !cancel_free(p),
    ensures
        spec_serve_actions(p + q) == spec_serve_actions(p),
    decreases p.len(),
{
    assert(p.len() > 0);
    assert((p + q)[0] == p[0]);
    match p[0] {
        ServeEvent::Cancelled => {},
        ServeEvent::Request { port } => {
            let i = choose|i: int| 0 <= i < p.len() && (#[trigger] p[i]) is Cancelled;
            assert(p.skip(1)[i - 1] == p[i]);
            assert(!cancel_free(p.skip(1)));
            lemma_serve_actions_after_cancel(p.skip(1), q);
            assert((p + q).skip(1) =~= p.skip(1) + q);
        },
    }
}

} // verus!

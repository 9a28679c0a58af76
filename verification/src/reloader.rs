//! The reloader: a debouncing state machine that turns change events into
//! builds and reload notifications. The driver polls the event channel as
//! [`Reloader::wait_kind`] says, hands the outcome to [`Reloader::on_poll`]
//! and carries out the returned [`Action`].

use vstd::prelude::*;

verus! {

/// A change that asks for the pages to be reloaded.
#[derive(Clone, Copy, PartialEq, Eq, Structural)]
pub enum ReloadEvent {
    /// Output files changed: reload.
    Reload,
    /// Source files changed: build, then reload.
    BuildAndReload,
}

/// Where the reloader stands.
#[derive(Clone, Copy, PartialEq, Eq, Structural)]
pub enum State {
    /// Waiting for an event.
    Idle,
    /// A reload is due once no more events come in for a while.
    ReloadScheduled,
    /// The quiet period has passed: build or reload now unless events are
    /// pending.
    ReloadScheduleReached,
}

/// How the driver waits for the next event.
#[derive(Clone, Copy, PartialEq, Eq, Structural)]
pub enum Wait {
    /// Block until an event arrives or the channel closes.
    Blocking,
    /// Take an event if one is pending, without waiting.
    NonBlocking,
}

/// What polling the event channel gave.
#[derive(Clone, Copy, PartialEq, Eq, Structural)]
pub enum Poll {
    /// An event arrived.
    Received(ReloadEvent),
    /// All senders are gone.
    Disconnected,
    /// No event was pending.
    Empty,
}

/// What the driver does next.
#[derive(Clone, Copy, PartialEq, Eq, Structural)]
pub enum Action {
    /// Poll again.
    Continue,
    /// Wait the quiet period (200 ms), then poll again.
    Sleep,
    /// Run the build command and report with [`Reloader::on_build_finished`].
    Build,
    /// Tell every connected client to reload, then poll again.
    Notify,
    /// Stop the reloader.
    Stop,
}

/// Length of the quiet period in milliseconds.
pub const QUIET_PERIOD_MS: u64 = 200;

/// The reloader's state and whether a build is pending.
pub struct Reloader {
    pub state: State,
    pub should_build: bool,
}

/// Effect of polling outcome `poll` in state `(state, should_build)`: the
/// next state, whether a build is still pending, and the action to take.
pub open spec fn poll_step(state: State, should_build: bool, poll: Poll) -> (State, bool, Action) {
    match poll {
        Poll::Received(ReloadEvent::Reload) => (State::ReloadScheduled, should_build, Action::Continue),
        Poll::Received(ReloadEvent::BuildAndReload) => (State::ReloadScheduled, true, Action::Continue),
        Poll::Disconnected => (state, should_build, Action::Stop),
        Poll::Empty => match state {
            State::ReloadScheduled => (State::ReloadScheduleReached, should_build, Action::Sleep),
            State::ReloadScheduleReached => if should_build {
                (State::ReloadScheduleReached, false, Action::Build)
            } else {
                (State::Idle, false, Action::Notify)
            },
            State::Idle => (State::Idle, should_build, Action::Continue),
        },
    }
}

/// State after a build finished: reload if it succeeded, else wait for the
/// next change.
pub open spec fn build_step(succeeded: bool) -> State {
    if succeeded {
        State::ReloadScheduled
    } else {
        State::Idle
    }
}

impl Reloader {
    /// A reloader waiting for its first event, with no build pending.
    pub fn new() -> (r: Self)
        ensures
            r.state == State::Idle,
            !r.should_build,
    {
        Reloader { state: State::Idle, should_build: false }
    }

    /// How to wait for the next event: block while idle, else only look.
    pub fn wait_kind(&self) -> (w: Wait)
        ensures
            w == (if self.state == State::Idle {
                Wait::Blocking
            } else {
                Wait::NonBlocking
            }),
    {
        match self.state {
            State::Idle => Wait::Blocking,
            _ => Wait::NonBlocking,
        }
    }

    /// Takes the outcome of a poll and says what to do next.
    pub fn on_poll(&mut self, poll: Poll) -> (a: Action)
        ensures
            (final(self).state, final(self).should_build, a) == poll_step(
                old(self).state,
                old(self).should_build,
                poll,
            ),
    {
        match poll {
            Poll::Received(ReloadEvent::Reload) => {
                self.state = State::ReloadScheduled;
                Action::Continue
            },
            Poll::Received(ReloadEvent::BuildAndReload) => {
                self.should_build = true;
                self.state = State::ReloadScheduled;
                Action::Continue
            },
            Poll::Disconnected => Action::Stop,
            Poll::Empty => match self.state {
                State::ReloadScheduled => {
                    self.state = State::ReloadScheduleReached;
                    Action::Sleep
                },
                State::ReloadScheduleReached => {
                    if self.should_build {
                        self.should_build = false;
                        Action::Build
                    } else {
                        self.state = State::Idle;
                        Action::Notify
                    }
                },
                State::Idle => {
                    self.state = State::Idle;
                    Action::Continue
                },
            },
        }
    }

    /// Takes the outcome of the build that [`Action::Build`] asked for.
    pub fn on_build_finished(&mut self, succeeded: bool)
        ensures
            final(self).state == build_step(succeeded),
            final(self).should_build == old(self).should_build,
    {
        self.state = if succeeded {
            State::ReloadScheduled
        } else {
            State::Idle
        };
    }
}


/// Every event (re)starts the quiet period, and a source change leaves a
/// build pending.
pub proof fn lemma_event_schedules_reload(state: State, should_build: bool, event: ReloadEvent)
    ensures
        ({
            let (s, b, a) = poll_step(state, should_build, Poll::Received(event));
            s == State::ReloadScheduled && a == Action::Continue && b == (should_build || event
                == ReloadEvent::BuildAndReload)
        }),
{
}

/// A pending build is only dropped by running it.
pub proof fn lemma_pending_build_kept(state: State, poll: Poll)
    ensures
        ({
            let (s, b, a) = poll_step(state, true, poll);
            a != Action::Build ==> b
        }),
{
}

/// Clients are only told to reload once the quiet period has passed and no
/// build is pending.
pub proof fn lemma_notify_needs_quiet_and_build(state: State, should_build: bool, poll: Poll)
    ensures
        poll_step(state, should_build, poll).2 == Action::Notify ==> state
            == State::ReloadScheduleReached && !should_build && poll == Poll::Empty,
        poll_step(state, should_build, poll).2 == Action::Build ==> state
            == State::ReloadScheduleReached && should_build && poll == Poll::Empty,
{
}

/// The quiet period is only reached by waiting it out.
pub proof fn lemma_quiet_period_waited(state: State, should_build: bool, poll: Poll)
    ensures
        poll_step(state, should_build, poll).0 == State::ReloadScheduleReached && state
            != State::ReloadScheduleReached ==> poll_step(state, should_build, poll).2
            == Action::Sleep,
{
}

/// A closed channel always stops the reloader.
pub proof fn lemma_disconnect_stops(state: State, should_build: bool)
    ensures
        poll_step(state, should_build, Poll::Disconnected).2 == Action::Stop,
{
}

/// After a change to output files, two quiet polls wait the quiet period
/// and then notify the clients, leaving the reloader idle.
pub proof fn lemma_quiet_reload()
    ensures
        poll_step(State::ReloadScheduled, false, Poll::Empty) == (
            State::ReloadScheduleReached,
            false,
            Action::Sleep,
        ),
        poll_step(State::ReloadScheduleReached, false, Poll::Empty) == (
            State::Idle,
            false,
            Action::Notify,
        ),
{
}

/// After a change to sources, the build runs once the quiet period has
/// passed; a successful build is followed by another quiet period and a
/// reload, a failed one by waiting for the next change.
pub proof fn lemma_build_then_reload()
    ensures
        poll_step(State::ReloadScheduled, true, Poll::Empty) == (
            State::ReloadScheduleReached,
            true,
            Action::Sleep,
        ),
        poll_step(State::ReloadScheduleReached, true, Poll::Empty) == (
            State::ReloadScheduleReached,
            false,
            Action::Build,
        ),
        build_step(true) == State::ReloadScheduled,
        build_step(false) == State::Idle,
        poll_step(build_step(true), false, Poll::Empty).2 == Action::Sleep,
        poll_step(
            poll_step(build_step(true), false, Poll::Empty).0,
            false,
            Poll::Empty,
        ).2 == Action::Notify,
{
}

/// An idle reloader (such as one whose build just failed) neither builds
/// nor reloads until an event arrives.
pub proof fn lemma_idle_waits_for_event(should_build: bool, polls: Seq<Poll>, build_ok: bool)
    requires
        forall|i: int| 0 <= i < polls.len() ==> !(#[trigger] polls[i] is Received),
    ensures
        drive(State::Idle, should_build, polls, build_ok).len() == polls.len(),
        forall|i: int|
            0 <= i < polls.len() ==> #[trigger] drive(State::Idle, should_build, polls, build_ok)[i]
                == Action::Continue || drive(State::Idle, should_build, polls, build_ok)[i]
                == Action::Stop,
    decreases polls.len(),
{
    if polls.len() == 0 {
        reveal(drive);
    } else {
        let rest = polls.drop_first();
        assert forall|i: int| 0 <= i < rest.len() implies !(#[trigger] rest[i] is Received) by {
            assert(rest[i] == polls[i + 1]);
        }
        lemma_idle_waits_for_event(should_build, rest, build_ok);
        lemma_drive_cons(State::Idle, should_build, polls, build_ok);
        let (s, b, a) = drive_step(State::Idle, should_build, polls[0], build_ok);
        assert(s == State::Idle && b == should_build);
        assert(a == Action::Continue || a == Action::Stop);
        let run = drive(State::Idle, should_build, polls, build_ok);
        let tail = drive(State::Idle, should_build, rest, build_ok);
        assert(run == seq![a] + tail);
        assert forall|i: int| 0 <= i < polls.len() implies #[trigger] run[i] == Action::Continue
            || run[i] == Action::Stop by {
            if i > 0 {
                assert(run[i] == tail[i - 1]);
            }
        }
    }
}

/// One step of the reloader together with the build it may ask for: when
/// the step is [`Action::Build`], the build's outcome `build_ok` decides the
/// next state, as [`Reloader::on_build_finished`] does.
pub open spec fn drive_step(state: State, should_build: bool, poll: Poll, build_ok: bool) -> (
    State,
    bool,
    Action,
) {
    let (s, b, a) = poll_step(state, should_build, poll);
    if a == Action::Build {
        (build_step(build_ok), b, a)
    } else {
        (s, b, a)
    }
}

/// Actions taken for a sequence of polls, starting in `(state, should_build)`,
/// when every build that runs ends with outcome `build_ok`.
#[verifier::opaque]
pub open spec fn drive(state: State, should_build: bool, polls: Seq<Poll>, build_ok: bool) -> Seq<
    Action,
>
    decreases polls.len(),
{
    if polls.len() == 0 {
        seq![]
    } else {
        let (s, b, a) = drive_step(state, should_build, polls[0], build_ok);
        seq![a] + drive(s, b, polls.drop_first(), build_ok)
    }
}

/// How many times `action` occurs in `actions`.
#[verifier::opaque]
pub open spec fn count_action(actions: Seq<Action>, action: Action) -> nat
    decreases actions.len(),
{
    if actions.len() == 0 {
        0
    } else {
        (if actions[0] == action {
            1nat
        } else {
            0nat
        }) + count_action(actions.drop_first(), action)
    }
}

/// `n` polls that find no event.
pub open spec fn quiet_polls(n: nat) -> Seq<Poll> {
    Seq::new(n, |i: int| Poll::Empty)
}

/// The polls of a burst of events: each poll gives an event or finds none,
/// the first and the last give events, and every poll that finds none (after
/// which the driver waits the quiet period) is followed by one that gives
/// an event, since the next event arrives before that wait is over.
pub open spec fn is_burst(polls: Seq<Poll>) -> bool {
    &&& polls.len() > 0
    &&& polls[0] is Received
    &&& polls.last() is Received
    &&& forall|i: int| #![trigger polls[i]] 0 <= i < polls.len() ==> polls[i] is Received || polls[i] is Empty
    &&& forall|i: int, j: int|
        #![trigger polls[i], polls[j]]
        0 <= i && j == i + 1 && j < polls.len() && polls[i] is Empty ==> polls[j] is Received
}

/// Whether some poll of `polls` gives a change to sources.
pub open spec fn has_source_change(polls: Seq<Poll>) -> bool {
    exists|i: int| 0 <= i < polls.len() && polls[i] == Poll::Received(ReloadEvent::BuildAndReload)
}

proof fn lemma_count_cons(a: Action, rest: Seq<Action>, action: Action)
    ensures
        count_action(seq![a] + rest, action) == (if a == action {
            1nat
        } else {
            0nat
        }) + count_action(rest, action),
{
    reveal(count_action);
    assert((seq![a] + rest).drop_first() =~= rest);
}

proof fn lemma_drive_cons(state: State, should_build: bool, polls: Seq<Poll>, build_ok: bool)
    requires
        polls.len() > 0,
    ensures
        ({
            let (s, b, a) = drive_step(state, should_build, polls[0], build_ok);
            drive(state, should_build, polls, build_ok) == seq![a] + drive(
                s,
                b,
                polls.drop_first(),
                build_ok,
            )
        }),
{
    reveal(drive);
}

/// Quiet polls of an idle reloader neither build, notify nor stop.
proof fn lemma_idle_quiet(should_build: bool, n: nat, build_ok: bool)
    ensures
        count_action(drive(State::Idle, should_build, quiet_polls(n), build_ok), Action::Build) == 0,
        count_action(drive(State::Idle, should_build, quiet_polls(n), build_ok), Action::Notify) == 0,
        count_action(drive(State::Idle, should_build, quiet_polls(n), build_ok), Action::Stop) == 0,
    decreases n,
{
    if n > 0 {
        let q = quiet_polls(n);
        assert(q.drop_first() =~= quiet_polls((n - 1) as nat));
        lemma_drive_cons(State::Idle, should_build, q, build_ok);
        lemma_idle_quiet(should_build, (n - 1) as nat, build_ok);
        let rest = drive(State::Idle, should_build, quiet_polls((n - 1) as nat), build_ok);
        lemma_count_cons(Action::Continue, rest, Action::Build);
        lemma_count_cons(Action::Continue, rest, Action::Notify);
        lemma_count_cons(Action::Continue, rest, Action::Stop);
    } else {
        reveal(drive);
        reveal(count_action);
    }
}

/// After the last event of a burst, at least four quiet polls build once if
/// a build is pending, and notify once unless that build failed.
proof fn lemma_quiet_tail(should_build: bool, k: nat, build_ok: bool)
    requires
        k >= 4,
    ensures
        ({
            let actions = drive(State::ReloadScheduled, should_build, quiet_polls(k), build_ok);
            &&& count_action(actions, Action::Build) == (if should_build {
                1nat
            } else {
                0nat
            })
            &&& count_action(actions, Action::Notify) == (if should_build && !build_ok {
                0nat
            } else {
                1nat
            })
            &&& count_action(actions, Action::Stop) == 0
        }),
{
    let q0 = quiet_polls(k);
    let q1 = quiet_polls((k - 1) as nat);
    let q2 = quiet_polls((k - 2) as nat);
    let q3 = quiet_polls((k - 3) as nat);
    let q4 = quiet_polls((k - 4) as nat);
    assert(q0.drop_first() =~= q1);
    assert(q1.drop_first() =~= q2);
    assert(q2.drop_first() =~= q3);
    assert(q3.drop_first() =~= q4);
    let sched = State::ReloadScheduled;
    let reached = State::ReloadScheduleReached;
    lemma_drive_cons(sched, should_build, q0, build_ok);
    lemma_drive_cons(reached, should_build, q1, build_ok);
    if should_build {
        let after = build_step(build_ok);
        lemma_drive_cons(after, false, q2, build_ok);
        if build_ok {
            lemma_drive_cons(reached, false, q3, build_ok);
            lemma_idle_quiet(false, (k - 4) as nat, build_ok);
            let t4 = drive(State::Idle, false, q4, build_ok);
            let t3 = seq![Action::Notify] + t4;
            let t2 = seq![Action::Sleep] + t3;
            let t1 = seq![Action::Build] + t2;
            let t0 = seq![Action::Sleep] + t1;
            assert(drive(sched, should_build, q0, build_ok) == t0);
            lemma_count_cons(Action::Notify, t4, Action::Build);
            lemma_count_cons(Action::Notify, t4, Action::Notify);
            lemma_count_cons(Action::Notify, t4, Action::Stop);
            lemma_count_cons(Action::Sleep, t3, Action::Build);
            lemma_count_cons(Action::Sleep, t3, Action::Notify);
            lemma_count_cons(Action::Sleep, t3, Action::Stop);
            lemma_count_cons(Action::Build, t2, Action::Build);
            lemma_count_cons(Action::Build, t2, Action::Notify);
            lemma_count_cons(Action::Build, t2, Action::Stop);
            lemma_count_cons(Action::Sleep, t1, Action::Build);
            lemma_count_cons(Action::Sleep, t1, Action::Notify);
            lemma_count_cons(Action::Sleep, t1, Action::Stop);
        } else {
            lemma_idle_quiet(false, (k - 3) as nat, build_ok);
            let t3 = drive(State::Idle, false, q3, build_ok);
            let t2 = seq![Action::Continue] + t3;
            let t1 = seq![Action::Build] + t2;
            let t0 = seq![Action::Sleep] + t1;
            assert(drive(sched, should_build, q0, build_ok) == t0);
            lemma_count_cons(Action::Continue, t3, Action::Build);
            lemma_count_cons(Action::Continue, t3, Action::Notify);
            lemma_count_cons(Action::Continue, t3, Action::Stop);
            lemma_count_cons(Action::Build, t2, Action::Build);
            lemma_count_cons(Action::Build, t2, Action::Notify);
            lemma_count_cons(Action::Build, t2, Action::Stop);
            lemma_count_cons(Action::Sleep, t1, Action::Build);
            lemma_count_cons(Action::Sleep, t1, Action::Notify);
            lemma_count_cons(Action::Sleep, t1, Action::Stop);
        }
    } else {
        lemma_idle_quiet(false, (k - 2) as nat, build_ok);
        let t2 = drive(State::Idle, false, q2, build_ok);
        let t1 = seq![Action::Notify] + t2;
        let t0 = seq![Action::Sleep] + t1;
        assert(drive(sched, should_build, q0, build_ok) == t0);
        lemma_count_cons(Action::Notify, t2, Action::Build);
        lemma_count_cons(Action::Notify, t2, Action::Notify);
        lemma_count_cons(Action::Notify, t2, Action::Stop);
        lemma_count_cons(Action::Sleep, t1, Action::Build);
        lemma_count_cons(Action::Sleep, t1, Action::Notify);
        lemma_count_cons(Action::Sleep, t1, Action::Stop);
    }
}

/// The rest of a burst, then at least four quiet polls: the pending build
/// (if any, or if the rest brings a source change) runs once, and the
/// clients are notified once unless that build failed.
proof fn lemma_burst_rest(state: State, should_build: bool, p: Seq<Poll>, k: nat, build_ok: bool)
    requires
        k >= 4,
        p.len() == 0 ==> state == State::ReloadScheduled,
        p.len() > 0 ==> p.last() is Received,
        p.len() > 0 && p[0] is Empty ==> state == State::ReloadScheduled,
        forall|i: int| #![trigger p[i]] 0 <= i < p.len() ==> p[i] is Received || p[i] is Empty,
        forall|i: int, j: int|
            #![trigger p[i], p[j]]
            0 <= i && j == i + 1 && j < p.len() && p[i] is Empty ==> p[j] is Received,
    ensures
        ({
            let actions = drive(state, should_build, p + quiet_polls(k), build_ok);
            let builds = should_build || has_source_change(p);
            &&& count_action(actions, Action::Build) == (if builds {
                1nat
            } else {
                0nat
            })
            &&& count_action(actions, Action::Notify) == (if builds && !build_ok {
                0nat
            } else {
                1nat
            })
            &&& count_action(actions, Action::Stop) == 0
        }),
    decreases p.len(),
{
    if p.len() == 0 {
        assert(p + quiet_polls(k) =~= quiet_polls(k));
        assert(!has_source_change(p));
        lemma_quiet_tail(should_build, k, build_ok);
    } else {
        let all = p + quiet_polls(k);
        let rest = p.drop_first();
        assert(all.drop_first() =~= rest + quiet_polls(k));
        assert(all[0] == p[0]);
        lemma_drive_cons(state, should_build, all, build_ok);
        let (s, b, a) = drive_step(state, should_build, p[0], build_ok);
        assert(p[0] is Received || p[0] is Empty);
        assert forall|i: int| #![trigger rest[i]] 0 <= i < rest.len() implies rest[i] is Received
            || rest[i] is Empty by {
            assert(rest[i] == p[i + 1]);
        }
        assert forall|i: int, j: int|
            #![trigger rest[i], rest[j]]
            0 <= i && j == i + 1 && j < rest.len() && rest[i] is Empty implies rest[j] is Received by {
            assert(rest[i] == p[i + 1]);
            assert(rest[j] == p[j + 1]);
        }
        if p[0] is Empty {
            assert(p.len() > 1);
            assert(p[0] is Empty && p[1] is Received);
            assert(rest[0] == p[1]);
        }
        if rest.len() > 0 {
            assert(rest.last() == p.last());
        }
        lemma_burst_rest(s, b, rest, k, build_ok);
        assert(a != Action::Build && a != Action::Notify && a != Action::Stop);
        let tail = drive(s, b, rest + quiet_polls(k), build_ok);
        lemma_count_cons(a, tail, Action::Build);
        lemma_count_cons(a, tail, Action::Notify);
        lemma_count_cons(a, tail, Action::Stop);
        assert((should_build || has_source_change(p)) == (b || has_source_change(rest))) by {
            if has_source_change(p) {
                let i = choose|i: int|
                    0 <= i < p.len() && p[i] == Poll::Received(ReloadEvent::BuildAndReload);
                if i > 0 {
                    assert(rest[i - 1] == p[i]);
                }
            }
            if has_source_change(rest) {
                let j = choose|j: int|
                    0 <= j < rest.len() && rest[j] == Poll::Received(ReloadEvent::BuildAndReload);
                assert(p[j + 1] == rest[j]);
            }
        }
    }
}

/// A burst of events on an idle reloader, each event arriving before the
/// quiet period after the one before it is over, then no more events for at
/// least four polls (enough for a build and the reload after it): the build
/// command runs once if some event was a change to sources and never
/// otherwise; the clients are told to reload once, except after a failed
/// build, when they are not told at all; and the reloader does not stop.
pub proof fn lemma_burst_builds_and_reloads_once(burst: Seq<Poll>, k: nat, build_ok: bool)
    requires
        is_burst(burst),
        k >= 4,
    ensures
        ({
            let actions = drive(State::Idle, false, burst + quiet_polls(k), build_ok);
            let builds = has_source_change(burst);
            &&& count_action(actions, Action::Build) == (if builds {
                1nat
            } else {
                0nat
            })
            &&& count_action(actions, Action::Notify) == (if builds && !build_ok {
                0nat
            } else {
                1nat
            })
            &&& count_action(actions, Action::Stop) == 0
        }),
{
    lemma_burst_rest(State::Idle, false, burst, k, build_ok);
}

} // verus!

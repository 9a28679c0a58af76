//! Messages to connected hot-reload clients, and the bookkeeping of sending
//! one message to every client: clients whose connection fails are dropped.

use vstd::prelude::*;

verus! {

broadcast use vstd::seq_lib::group_to_multiset_ensures;

/// A message to a connected client.
#[derive(Clone, Copy, PartialEq, Eq, Structural)]
pub enum Msg {
    /// Reload the page if the build succeeds.
    Reload,
    /// A build has started.
    BuildStarted,
    /// The build failed.
    BuildFailed,
    /// The build succeeded.
    BuildSucceeded,
}

/// The text sent over the websocket for a message.
pub open spec fn msg_text(msg: Msg) -> Seq<char> {
    match msg {
        Msg::Reload => "reload"@,
        Msg::BuildStarted => "build-started"@,
        Msg::BuildFailed => "build-failed"@,
        Msg::BuildSucceeded => "build-succeeded"@,
    }
}

impl Msg {
    /// The text sent over the websocket for this message.
    pub fn to_str(self) -> (s: &'static str)
        ensures
            s@ == msg_text(self),
    {
        match self {
            Msg::Reload => "reload",
            Msg::BuildStarted => "build-started",
            Msg::BuildFailed => "build-failed",
            Msg::BuildSucceeded => "build-succeeded",
        }
    }
}

/// What arrived from a client on its websocket.
#[derive(Clone, Copy, PartialEq, Eq, Structural)]
pub enum Incoming {
    /// A ping.
    Ping,
    /// A close frame.
    Close,
    /// A protocol error.
    Failed,
    /// Any other message.
    Other,
}

/// How the server answers a client's websocket message.
#[derive(Clone, Copy, PartialEq, Eq, Structural)]
pub enum Reply {
    /// Answer the ping with a pong carrying the same payload.
    Pong,
    /// Close the connection with the client's reason.
    CloseWithReason,
    /// Close the connection without a reason.
    Close,
    /// Nothing.
    Ignore,
}

/// The answer to a message from a client.
pub fn reply_to(incoming: Incoming) -> (r: Reply)
    ensures
        incoming == Incoming::Ping ==> r == Reply::Pong,
        incoming == Incoming::Close ==> r == Reply::CloseWithReason,
        incoming == Incoming::Failed ==> r == Reply::Close,
        incoming == Incoming::Other ==> r == Reply::Ignore,
{
    match incoming {
        Incoming::Ping => Reply::Pong,
        Incoming::Close => Reply::CloseWithReason,
        Incoming::Failed => Reply::Close,
        Incoming::Other => Reply::Ignore,
    }
}

/// Whether to keep reading from the client after sending `reply`
/// (`sent` tells whether the reply could be sent): only while pongs get
/// through or nothing needed answering.
pub fn keeps_listening(reply: Reply, sent: bool) -> (b: bool)
    ensures
        b == (reply == Reply::Ignore || (reply == Reply::Pong && sent)),
{
    match reply {
        Reply::Pong => sent,
        Reply::Ignore => true,
        _ => false,
    }
}

/// Sending one message to every session. Sessions are tried from the front;
/// one whose send fails is replaced by the last untried session
/// (`swap_remove`), one whose send succeeds is kept in place.
pub struct Broadcast<T> {
    /// Kept sessions (before `next`) and sessions not yet tried (from `next`).
    pub sessions: Vec<T>,
    /// Index of the next session to try.
    pub next: usize,
    /// The sessions the broadcast started with.
    pub initial: Ghost<Seq<T>>,
    /// Sessions whose send failed, in the order they were tried.
    pub failed: Ghost<Seq<T>>,
}

impl<T> Broadcast<T> {
    /// Consistency of the bookkeeping: every initial session is kept,
    /// untried or failed, exactly as often as it occurs.
    pub open spec fn wf(&self) -> bool {
        &&& self.next <= self.sessions.len()
        &&& self.initial@.to_multiset() =~= (self.sessions@ + self.failed@).to_multiset()
    }

    /// Sessions whose send succeeded so far.
    pub open spec fn kept(&self) -> Seq<T> {
        self.sessions@.take(self.next as int)
    }

    /// Starts sending to `sessions`.
    pub fn new(sessions: Vec<T>) -> (b: Self)
        ensures
            b.wf(),
            b.initial@ == sessions@,
            b.sessions@ == sessions@,
            b.next == 0,
            b.failed@ == Seq::<T>::empty(),
    {
        let ghost initial = sessions@;
        let b = Broadcast { sessions, next: 0, initial: Ghost(initial), failed: Ghost(Seq::empty()) };
        assert(b.sessions@ + b.failed@ =~= b.sessions@);
        b
    }

    /// The session to send to next, if any is left.
    pub fn next_index(&self) -> (i: Option<usize>)
        ensures
            i matches Some(k) ==> k == self.next && k < self.sessions.len(),
            i is None ==> self.next >= self.sessions.len(),
    {
        if self.next < self.sessions.len() {
            Some(self.next)
        } else {
            None
        }
    }

    /// Records whether the send to the session at `next` succeeded.
    pub fn report(&mut self, delivered: bool)
        requires
            old(self).wf(),
            old(self).next < old(self).sessions.len(),
        ensures
            final(self).wf(),
            final(self).initial == old(self).initial,
            delivered ==> final(self).sessions@ == old(self).sessions@ && final(self).next == old(
                self,
            ).next + 1 && final(self).failed == old(self).failed,
            !delivered ==> final(self).sessions@ == old(self).sessions@.update(
                old(self).next as int,
                old(self).sessions@.last(),
            ).drop_last() && final(self).next == old(self).next && final(self).failed@ == old(
                self,
            ).failed@.push(old(self).sessions@[old(self).next as int]),
    {
        if delivered {
            self.next = self.next + 1;
        } else {
            let ghost s = self.sessions@;
            let ghost f = self.failed@;
            let i = self.next;
            let gone = self.sessions.swap_remove(i);
            proof {
                broadcast use vstd::multiset::group_multiset_axioms;
                let t = s.update(i as int, s.last());
                let s2 = t.drop_last();
                assert(gone == s[i as int]);
                assert(t =~= s2.push(t.last()));
                assert(t.to_multiset() =~= s2.to_multiset().insert(t.last()));
                vstd::seq_lib::to_multiset_update(s, i as int, s.last());
                assert(t.to_multiset() == s.to_multiset().insert(s.last()).remove(gone));
                assert(s.to_multiset().count(gone) > 0);
                assert(t.last() == s.last());
                assert forall|x: T| #[trigger] s2.to_multiset().count(x) == s.to_multiset().remove(
                    gone,
                ).count(x) by {
                    assert(t.to_multiset().count(x) == s2.to_multiset().insert(s.last()).count(x));
                    assert(t.to_multiset().count(x) == s.to_multiset().insert(s.last()).remove(
                        gone,
                    ).count(x));
                }
                assert(s2.to_multiset() =~= s.to_multiset().remove(gone));
                assert(f.push(gone).to_multiset() =~= f.to_multiset().insert(gone));
                vstd::seq_lib::lemma_multiset_commutative(s2, f.push(gone));
                vstd::seq_lib::lemma_multiset_commutative(s, f);
                self.failed = Ghost(f.push(gone));
                assert(self.sessions@ == s2);
                assert((s2 + f.push(gone)).to_multiset() =~= (s + f).to_multiset());
            }
        }
    }

    /// Ends the broadcast once every session was tried: the kept sessions.
    pub fn finish(self) -> (kept: Vec<T>)
        requires
            self.wf(),
            self.next >= self.sessions.len(),
        ensures
            kept@ == self.kept(),
    {
        let Broadcast { sessions, next, initial, failed } = self;
        assert(sessions@.take(next as int) =~= sessions@);
        sessions
    }
}

/// Once every session was tried, each initial session was either kept or
/// dropped as failed, as often as it occurred.
pub proof fn lemma_broadcast_accounts_for_all<T>(b: Broadcast<T>)
    requires
        b.wf(),
        b.next >= b.sessions.len(),
    ensures
        b.initial@.to_multiset() == b.kept().to_multiset().add(b.failed@.to_multiset()),
        b.kept().len() + b.failed@.len() == b.initial@.len(),
{
    broadcast use vstd::multiset::group_multiset_axioms;
    assert(b.kept() =~= b.sessions@);
    vstd::seq_lib::lemma_multiset_commutative(b.sessions@, b.failed@);
    vstd::seq_lib::to_multiset_len(b.initial@);
    vstd::seq_lib::to_multiset_len(b.sessions@);
    vstd::seq_lib::to_multiset_len(b.failed@);
}

} // verus!

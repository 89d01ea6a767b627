//! The rendezvous: two wait queues, a count of signals nobody has taken yet, and the decision of
//! who meets whom.
//!
//! An endpoint decides and queues; it knows threads by name only. The mailboxes, the run queues and
//! everything else a rendezvous does to a thread belong to [`crate::sched`].
use std::collections::VecDeque;
use vstd::prelude::*;

use crate::cap::Tid;

verus! {

/// A synchronous rendezvous point.
pub struct Endpoint {
    /// Threads whose message nobody has taken, in the order they arrived.
    pub senders: VecDeque<Tid>,
    /// Threads waiting for a message, in the order they arrived.
    pub receivers: VecDeque<Tid>,
    /// Signals that arrived with nobody waiting.
    pub pending: u64,
}

/// What an endpoint holds.
#[verifier::ext_equal]
pub struct EpView {
    pub senders: Seq<Tid>,
    pub receivers: Seq<Tid>,
    pub pending: u64,
}

/// What became of a send.
#[derive(Debug, Clone, Copy, PartialEq, Eq, Structural)]
pub enum Send {
    /// This thread was waiting and takes the message now. It is off the queue.
    Rendezvous(Tid),
    /// Nobody was waiting. The sender has joined the queue.
    Blocked,
}

/// What became of a receive.
#[derive(Debug, Clone, Copy, PartialEq, Eq, Structural)]
pub enum Recv {
    /// A signal was waiting, and has been taken.
    Signal,
    /// This thread's message is next. It is off the queue.
    FromSender(Tid),
    /// There was nothing to take. The receiver has joined the queue.
    Blocked,
}

/// A queue without thread `tid`, the others in their order.
pub open spec fn without(s: Seq<Tid>, tid: Tid) -> Seq<Tid>
    decreases s.len(),
{
    if s.len() == 0 {
        s
    } else {
        let rest = without(s.drop_last(), tid);
        if s.last() == tid {
            rest
        } else {
            rest.push(s.last())
        }
    }
}

/// What is left is everybody else, nobody twice who was not there twice, and everybody if `tid`
/// was not there.
pub proof fn lemma_without(s: Seq<Tid>, tid: Tid)
    ensures
        without(s, tid).len() <= s.len(),
        forall|t: Tid| #[trigger] without(s, tid).contains(t) <==> s.contains(t) && t != tid,
        s.no_duplicates() ==> without(s, tid).no_duplicates(),
        !s.contains(tid) ==> without(s, tid) == s,
    decreases s.len(),
{
    if s.len() > 0 {
        let front = s.drop_last();
        let rest = without(front, tid);
        lemma_without(front, tid);
        assert(s =~= front.push(s.last()));
        assert forall|t: Tid| #[trigger] s.contains(t) <==> front.contains(t) || t == s.last() by {
            if front.contains(t) {
                let i = choose|i: int| 0 <= i < front.len() && front[i] == t;
                assert(s[i] == t);
            }
            assert(s[s.len() - 1] == s.last());
        }
        assert forall|t: Tid|
            #[trigger] rest.push(s.last()).contains(t) <==> rest.contains(t) || t == s.last() by {
            if rest.contains(t) {
                let i = choose|i: int| 0 <= i < rest.len() && rest[i] == t;
                assert(rest.push(s.last())[i] == t);
            }
            assert(rest.push(s.last())[rest.len() as int] == s.last());
        }
        if s.no_duplicates() {
            assert(front.no_duplicates());
            if front.contains(s.last()) {
                let i = choose|i: int| 0 <= i < front.len() && front[i] == s.last();
                assert(s[i] == s[s.len() - 1]);
            }
        }
        assert forall|t: Tid| #[trigger] without(s, tid).contains(t) <==> s.contains(t) && t
            != tid by {
            assert(rest.contains(t) <==> front.contains(t) && t != tid);
        }
        assert(!rest.contains(s.last()) || front.contains(s.last()));
    }
}

impl EpView {
    /// **The endpoint's invariant.** Nobody waits to send while somebody waits to receive, and
    /// nobody waits to receive while a signal is waiting to be taken.
    pub open spec fn one_sided(self) -> bool {
        &&& self.senders.len() == 0 || self.receivers.len() == 0
        &&& self.pending > 0 ==> self.receivers.len() == 0
    }

    /// What a send meets.
    pub open spec fn on_send(self) -> Send {
        if self.receivers.len() > 0 {
            Send::Rendezvous(self.receivers[0])
        } else {
            Send::Blocked
        }
    }

    /// The endpoint after `me` sent.
    pub open spec fn after_send(self, me: Tid) -> EpView {
        if self.receivers.len() > 0 {
            EpView { receivers: self.receivers.skip(1), ..self }
        } else {
            EpView { senders: self.senders.push(me), ..self }
        }
    }

    /// What a receive meets.
    pub open spec fn on_recv(self) -> Recv {
        if self.pending > 0 {
            Recv::Signal
        } else if self.senders.len() > 0 {
            Recv::FromSender(self.senders[0])
        } else {
            Recv::Blocked
        }
    }

    /// The endpoint after `me` received.
    pub open spec fn after_recv(self, me: Tid) -> EpView {
        if self.pending > 0 {
            EpView { pending: (self.pending - 1) as u64, ..self }
        } else if self.senders.len() > 0 {
            EpView { senders: self.senders.skip(1), ..self }
        } else {
            EpView { receivers: self.receivers.push(me), ..self }
        }
    }

    /// The thread a signal wakes.
    pub open spec fn on_signal(self) -> Option<Tid> {
        if self.receivers.len() > 0 {
            Some(self.receivers[0])
        } else {
            None
        }
    }

    /// The endpoint after a signal. The count stops at its limit rather than wrapping to zero.
    pub open spec fn after_signal(self) -> EpView {
        if self.receivers.len() > 0 {
            EpView { receivers: self.receivers.skip(1), ..self }
        } else if self.pending < u64::MAX {
            EpView { pending: (self.pending + 1) as u64, ..self }
        } else {
            self
        }
    }

    /// The endpoint without sender `tid`.
    pub open spec fn without_sender(self, tid: Tid) -> EpView {
        EpView { senders: without(self.senders, tid), ..self }
    }

    /// Everybody who waits.
    pub open spec fn waiters(self) -> Seq<Tid> {
        self.senders + self.receivers
    }
}

impl Endpoint {
    pub open spec fn view(self) -> EpView {
        EpView { senders: self.senders@, receivers: self.receivers@, pending: self.pending }
    }

    /// An endpoint nobody waits on.
    pub fn new() -> (e: Endpoint)
        ensures
            e@ == (EpView { senders: Seq::empty(), receivers: Seq::empty(), pending: 0 }),
            e@.one_sided(),
    {
        Endpoint { senders: VecDeque::new(), receivers: VecDeque::new(), pending: 0 }
    }

    /// Meet the first waiting receiver, or join the senders.
    pub fn send(&mut self, me: Tid) -> (r: Send)
        ensures
            r == old(self)@.on_send(),
            final(self)@ == old(self)@.after_send(me),
            old(self)@.one_sided() ==> final(self)@.one_sided(),
    {
        match self.receivers.pop_front() {
            Some(receiver) => {
                assert(self.receivers@ =~= old(self).receivers@.skip(1));
                Send::Rendezvous(receiver)
            },
            None => {
                assert(self.receivers@ =~= old(self).receivers@);
                self.senders.push_back(me);
                Send::Blocked
            },
        }
    }

    /// Take a waiting signal, or the first waiting sender's message, or join the receivers.
    pub fn recv(&mut self, me: Tid) -> (r: Recv)
        ensures
            r == old(self)@.on_recv(),
            final(self)@ == old(self)@.after_recv(me),
            old(self)@.one_sided() ==> final(self)@.one_sided(),
    {
        if self.pending > 0 {
            self.pending = self.pending - 1;
            return Recv::Signal;
        }
        match self.senders.pop_front() {
            Some(sender) => {
                assert(self.senders@ =~= old(self).senders@.skip(1));
                Recv::FromSender(sender)
            },
            None => {
                self.receivers.push_back(me);
                Recv::Blocked
            },
        }
    }

    /// Wake the first waiting receiver, or remember the signal. A signal never waits.
    pub fn signal(&mut self) -> (r: Option<Tid>)
        ensures
            r == old(self)@.on_signal(),
            final(self)@ == old(self)@.after_signal(),
            old(self)@.one_sided() ==> final(self)@.one_sided(),
    {
        match self.receivers.pop_front() {
            Some(receiver) => {
                assert(self.receivers@ =~= old(self).receivers@.skip(1));
                Some(receiver)
            },
            None => {
                if self.pending < u64::MAX {
                    self.pending = self.pending + 1;
                }
                None
            },
        }
    }

    /// Take `tid` off the sender queue, leaving the others in their order.
    pub fn remove_sender(&mut self, tid: Tid)
        ensures
            final(self)@ == old(self)@.without_sender(tid),
            old(self)@.one_sided() ==> final(self)@.one_sided(),
    {
        let ghost all = self.senders@;
        let mut kept: VecDeque<Tid> = VecDeque::new();
        let mut i: usize = 0;
        while i < self.senders.len()
            invariant
                self.senders@ == all,
                self.receivers@ == old(self).receivers@,
                self.pending == old(self).pending,
                i <= all.len(),
                kept@ == without(all.take(i as int), tid),
            decreases all.len() - i,
        {
            assert(all.take(i + 1).drop_last() =~= all.take(i as int));
            if self.senders[i] != tid {
                kept.push_back(self.senders[i]);
            }
            i += 1;
        }
        assert(all.take(i as int) =~= all);
        self.senders = kept;
        proof {
            lemma_without(all, tid);
        }
    }

    /// Empty both queues and hand out who was waiting.
    pub fn drain_waiters(&mut self) -> (r: Vec<Tid>)
        ensures
            r@ == old(self)@.waiters(),
            final(self)@ == (EpView {
                senders: Seq::empty(),
                receivers: Seq::empty(),
                pending: old(self)@.pending,
            }),
    {
        let mut out: Vec<Tid> = Vec::new();
        let ghost all = self@.waiters();
        loop
            invariant
                out@ + self.senders@ + self.receivers@ == all,
                self.pending == old(self).pending,
            ensures
                self.senders@.len() == 0,
            decreases self.senders@.len(),
        {
            let ghost before = self.senders@;
            match self.senders.pop_front() {
                Some(t) => {
                    let ghost o = out@;
                    out.push(t);
                    assert(o + before =~= out@ + self.senders@);
                },
                None => {
                    break ;
                },
            }
        }
        loop
            invariant
                out@ + self.senders@ + self.receivers@ == all,
                self.senders@.len() == 0,
                self.pending == old(self).pending,
            ensures
                self.receivers@.len() == 0,
            decreases self.receivers@.len(),
        {
            let ghost before = self.receivers@;
            match self.receivers.pop_front() {
                Some(t) => {
                    let ghost o = out@;
                    out.push(t);
                    assert(o + self.senders@ + before =~= out@ + self.senders@ + self.receivers@);
                },
                None => {
                    break ;
                },
            }
        }
        assert(out@ =~= all);
        assert(self.senders@ =~= Seq::<Tid>::empty());
        assert(self.receivers@ =~= Seq::<Tid>::empty());
        out
    }

    /// How many wait to send, how many wait to receive, and how many signals wait.
    pub fn debug_counts(&self) -> (r: (usize, usize, u64))
        ensures
            r.0 == self@.senders.len(),
            r.1 == self@.receivers.len(),
            r.2 == self@.pending,
    {
        (self.senders.len(), self.receivers.len(), self.pending)
    }
}

/// **A signal with nobody waiting is not lost.** The next receive takes it and does not block,
/// whoever the receiver is, and leaves the endpoint as it was before the signal.
pub proof fn law_signal_is_remembered(e: EpView, me: Tid)
    requires
        e.receivers.len() == 0,
        e.pending < u64::MAX,
    ensures
        e.on_signal() == None::<Tid>,
        e.after_signal().on_recv() == Recv::Signal,
        e.after_signal().after_recv(me) == e,
{
}

/// **Whichever side comes first, the two meet.** A receiver that finds nothing meets the next
/// sender, and a sender that finds nobody meets the next receiver that no signal reaches first.
pub proof fn law_rendezvous(e: EpView, first: Tid, second: Tid)
    requires
        e.one_sided(),
    ensures
        e.senders.len() == 0 && e.receivers.len() == 0 && e.pending == 0 ==> {
            &&& e.on_recv() == Recv::Blocked
            &&& e.after_recv(first).on_send() == Send::Rendezvous(first)
            &&& e.after_recv(first).after_send(second) == e
            &&& e.on_send() == Send::Blocked
            &&& e.after_send(first).on_recv() == Recv::FromSender(first)
            &&& e.after_send(first).after_recv(second) == e
        },
{
    if e.senders.len() == 0 && e.receivers.len() == 0 && e.pending == 0 {
        assert(e.after_recv(first).after_send(second) =~= e);
        assert(e.after_send(first).after_recv(second) =~= e);
    }
}

/// **Senders are served in the order they came.** The thread a receive meets is the one that has
/// waited longest, and those behind it keep their places.
pub proof fn law_senders_are_served_in_order(e: EpView, me: Tid)
    requires
        e.pending == 0,
        e.senders.len() > 0,
    ensures
        e.on_recv() == Recv::FromSender(e.senders[0]),
        e.after_recv(me).senders.len() == e.senders.len() - 1,
        forall|i: int|
            0 <= i < e.senders.len() - 1 ==> e.after_recv(me).senders[i] == e.senders[i + 1],
{
}

/// **Every operation keeps the endpoint one-sided.**
pub proof fn law_one_sided_is_kept(e: EpView, me: Tid)
    requires
        e.one_sided(),
    ensures
        e.after_send(me).one_sided(),
        e.after_recv(me).one_sided(),
        e.after_signal().one_sided(),
        e.without_sender(me).one_sided(),
{
    lemma_without(e.senders, me);
}

/// **Taking somebody out of a queue takes out nobody else.** Everybody else is left, as often as before
/// and in the same order.
pub proof fn law_who_is_left(s: Seq<Tid>, tid: Tid, other: Tid)
    ensures
        without(s, tid) == s.filter(|t: Tid| t != tid),
        without(s, tid).contains(other) <==> s.contains(other) && other != tid,
    decreases s.len(),
{
    reveal(Seq::filter);
    if s.len() > 0 {
        let rest = s.drop_last();
        law_who_is_left(rest, tid, other);
        assert(s.contains(other) <==> rest.contains(other) || other == s.last()) by {
            if rest.contains(other) {
                let i = choose|i: int| 0 <= i < rest.len() && rest[i] == other;
                assert(s[i] == other);
            }
            if s.contains(other) && other != s.last() {
                let i = choose|i: int| 0 <= i < s.len() && s[i] == other;
                assert(rest[i] == other);
            }
            assert(s[s.len() - 1] == s.last());
        }
        let w = without(rest, tid);
        assert(w.push(s.last()).contains(other) <==> w.contains(other) || other == s.last()) by {
            if w.contains(other) {
                let i = choose|i: int| 0 <= i < w.len() && w[i] == other;
                assert(w.push(s.last())[i] == other);
            }
            assert(w.push(s.last())[w.len() as int] == s.last());
        }
    } else {
        assert(!s.contains(other) && !without(s, tid).contains(other));
    }
}

/// **What an endpoint does with who comes.** A sender and a signal meet whoever has waited longest to
/// receive; a receiver takes a signal before it meets whoever has waited longest to send. Who is met
/// has left its queue, who is not met by anybody stands at the end of one, and a signal that nobody
/// takes is counted, as far as can be counted. Nothing else changes.
pub proof fn law_who_meets_whom(e: EpView, me: Tid)
    ensures
        ({
            let (s, r, g) = (e.after_send(me), e.after_recv(me), e.after_signal());
            &&& e.receivers.len() > 0 ==> {
                &&& e.on_send() == Send::Rendezvous(e.receivers.first())
                &&& e.on_signal() == Some(e.receivers.first())
                &&& s == g
                &&& seq![e.receivers.first()] + s.receivers == e.receivers
                &&& s.senders == e.senders && s.pending == e.pending
            }
            &&& e.receivers.len() == 0 ==> {
                &&& e.on_send() == Send::Blocked
                &&& e.on_signal() is None
                &&& s.senders.len() == e.senders.len() + 1
                &&& s.senders.last() == me && s.senders.drop_last() == e.senders
                &&& s.receivers == e.receivers && s.pending == e.pending
                &&& g.senders == e.senders && g.receivers == e.receivers
                &&& e.pending < 0xffff_ffff_ffff_ffff ==> g.pending - e.pending == 1
                &&& e.pending == 0xffff_ffff_ffff_ffff ==> g.pending == e.pending
            }
            &&& e.pending > 0 ==> {
                &&& e.on_recv() == Recv::Signal
                &&& e.pending - r.pending == 1
                &&& r.senders == e.senders && r.receivers == e.receivers
            }
            &&& e.pending == 0 && e.senders.len() > 0 ==> {
                &&& e.on_recv() == Recv::FromSender(e.senders.first())
                &&& seq![e.senders.first()] + r.senders == e.senders
                &&& r.receivers == e.receivers && r.pending == 0
            }
            &&& e.pending == 0 && e.senders.len() == 0 ==> {
                &&& e.on_recv() == Recv::Blocked
                &&& r.receivers.len() == e.receivers.len() + 1
                &&& r.receivers.last() == me && r.receivers.drop_last() == e.receivers
                &&& r.senders == e.senders && r.pending == 0
            }
        }),
{
    let (s, r) = (e.after_send(me), e.after_recv(me));
    if e.receivers.len() > 0 {
        assert(seq![e.receivers.first()] + s.receivers =~= e.receivers);
    } else {
        assert(s.senders.drop_last() =~= e.senders);
    }
    if e.pending == 0 && e.senders.len() > 0 {
        assert(seq![e.senders.first()] + r.senders =~= e.senders);
    } else if e.pending == 0 {
        assert(r.receivers.drop_last() =~= e.receivers);
    }
}

/// **Who waits on an endpoint**: who waits to send, and then who waits to receive. Taking a sender out
/// leaves the receivers and the signals alone.
pub proof fn law_who_waits(e: EpView, i: int, me: Tid)
    ensures
        e.waiters().len() == e.senders.len() + e.receivers.len(),
        0 <= i < e.senders.len() ==> e.waiters()[i] == e.senders[i],
        0 <= i < e.receivers.len() ==> e.waiters()[e.senders.len() + i] == e.receivers[i],
        e.without_sender(me).receivers == e.receivers,
        e.without_sender(me).pending == e.pending,
{
}

} // verus!

//! A message queue drained once per tick, with a bound on each tick's work.
use vstd::prelude::*;
use std::collections::VecDeque;

verus! {

/// The most messages one `drain` handles; the rest of the queue is dropped.
pub const MAX_MSGS_PER_TICK: usize = 1024;

/// Messages waiting to be handled, with counts of those enqueued and dropped.
#[derive(Debug)]
pub struct Scheduler<M> {
    queue: VecDeque<M>,
    pub enqueued: u64,
    pub dropped: u64,
}

/// Counts a scheduler reports.
#[derive(Debug, Clone, Copy, PartialEq, Eq, Structural)]
pub struct SchedulerStats {
    pub pending: usize,
    pub enqueued: u64,
    pub dropped: u64,
}

/// `f`, in the states `fs`, accepted the first `n` messages of `q` in turn:
/// the `i`-th call, made on `q[i]`, returned `Ok(())`.
pub open spec fn accepted_in_turn<M, E, F: FnMut(M) -> Result<(), E>>(fs: Seq<F>, q: Seq<M>, n: int) -> bool {
    &&& fs.len() == n
    &&& forall|i: int| 0 <= i < n ==> call_ensures(#[trigger] fs[i], (q[i],), Ok::<(), E>(()))
}

/// `f` accepted the first `n` messages of `q`, one call each, in turn.
pub open spec fn accepted_first<M, E, F: FnMut(M) -> Result<(), E>>(q: Seq<M>, n: int) -> bool {
    exists|fs: Seq<F>| accepted_in_turn::<M, E, F>(fs, q, n)
}

/// `f` accepted the first `k - 1` messages of `q` in turn and then refused
/// `q[k - 1]` with `e`.
pub open spec fn refused_at<M, E, F: FnMut(M) -> Result<(), E>>(q: Seq<M>, k: int, e: E) -> bool {
    &&& 0 < k <= q.len()
    &&& accepted_first::<M, E, F>(q, k - 1)
    &&& exists|g: F| #[trigger] call_ensures(g, (q[k - 1],), Err::<(), E>(e))
}

/// What a scheduler's counts say: the waiting messages and the numbers of
/// messages enqueued and dropped.
pub struct SchedModel<M> {
    pub queued: Seq<M>,
    pub enqueued: int,
    pub dropped: int,
}

/// `msg` was queued after the waiting ones.
pub open spec fn pushed<M>(b: SchedModel<M>, a: SchedModel<M>, msg: M) -> bool {
    &&& a.queued == b.queued.push(msg)
    &&& a.enqueued == b.enqueued + 1
    &&& a.dropped == b.dropped
}

/// The oldest waiting message, if any, was taken out and returned as `out`.
pub open spec fn popped<M>(b: SchedModel<M>, a: SchedModel<M>, out: Option<M>) -> bool {
    &&& b.queued.len() == 0 ==> out is None && a == b
    &&& b.queued.len() > 0 ==> out == Some(b.queued[0]) && a.queued == b.queued.drop_first() && a.enqueued
        == b.enqueued && a.dropped == b.dropped
}

/// A drain handed `handed` of the oldest waiting messages to its handler
/// and dropped the next ones it counted as dropped.
pub open spec fn drained<M>(b: SchedModel<M>, a: SchedModel<M>, handed: int) -> bool {
    &&& a.enqueued == b.enqueued
    &&& 0 <= handed
    &&& b.dropped <= a.dropped
    &&& handed + (a.dropped - b.dropped) <= b.queued.len()
    &&& a.queued == b.queued.skip(handed + (a.dropped - b.dropped))
}

/// One call of `push`, `pop` or `drain`, with the number of messages it
/// handed out (one for a message `pop` returned).
pub open spec fn sched_step<M>(b: SchedModel<M>, a: SchedModel<M>, handed: int) -> bool {
    ||| handed == 0 && exists|m: M| #[trigger] pushed(b, a, m)
    ||| exists|out: Option<M>| #[trigger] popped(b, a, out) && handed == (if out is Some {
        1int
    } else {
        0int
    })
    ||| drained(b, a, handed)
}

pub open spec fn sum_of(s: Seq<int>) -> int
    decreases s.len(),
{
    if s.len() == 0 {
        0
    } else {
        sum_of(s.drop_last()) + s.last()
    }
}

/// Every message enqueued is waiting, was handed out (by `pop` or to a
/// drain's handler), or was dropped: over any run of calls from a scheduler
/// whose counts add up (a new one), they still add up.
pub proof fn law_accounting<M>(states: Seq<SchedModel<M>>, handed: Seq<int>)
    requires
        states.len() == handed.len() + 1,
        states[0].enqueued == states[0].queued.len() + states[0].dropped,
        forall|i: int| 0 <= i < handed.len() ==> sched_step(#[trigger] states[i], states[i + 1], handed[i]),
    ensures
        states.last().enqueued == states.last().queued.len() + sum_of(handed) + states.last().dropped,
    decreases handed.len(),
{
    if handed.len() > 0 {
        let k = handed.len() - 1;
        assert forall|i: int| 0 <= i < handed.drop_last().len() implies sched_step(
            #[trigger] states.drop_last()[i],
            states.drop_last()[i + 1],
            handed.drop_last()[i],
        ) by {
            assert(sched_step(states[i], states[i + 1], handed[i]));
        }
        law_accounting(states.drop_last(), handed.drop_last());
        let b = states[k];
        let a = states[k + 1];
        assert(sched_step(b, a, handed[k]));
        if drained(b, a, handed[k]) {
            assert(a.queued.len() == b.queued.len() - handed[k] - (a.dropped - b.dropped));
        }
    }
}

proof fn lemma_pushes<M>(states: Seq<SchedModel<M>>, msgs: Seq<M>, k: int)
    requires
        0 <= k <= msgs.len(),
        states.len() > msgs.len(),
        forall|i: int| 0 <= i < msgs.len() ==> pushed(#[trigger] states[i], states[i + 1], msgs[i]),
    ensures
        states[k].queued == states[0].queued + msgs.take(k),
    decreases k,
{
    if k > 0 {
        lemma_pushes(states, msgs, k - 1);
        assert(pushed(states[k - 1], states[k], msgs[k - 1]));
        assert(states[0].queued + msgs.take(k) =~= (states[0].queued + msgs.take(k - 1)).push(msgs[k - 1]));
    } else {
        assert(states[0].queued + msgs.take(0) =~= states[0].queued);
    }
}

proof fn lemma_pops<M>(states: Seq<SchedModel<M>>, base: int, msgs: Seq<M>, outs: Seq<Option<M>>, k: int)
    requires
        0 <= base,
        0 <= k <= outs.len(),
        states.len() > base + outs.len(),
        states[base].queued == msgs,
        forall|i: int| 0 <= i < outs.len() ==> popped(#[trigger] states[base + i], states[base + i + 1], outs[i]),
    ensures
        k <= msgs.len() ==> states[base + k].queued == msgs.skip(k),
        k > msgs.len() ==> states[base + k].queued.len() == 0,
        forall|i: int| 0 <= i < k ==> outs[i] == (if i < msgs.len() {
            Some(msgs[i])
        } else {
            None
        }),
    decreases k,
{
    if k > 0 {
        lemma_pops(states, base, msgs, outs, k - 1);
        assert(popped(states[base + k - 1], states[base + k], outs[k - 1]));
        if k - 1 < msgs.len() {
            assert(msgs.skip(k - 1)[0] == msgs[k - 1]);
            assert(msgs.skip(k - 1).drop_first() =~= msgs.skip(k));
        } else if k - 1 == msgs.len() {
            assert(msgs.skip(k - 1).len() == 0);
        }
    } else {
        assert(msgs.skip(0) =~= msgs);
    }
}

/// First in, first out: messages pushed onto an empty queue come back from
/// the pops that follow in the order they were pushed, and once they are
/// all out a pop returns `None`.
pub proof fn law_fifo<M>(states: Seq<SchedModel<M>>, msgs: Seq<M>, outs: Seq<Option<M>>)
    requires
        states.len() == msgs.len() + outs.len() + 1,
        states[0].queued.len() == 0,
        forall|i: int| 0 <= i < msgs.len() ==> pushed(#[trigger] states[i], states[i + 1], msgs[i]),
        forall|i: int|
            0 <= i < outs.len() ==> popped(#[trigger] states[msgs.len() + i], states[msgs.len() + i + 1], outs[i]),
    ensures
        forall|i: int| 0 <= i < outs.len() ==> outs[i] == (if i < msgs.len() {
            Some(msgs[i])
        } else {
            None
        }),
{
    lemma_pushes(states, msgs, msgs.len() as int);
    assert(states[0].queued + msgs.take(msgs.len() as int) =~= msgs);
    let base = msgs.len() as int;
    assert forall|i: int| 0 <= i < outs.len() implies popped(#[trigger] states[base + i], states[base + i + 1], outs[i]) by {
        assert(popped(states[msgs.len() + i], states[msgs.len() + i + 1], outs[i]));
    }
    lemma_pops(states, base, msgs, outs, outs.len() as int);
}

impl<M> Scheduler<M> {
    /// The counts as a model.
    pub open spec fn model(&self) -> SchedModel<M> {
        SchedModel {
            queued: self.queued(),
            enqueued: self.enqueued_count() as int,
            dropped: self.dropped_count() as int,
        }
    }

    /// The messages waiting, oldest first.
    pub closed spec fn queued(&self) -> Seq<M> {
        self.queue@
    }

    /// The `enqueued` count.
    pub closed spec fn enqueued_count(&self) -> u64 {
        self.enqueued
    }

    /// The `dropped` count.
    pub closed spec fn dropped_count(&self) -> u64 {
        self.dropped
    }

    /// An empty scheduler.
    pub fn new() -> (r: Scheduler<M>)
        ensures
            r.queued().len() == 0,
            r.enqueued_count() == 0,
            r.dropped_count() == 0,
    {
        Scheduler { queue: VecDeque::new(), enqueued: 0, dropped: 0 }
    }

    /// Queues a message after those waiting.
    pub fn push(&mut self, msg: M)
        requires
            old(self).enqueued_count() < u64::MAX,
        ensures
            final(self).queued() == old(self).queued().push(msg),
            final(self).enqueued_count() == old(self).enqueued_count() + 1,
            final(self).dropped_count() == old(self).dropped_count(),
            pushed(old(self).model(), final(self).model(), msg),
    {
        self.queue.push_back(msg);
        self.enqueued = self.enqueued + 1;
    }

    /// Takes the oldest message.
    pub fn pop(&mut self) -> (r: Option<M>)
        ensures
            old(self).queued().len() == 0 ==> r is None && final(self).queued() == old(self).queued(),
            old(self).queued().len() > 0 ==> r == Some(old(self).queued()[0]) && final(self).queued()
                == old(self).queued().drop_first(),
            final(self).enqueued_count() == old(self).enqueued_count(),
            final(self).dropped_count() == old(self).dropped_count(),
            popped(old(self).model(), final(self).model(), r),
    {
        self.queue.pop_front()
    }

    /// The number of messages waiting.
    pub fn pending(&self) -> (r: usize)
        ensures
            r == self.queued().len(),
    {
        self.queue.len()
    }

    /// Whether no message is waiting.
    pub fn is_empty(&self) -> (r: bool)
        ensures
            r == (self.queued().len() == 0),
    {
        self.queue.len() == 0
    }

    /// The counts.
    pub fn stats(&self) -> (r: SchedulerStats)
        ensures
            r == (SchedulerStats { pending: self.queued().len() as usize, enqueued: self.enqueued_count(), dropped: self.dropped_count() }),
    {
        SchedulerStats { pending: self.pending(), enqueued: self.enqueued, dropped: self.dropped }
    }

    /// Hands the waiting messages, oldest first, to `f`, at most
    /// `MAX_MSGS_PER_TICK` of them; past that the rest of the queue is
    /// dropped and counted. Stops at the first error of `f`, the message it
    /// failed on being used up and the later ones left waiting. Each message
    /// handed over is the next of the queue: on `Ok(n)` `f` accepted the first
    /// `n` in turn, on an error it accepted those before the one it refused.
    pub fn drain<E, F: FnMut(M) -> Result<(), E>>(&mut self, f: F) -> (r: Result<usize, E>)
        requires
            forall|m: M, g: F| call_requires(g, (m,)),
            old(self).dropped_count() + old(self).queued().len() <= u64::MAX,
        ensures
            final(self).enqueued_count() == old(self).enqueued_count(),
            drained(
                old(self).model(),
                final(self).model(),
                match r {
                    Ok(n) => n as int,
                    Err(_) => old(self).queued().len() - final(self).queued().len(),
                },
            ),
            match r {
                Ok(n) => {
                    &&& old(self).queued().len() <= MAX_MSGS_PER_TICK ==> n == old(self).queued().len()
                        && final(self).dropped_count() == old(self).dropped_count()
                    &&& old(self).queued().len() > MAX_MSGS_PER_TICK ==> n == MAX_MSGS_PER_TICK
                        && final(self).dropped_count() == old(self).dropped_count() + old(self).queued().len() - MAX_MSGS_PER_TICK
                    &&& final(self).queued().len() == 0
                    &&& accepted_first::<M, E, F>(old(self).queued(), n as int)
                },
                Err(e) => final(self).dropped_count() == old(self).dropped_count() && final(self).queued().len() < old(
                    self,
                ).queued().len() && old(self).queued().len() - final(self).queued().len() <= MAX_MSGS_PER_TICK
                    && final(self).queued() == old(self).queued().skip(
                    old(self).queued().len() - final(self).queued().len(),
                ) && refused_at::<M, E, F>(
                    old(self).queued(),
                    old(self).queued().len() - final(self).queued().len(),
                    e,
                ),
            },
    {
        let mut f = f;
        let mut n: usize = 0;
        let ghost q0 = self.queue@;
        let ghost mut fs: Seq<F> = Seq::empty();
        loop
            invariant
                n <= MAX_MSGS_PER_TICK,
                n <= q0.len(),
                self.queue@ == q0.skip(n as int),
                self.enqueued == old(self).enqueued_count(),
                self.dropped == old(self).dropped_count(),
                q0 == old(self).queued(),
                old(self).dropped_count() + q0.len() <= u64::MAX,
                forall|m: M, g: F| call_requires(g, (m,)),
                accepted_in_turn::<M, E, F>(fs, q0, n as int),
            decreases self.queue@.len(),
        {
            match self.queue.pop_front() {
                None => {
                    assert(q0.skip(n as int).len() == 0);
                    assert(accepted_in_turn::<M, E, F>(fs, old(self).queued(), n as int));
                    assert(accepted_first::<M, E, F>(old(self).queued(), n as int));
                    return Ok(n);
                },
                Some(msg) => {
                    if n >= MAX_MSGS_PER_TICK {
                        let rest = self.queue.len() as u64;
                        self.dropped = self.dropped + 1 + rest;
                        self.queue.clear();
                        assert(self.queue@ =~= q0.skip(q0.len() as int));
                        assert(n + (self.dropped - old(self).dropped_count()) == q0.len());
                        assert(accepted_in_turn::<M, E, F>(fs, old(self).queued(), n as int));
                        assert(accepted_first::<M, E, F>(old(self).queued(), n as int));
                        return Ok(n);
                    }
                    let ghost g = f;
                    let res = f(msg);
                    assert(call_ensures(g, (q0[n as int],), res));
                    if res.is_ok() {
                        proof {
                            let fs0 = fs;
                            fs = fs.push(g);
                            assert forall|i: int| 0 <= i < n + 1 implies call_ensures(
                                #[trigger] fs[i],
                                (q0[i],),
                                Ok::<(), E>(()),
                            ) by {
                                if i < n {
                                    assert(fs[i] == fs0[i]);
                                    assert(call_ensures(fs0[i], (q0[i],), Ok::<(), E>(())));
                                } else {
                                    assert(fs[i] == g);
                                    assert(res is Ok);
                                    assert(res->Ok_0 == ());
                                    assert(res == Ok::<(), E>(()));
                                    assert(call_ensures(g, (q0[i],), Ok::<(), E>(())));
                                }
                            }
                        }
                    }
                    match res {
                        Ok(()) => {},
                        Err(e) => {
                            assert(self.queue@ =~= q0.skip(n + 1));
                            assert(accepted_in_turn::<M, E, F>(fs, old(self).queued(), n as int));
                            assert(accepted_first::<M, E, F>(old(self).queued(), n as int));
                            assert(self.queue@.len() == q0.len() - n - 1);
                            assert(refused_at::<M, E, F>(q0, n + 1, e));
                            return Err(e);
                        },
                    }
                    n = n + 1;
                    assert(self.queue@ =~= q0.skip(n as int));
                },
            }
        }
    }
}

} // verus!

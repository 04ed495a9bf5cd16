//! How many requests may begin and be under way: a bucket of tokens that is filled up once
//! a second, and a number of slots.
use crate::fetch::{fetch_next, fresh, FetchEventView, FetchView};
use crate::store::budget_refill;
use vstd::prelude::*;

verus! {

/// The tokens and slots of a store.
#[derive(Debug)]
pub struct Gate {
    rate: u32,
    tokens: u32,
    max_inflight: u32,
    inflight: u32,
}

/// What a [`Gate`] holds: how many tokens there are at most and now, and how many requests
/// may be under way and are.
pub struct GateView {
    pub rate: int,
    pub tokens: int,
    pub max_inflight: int,
    pub inflight: int,
}

impl View for Gate {
    type V = GateView;

    closed spec fn view(&self) -> GateView {
        GateView {
            rate: self.rate as int,
            tokens: self.tokens as int,
            max_inflight: self.max_inflight as int,
            inflight: self.inflight as int,
        }
    }
}

impl GateView {
    pub open spec fn wf(self) -> bool {
        &&& 0 <= self.tokens <= self.rate
        &&& 0 <= self.inflight <= self.max_inflight
    }

    /// Without a token.
    pub open spec fn taken(self) -> GateView {
        GateView { tokens: self.tokens - 1, ..self }
    }

    /// With all its tokens.
    pub open spec fn refilled(self) -> GateView {
        GateView { tokens: self.rate, ..self }
    }

    /// With one more request under way.
    pub open spec fn entered(self) -> GateView {
        GateView { inflight: self.inflight + 1, ..self }
    }

    /// With one request less under way.
    pub open spec fn released(self) -> GateView {
        GateView { inflight: self.inflight - 1, ..self }
    }
}

impl Gate {
    pub closed spec fn inv(&self) -> bool {
        self@.wf()
    }

    /// A full bucket and free slots.
    pub fn new(rate: u32, max_inflight: u32) -> (r: Gate)
        ensures
            r@ == (GateView {
                rate: rate as int,
                tokens: rate as int,
                max_inflight: max_inflight as int,
                inflight: 0,
            }),
            r.inv(),
    {
        Gate { rate, tokens: rate, max_inflight, inflight: 0 }
    }

    /// Takes a token, if there is one. It is not given back.
    pub fn take(&mut self) -> (r: bool)
        requires
            old(self).inv(),
        ensures
            r == (old(self)@.tokens > 0),
            final(self)@ == if r {
                old(self)@.taken()
            } else {
                old(self)@
            },
            final(self).inv(),
    {
        if self.tokens > 0 {
            self.tokens = self.tokens - 1;
            true
        } else {
            false
        }
    }

    /// Fills the bucket up.
    pub fn refill(&mut self)
        requires
            old(self).inv(),
        ensures
            final(self)@ == old(self)@.refilled(),
            final(self).inv(),
    {
        let more = budget_refill(self.rate, self.tokens as usize);
        self.tokens = self.tokens + more as u32;
    }

    /// Takes a slot, if there is one.
    pub fn enter(&mut self) -> (r: bool)
        requires
            old(self).inv(),
        ensures
            r == (old(self)@.inflight < old(self)@.max_inflight),
            final(self)@ == if r {
                old(self)@.entered()
            } else {
                old(self)@
            },
            final(self).inv(),
    {
        if self.inflight < self.max_inflight {
            self.inflight = self.inflight + 1;
            true
        } else {
            false
        }
    }

    /// Gives a slot back, and tells whether one was taken.
    pub fn release(&mut self) -> (r: bool)
        requires
            old(self).inv(),
        ensures
            r == (old(self)@.inflight > 0),
            final(self)@ == if r {
                old(self)@.released()
            } else {
                old(self)@
            },
            final(self).inv(),
    {
        if self.inflight > 0 {
            self.inflight = self.inflight - 1;
            true
        } else {
            false
        }
    }
}

/// A store with all the calls that were ever made on it.
pub struct Pool {
    pub gate: GateView,
    pub calls: Seq<FetchView>,
}

/// What happens to a store.
pub enum PoolEvent {
    /// A call is made.
    Call(FetchView),
    /// A call goes on with an event.
    Step { call: int, event: FetchEventView },
    /// The bucket is filled up.
    Refill,
}

/// The event takes a token.
pub open spec fn takes_token(p: Pool, e: PoolEvent) -> bool {
    match e {
        PoolEvent::Step { call, event } => p.calls[call].phase is Budget && event is Acquired,
        _ => false,
    }
}

/// What becomes of the tokens and slots when a call goes from `v` to `u`: it takes its token
/// when it is done waiting for one, its slot when it gets under way, and gives the slot back
/// when it no longer is.
pub open spec fn gate_step(g: GateView, v: FetchView, u: FetchView, e: FetchEventView) -> Option<
    GateView,
> {
    if v.phase is Budget && e is Acquired {
        if g.tokens > 0 {
            Some(g.taken())
        } else {
            None
        }
    } else if !v.under_way() && u.under_way() {
        if g.inflight < g.max_inflight {
            Some(g.entered())
        } else {
            None
        }
    } else if v.under_way() && !u.under_way() {
        Some(g.released())
    } else {
        Some(g)
    }
}

/// The store after the event; nothing, if the event cannot happen.
pub open spec fn pool_next(p: Pool, e: PoolEvent) -> Option<Pool> {
    match e {
        PoolEvent::Call(v) => if fresh(v) {
            Some(Pool { calls: p.calls.push(v), ..p })
        } else {
            None
        },
        PoolEvent::Refill => Some(Pool { gate: p.gate.refilled(), ..p }),
        PoolEvent::Step { call, event } => if 0 <= call < p.calls.len() {
            match fetch_next(p.calls[call], event) {
                Some((u, _)) => match gate_step(p.gate, p.calls[call], u, event) {
                    Some(gate) => Some(Pool { gate, calls: p.calls.update(call, u) }),
                    None => None,
                },
                None => None,
            }
        } else {
            None
        },
    }
}

/// The store after these events.
pub open spec fn pool_run(p: Pool, events: Seq<PoolEvent>) -> Option<Pool>
    decreases events.len(),
{
    if events.len() == 0 {
        Some(p)
    } else {
        match pool_run(p, events.drop_last()) {
            Some(q) => pool_next(q, events.last()),
            None => None,
        }
    }
}

/// How many of these events took a token.
pub open spec fn tokens_taken(p: Pool, events: Seq<PoolEvent>) -> int
    decreases events.len(),
{
    if events.len() == 0 {
        0
    } else {
        tokens_taken(p, events.drop_last()) + match pool_run(p, events.drop_last()) {
            Some(q) => if takes_token(q, events.last()) {
                1int
            } else {
                0
            },
            None => 0,
        }
    }
}

/// How often the bucket was filled up.
pub open spec fn refills(events: Seq<PoolEvent>) -> int
    decreases events.len(),
{
    if events.len() == 0 {
        0
    } else {
        refills(events.drop_last()) + if events.last() is Refill {
            1int
        } else {
            0
        }
    }
}

/// How many calls are under way: collecting, waiting for the next try, or out as a stream
/// that was not dropped.
pub open spec fn under_way(calls: Seq<FetchView>) -> int
    decreases calls.len(),
{
    if calls.len() == 0 {
        0
    } else {
        under_way(calls.drop_last()) + if calls.last().under_way() {
            1int
        } else {
            0
        }
    }
}

/// The call has had its token.
pub open spec fn admitted(v: FetchView) -> bool {
    v.phase is Slot || v.sent > 0
}

/// How many calls have had their token, those among them that sent a GET.
pub open spec fn admitted_calls(calls: Seq<FetchView>) -> int
    decreases calls.len(),
{
    if calls.len() == 0 {
        0
    } else {
        admitted_calls(calls.drop_last()) + if admitted(calls.last()) {
            1int
        } else {
            0
        }
    }
}

/// How many calls have sent a GET.
pub open spec fn begun_calls(calls: Seq<FetchView>) -> int
    decreases calls.len(),
{
    if calls.len() == 0 {
        0
    } else {
        begun_calls(calls.drop_last()) + if calls.last().sent > 0 {
            1int
        } else {
            0
        }
    }
}

/// How many calls have their token and wait for a slot.
pub open spec fn waiting_calls(calls: Seq<FetchView>) -> int
    decreases calls.len(),
{
    if calls.len() == 0 {
        0
    } else {
        waiting_calls(calls.drop_last()) + if calls.last().phase is Slot {
            1int
        } else {
            0
        }
    }
}

proof fn lemma_admitted(calls: Seq<FetchView>)
    requires
        forall|k: int| 0 <= k < calls.len() ==> (#[trigger] calls[k]).wf(),
    ensures
        admitted_calls(calls) == begun_calls(calls) + waiting_calls(calls),
        waiting_calls(calls) >= 0,
    decreases calls.len(),
{
    if calls.len() > 0 {
        let d = calls.drop_last();
        assert forall|k: int| 0 <= k < d.len() implies (#[trigger] d[k]).wf() by {
            assert(calls[k].wf());
        }
        lemma_admitted(d);
        assert(calls[calls.len() - 1].wf());
    }
}

/// A store on which no call was made.
pub open spec fn idle(p: Pool) -> bool {
    &&& p.gate.wf()
    &&& p.gate.tokens == p.gate.rate
    &&& p.gate.inflight == 0
    &&& p.calls == Seq::<FetchView>::empty()
}

proof fn lemma_update(calls: Seq<FetchView>, k: int, u: FetchView)
    requires
        0 <= k < calls.len(),
    ensures
        under_way(calls.update(k, u)) == under_way(calls) + (if u.under_way() {
            1int
        } else {
            0
        }) - (if calls[k].under_way() {
            1int
        } else {
            0
        }),
        admitted_calls(calls.update(k, u)) == admitted_calls(calls) + (if admitted(u) {
            1int
        } else {
            0
        }) - (if admitted(calls[k]) {
            1int
        } else {
            0
        }),
    decreases calls.len(),
{
    let s = calls.update(k, u);
    if k == calls.len() - 1 {
        assert(s.drop_last() =~= calls.drop_last());
    } else {
        assert(s.drop_last() =~= calls.drop_last().update(k, u));
        assert(s.last() == calls.last());
        lemma_update(calls.drop_last(), k, u);
    }
}

proof fn lemma_push(calls: Seq<FetchView>, u: FetchView)
    ensures
        under_way(calls.push(u)) == under_way(calls) + if u.under_way() {
            1int
        } else {
            0
        },
        admitted_calls(calls.push(u)) == admitted_calls(calls) + if admitted(u) {
            1int
        } else {
            0
        },
{
    assert(calls.push(u).drop_last() =~= calls);
}

/// What every event keeps.
spec fn kept(p: Pool) -> bool {
    &&& p.gate.wf()
    &&& p.gate.inflight == under_way(p.calls)
    &&& forall|k: int| 0 <= k < p.calls.len() ==> (#[trigger] p.calls[k]).wf()
}

proof fn lemma_pool_step(p: Pool, e: PoolEvent)
    requires
        kept(p),
    ensures
        match pool_next(p, e) {
            Some(q) => {
                &&& kept(q)
                &&& q.gate.rate == p.gate.rate
                &&& q.gate.max_inflight == p.gate.max_inflight
                &&& admitted_calls(q.calls) <= admitted_calls(p.calls) + if takes_token(p, e) {
                    1int
                } else {
                    0
                }
                &&& q.gate.tokens == if e is Refill {
                    p.gate.rate
                } else if takes_token(p, e) {
                    p.gate.tokens - 1
                } else {
                    p.gate.tokens
                }
            },
            None => true,
        },
{
    if let Some(q) = pool_next(p, e) {
        match e {
            PoolEvent::Call(v) => {
                lemma_push(p.calls, v);
                assert forall|k: int| 0 <= k < q.calls.len() implies (#[trigger] q.calls[k]).wf() by {
                    if k < p.calls.len() {
                        assert(p.calls[k].wf());
                    }
                }
            },
            PoolEvent::Refill => {},
            PoolEvent::Step { call, event } => {
                let v = p.calls[call];
                let (u, _) = fetch_next(v, event)->0;
                lemma_update(p.calls, call, u);
                assert(v.wf());
                assert(u.wf());
                lemma_some_under_way(p.calls, call);
                assert forall|k: int| 0 <= k < q.calls.len() implies (#[trigger] q.calls[k]).wf() by {
                    if k != call {
                        assert(p.calls[k].wf());
                    }
                }
            },
        }
    }
}

proof fn lemma_some_under_way(calls: Seq<FetchView>, k: int)
    requires
        0 <= k < calls.len(),
    ensures
        under_way(calls) >= 0,
        calls[k].under_way() ==> under_way(calls) >= 1,
    decreases calls.len(),
{
    if k < calls.len() - 1 {
        lemma_some_under_way(calls.drop_last(), k);
    } else if calls.len() > 1 {
        lemma_some_under_way(calls.drop_last(), 0);
    } else {
        assert(under_way(calls.drop_last()) == 0);
    }
}

proof fn lemma_pool_run(p: Pool, events: Seq<PoolEvent>)
    requires
        kept(p),
        pool_run(p, events) is Some,
    ensures
        match pool_run(p, events) {
            Some(q) => {
                &&& kept(q)
                &&& q.gate.rate == p.gate.rate
                &&& q.gate.max_inflight == p.gate.max_inflight
                &&& admitted_calls(q.calls) <= admitted_calls(p.calls) + tokens_taken(p, events)
                &&& refills(events) == 0 ==> q.gate.tokens == p.gate.tokens - tokens_taken(
                    p,
                    events,
                )
                &&& refills(events) >= 0
                &&& tokens_taken(p, events) + q.gate.tokens <= p.gate.tokens + refills(events)
                    * p.gate.rate
            },
            None => false,
        },
    decreases events.len(),
{
    if events.len() > 0 {
        let before = events.drop_last();
        lemma_pool_run(p, before);
        let q = pool_run(p, before)->0;
        lemma_pool_step(q, events.last());
        if events.last() is Refill {
            assert(refills(events) * p.gate.rate == refills(before) * p.gate.rate + p.gate.rate)
                by (nonlinear_arith)
                requires
                    refills(events) == refills(before) + 1,
            ;
        }
    } else {
        assert(0 * p.gate.rate == 0);
    }
}

/// Between two refills of the bucket at most `rate` calls get their token, whatever else
/// happens: a token is not given back. So at most `rate` calls begin their GET, besides
/// those that had their token before and only waited for a slot.
pub proof fn law_budget(p: Pool, before: Seq<PoolEvent>, q: Pool, between: Seq<PoolEvent>, r: Pool)
    requires
        idle(p),
        pool_run(p, before) == Some(q),
        pool_run(q, between) == Some(r),
        refills(between) == 0,
    ensures
        tokens_taken(q, between) <= p.gate.rate,
        admitted_calls(r.calls) <= admitted_calls(q.calls) + p.gate.rate,
        begun_calls(r.calls) <= begun_calls(q.calls) + waiting_calls(q.calls) + p.gate.rate,
{
    lemma_pool_run(p, before);
    lemma_pool_run(q, between);
    lemma_admitted(q.calls);
    lemma_admitted(r.calls);
}

/// All calls that ever sent a GET, or are about to, are at most `rate` for each refill of
/// the bucket, and `rate` more for the full bucket at the beginning.
pub proof fn law_budget_in_all(p: Pool, events: Seq<PoolEvent>)
    requires
        idle(p),
        pool_run(p, events) is Some,
    ensures
        admitted_calls(pool_run(p, events)->0.calls) <= p.gate.rate * (refills(events) + 1),
{
    lemma_pool_run(p, events);
    assert(p.gate.rate * (refills(events) + 1) == p.gate.rate + refills(events) * p.gate.rate)
        by (nonlinear_arith);
}

/// At every moment, the calls that are under way, streams that were handed out and not yet
/// dropped among them, are at most as many as there are slots.
pub proof fn law_in_flight(p: Pool, events: Seq<PoolEvent>)
    requires
        idle(p),
        pool_run(p, events) is Some,
    ensures
        ({
            let q = pool_run(p, events)->0;
            &&& under_way(q.calls) == q.gate.inflight
            &&& under_way(q.calls) <= p.gate.max_inflight
        }),
{
    lemma_pool_run(p, events);
}

/// A token that is taken is one less, and a refill makes the bucket full, whatever was in
/// it; a request that begins is one more under way, and one that ends is one less. Tokens
/// and slots do not bear on each other.
pub proof fn law_gate(g: GateView)
    ensures
        g.taken().tokens + 1 == g.tokens,
        g.taken().inflight == g.inflight,
        g.refilled().tokens == g.rate,
        g.refilled().inflight == g.inflight,
        g.entered().inflight == g.inflight + 1,
        g.entered().tokens == g.tokens,
        g.released().inflight + 1 == g.inflight,
        g.released().tokens == g.tokens,
        g.taken().rate == g.rate && g.refilled().rate == g.rate && g.entered().rate == g.rate
            && g.released().rate == g.rate,
        g.taken().max_inflight == g.max_inflight && g.refilled().max_inflight == g.max_inflight
            && g.entered().max_inflight == g.max_inflight && g.released().max_inflight
            == g.max_inflight,
        g.entered().released() == g,
{
}

} // verus!

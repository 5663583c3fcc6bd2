//! The abstract state of the broker and the effect of each operation on it.
use vstd::prelude::*;

use crate::ids::{ReqId, SrvId};

verus! {

/// What the broker holds, as mathematical values.
///
/// `queues` maps each registered service to its pending requests, oldest
/// first. `responses` maps a request to its recorded outcome: `Some(v)` for
/// a reply, `None` for a request that the service declined. `wakers` holds the
/// resumption handle parked for a request, at most one per request.
pub struct BrokerState<M, W> {
    pub queues: Map<usize, Seq<(ReqId, M)>>,
    pub responses: Map<usize, Option<M>>,
    pub wakers: Map<usize, W>,
    pub next_srv: usize,
    pub next_req: usize,
}

impl<M, W> BrokerState<M, W> {
    pub open spec fn is_registered(self, s: SrvId) -> bool {
        self.queues.contains_key(s.0)
    }

    /// The pending requests of service `s`, oldest first.
    pub open spec fn queue(self, s: SrvId) -> Seq<(ReqId, M)> {
        self.queues[s.0]
    }

    pub open spec fn is_queued(self, r: ReqId) -> bool {
        exists|k: usize, i: int|
            self.queues.contains_key(k) && 0 <= i < self.queues[k].len()
                && #[trigger] self.queues[k][i].0 == r
    }

    /// Every live service and every request got its id from the counters,
    /// each queue holds its requests in the order their ids were handed out,
    /// no request waits in two places, and none waits that has an outcome.
    pub open spec fn wf(self) -> bool {
        &&& forall|k: usize| #[trigger] self.queues.contains_key(k) ==> k < self.next_srv
        &&& forall|k: usize, i: int|
            self.queues.contains_key(k) && 0 <= i < self.queues[k].len()
                ==> #[trigger] self.queues[k][i].0.0 < self.next_req
        &&& forall|k: usize, i: int, j: int|
            self.queues.contains_key(k) && 0 <= i < j < self.queues[k].len()
                ==> #[trigger] self.queues[k][i].0.0 < #[trigger] self.queues[k][j].0.0
        &&& forall|r: usize| #[trigger] self.responses.contains_key(r) ==> r < self.next_req
        &&& forall|k1: usize, i: int, k2: usize, j: int|
            self.queues.contains_key(k1) && self.queues.contains_key(k2) && 0 <= i
                < self.queues[k1].len() && 0 <= j < self.queues[k2].len() && #[trigger] self.queues[k1][i].0
                == #[trigger] self.queues[k2][j].0 ==> k1 == k2 && i == j
        &&& forall|k: usize, i: int|
            self.queues.contains_key(k) && 0 <= i < self.queues[k].len()
                ==> !self.responses.contains_key(#[trigger] self.queues[k][i].0.0)
    }

    /// The state of a broker with nothing registered.
    pub open spec fn empty() -> Self {
        BrokerState {
            queues: Map::empty(),
            responses: Map::empty(),
            wakers: Map::empty(),
            next_srv: 0,
            next_req: 0,
        }
    }

    /// Registration: a fresh id with an empty queue.
    pub open spec fn register(self) -> (Self, SrvId) {
        (
            BrokerState {
                queues: self.queues.insert(self.next_srv, Seq::empty()),
                next_srv: (self.next_srv + 1) as usize,
                ..self
            },
            SrvId(self.next_srv),
        )
    }

    /// Deregistration: the queue goes, with whatever it still held.
    pub open spec fn unregister(self, s: SrvId) -> Self {
        BrokerState { queues: self.queues.remove(s.0), ..self }
    }

    /// Posting: a fresh request id at the tail of a live service's queue.
    pub open spec fn post(self, s: SrvId, m: M) -> (Self, Option<ReqId>) {
        if self.is_registered(s) {
            (
                BrokerState {
                    queues: self.queues.insert(s.0, self.queue(s).push((ReqId(self.next_req), m))),
                    next_req: (self.next_req + 1) as usize,
                    ..self
                },
                Some(ReqId(self.next_req)),
            )
        } else {
            (self, None)
        }
    }

    /// Taking: the oldest pending request of a live service leaves its queue.
    pub open spec fn take(self, s: SrvId) -> (Self, Option<(ReqId, M)>) {
        if self.queue(s).len() == 0 {
            (self, None)
        } else {
            (
                BrokerState { queues: self.queues.insert(s.0, self.queue(s).drop_first()), ..self },
                Some(self.queue(s)[0]),
            )
        }
    }

    /// Recording an outcome: the parked handle, if any, is handed back to be woken.
    pub open spec fn respond(self, r: ReqId, out: Option<M>) -> (Self, Option<W>) {
        (
            BrokerState {
                responses: self.responses.insert(r.0, out),
                wakers: self.wakers.remove(r.0),
                ..self
            },
            if self.wakers.contains_key(r.0) {
                Some(self.wakers[r.0])
            } else {
                None
            },
        )
    }

    /// Polling for request `r` to service `s`: `Ok(Some(v))` is a reply,
    /// consumed as it is read; `Ok(None)` is pending, with `w` parked; `Err`
    /// is a declined request or one that no service is left to answer.
    pub open spec fn check(self, s: SrvId, r: ReqId, w: W) -> (Self, Result<Option<M>, ()>) {
        if self.responses.contains_key(r.0) {
            let rest = BrokerState { responses: self.responses.remove(r.0), ..self };
            match self.responses[r.0] {
                Some(v) => (rest, Ok(Some(v))),
                None => (rest, Err(())),
            }
        } else if self.is_registered(s) {
            (BrokerState { wakers: self.wakers.insert(r.0, w), ..self }, Ok(None))
        } else {
            (self, Err(()))
        }
    }

    /// Recording `outs[i]` for each `pending[i]` in turn, and the handles
    /// handed back on the way.
    pub open spec fn respond_all(self, pending: Seq<(ReqId, M)>, outs: Seq<Option<M>>) -> (
        Self,
        Seq<W>,
    )
        decreases pending.len(),
    {
        if pending.len() == 0 {
            (self, Seq::empty())
        } else {
            let (mid, woken) = self.respond_all(pending.drop_last(), outs.drop_last());
            let (last, w) = mid.respond(pending.last().0, outs[pending.len() - 1]);
            match w {
                Some(w) => (last, woken.push(w)),
                None => (last, woken),
            }
        }
    }

    /// A serve pass over service `s` whose handler gave `outs[i]` for the
    /// `i`-th pending request: the queue is emptied and each outcome recorded.
    pub open spec fn serve(self, s: SrvId, outs: Seq<Option<M>>) -> (Self, Seq<W>) {
        BrokerState { queues: self.queues.insert(s.0, Seq::empty()), ..self }.respond_all(
            self.queue(s),
            outs,
        )
    }
}

/// Recording outcomes leaves the queues alone, whatever they hold.
pub proof fn lemma_respond_all_keeps_queues<M, W>(
    st: BrokerState<M, W>,
    qs: Map<usize, Seq<(ReqId, M)>>,
    pending: Seq<(ReqId, M)>,
    outs: Seq<Option<M>>,
)
    ensures
        st.respond_all(pending, outs).0.queues == st.queues,
        st.respond_all(pending, outs).0.next_srv == st.next_srv,
        st.respond_all(pending, outs).0.next_req == st.next_req,
        (BrokerState { queues: qs, ..st }).respond_all(pending, outs) == (
            BrokerState { queues: qs, ..st.respond_all(pending, outs).0 },
            st.respond_all(pending, outs).1,
        ),
    decreases pending.len(),
{
    if pending.len() > 0 {
        lemma_respond_all_keeps_queues(st, qs, pending.drop_last(), outs.drop_last());
    }
}

/// Posting keeps the state well formed.
pub proof fn lemma_post_keeps_wf<M, W>(st: BrokerState<M, W>, s: SrvId, m: M)
    requires
        st.wf(),
        st.is_registered(s) ==> st.next_req < usize::MAX,
    ensures
        st.post(s, m).0.wf(),
{
    if st.is_registered(s) {
        let next = st.post(s, m).0;
        assert forall|k: usize, i: int, j: int|
            next.queues.contains_key(k) && 0 <= i < j < next.queues[k].len()
                implies #[trigger] next.queues[k][i].0.0 < #[trigger] next.queues[k][j].0.0 by {
            if k == s.0 && j == next.queues[k].len() - 1 {
                assert(st.queues[k][i].0.0 < st.next_req);
            } else {
                assert(st.queues[k][i] == next.queues[k][i]);
            }
        }
        assert forall|k1: usize, i: int, k2: usize, j: int|
            next.queues.contains_key(k1) && next.queues.contains_key(k2) && 0 <= i
                < next.queues[k1].len() && 0 <= j < next.queues[k2].len()
                && #[trigger] next.queues[k1][i].0 == #[trigger] next.queues[k2][j].0
            implies k1 == k2 && i == j by {
            let last = st.queue(s).len() as int;
            if k1 == s.0 && i == last {
                if !(k2 == s.0 && j == last) {
                    assert(st.queues[k2][j].0.0 < st.next_req);
                }
            } else if k2 == s.0 && j == last {
                assert(st.queues[k1][i].0.0 < st.next_req);
            } else {
                assert(st.queues[k1][i] == next.queues[k1][i]);
                assert(st.queues[k2][j] == next.queues[k2][j]);
            }
        }
        assert forall|k: usize, i: int|
            next.queues.contains_key(k) && 0 <= i < next.queues[k].len()
                implies !next.responses.contains_key(#[trigger] next.queues[k][i].0.0) by {
            if !(k == s.0 && i == st.queue(s).len()) {
                assert(st.queues[k][i] == next.queues[k][i]);
            }
        }
    }
}

} // verus!

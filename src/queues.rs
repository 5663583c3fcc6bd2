//! The broker's shared state: per-service queues, recorded responses and
//! parked wake handles.
use vstd::prelude::*;

use std::collections::{HashMap, VecDeque};

use crate::ids::{ReqId, SrvId};
use crate::model::BrokerState;

verus! {

broadcast use vstd::std_specs::hash::group_hash_axioms;

/// The broker. `M` is the payload carried by requests and replies, `W` the
/// resumption handle of a suspended caller.
pub struct MessageQueues<M, W> {
    requests: HashMap<usize, VecDeque<(ReqId, M)>>,
    responses: HashMap<usize, Option<M>>,
    wakers: HashMap<usize, W>,
    next_srv_id: SrvId,
    next_req_id: ReqId,
}

impl<M, W> View for MessageQueues<M, W> {
    type V = BrokerState<M, W>;

    closed spec fn view(&self) -> BrokerState<M, W> {
        BrokerState {
            queues: self.requests@.map_values(|q: VecDeque<(ReqId, M)>| q@),
            responses: self.responses@,
            wakers: self.wakers@,
            next_srv: self.next_srv_id.0,
            next_req: self.next_req_id.0,
        }
    }
}

impl<M, W> MessageQueues<M, W> {
    pub open spec fn wf(&self) -> bool {
        self@.wf()
    }

    /// A broker with no service registered.
    pub fn new() -> (r: Self)
        ensures
            r@ == BrokerState::<M, W>::empty(),
            r.wf(),
    {
        let r = MessageQueues {
            requests: HashMap::new(),
            responses: HashMap::new(),
            wakers: HashMap::new(),
            next_srv_id: SrvId(0),
            next_req_id: ReqId(0),
        };
        assert(r@.queues =~= Map::empty());
        r
    }

    /// Whether `srv_id` names a live service.
    pub fn is_registered(&self, srv_id: SrvId) -> (r: bool)
        ensures
            r == self@.is_registered(srv_id),
    {
        self.requests.contains_key(&srv_id.0)
    }

    /// Whether a further service id is left to hand out.
    pub fn can_register(&self) -> (r: bool)
        ensures
            r == (self@.next_srv < usize::MAX),
    {
        self.next_srv_id.0 < usize::MAX
    }

    /// Whether a further request id is left to hand out.
    pub fn can_post(&self) -> (r: bool)
        ensures
            r == (self@.next_req < usize::MAX),
    {
        self.next_req_id.0 < usize::MAX
    }

    /// Allocates the next service id and gives it an empty queue.
    pub fn register(&mut self) -> (r: SrvId)
        requires
            old(self).wf(),
            old(self)@.next_srv < usize::MAX,
        ensures
            final(self).wf(),
            (final(self)@, r) == old(self)@.register(),
    {
        let id = self.next_srv_id;
        self.requests.insert(id.0, VecDeque::new());
        self.next_srv_id = self.next_srv_id.next();
        proof {
            assert(self@.queues =~= old(self)@.register().0.queues);
        }
        id
    }

    /// Removes the service's queue; requests still in it are dropped. Does
    /// nothing where `srv_id` is not registered.
    pub fn unregister(&mut self, srv_id: SrvId)
        requires
            old(self).wf(),
        ensures
            final(self).wf(),
            final(self)@ == old(self)@.unregister(srv_id),
    {
        self.requests.remove(&srv_id.0);
        proof {
            assert(self@.queues =~= old(self)@.unregister(srv_id).queues);
        }
    }

    /// Appends `request` to the tail of a live service's queue under a fresh
    /// request id and returns that id; `None` where `srv_id` is not registered.
    pub fn post_request(&mut self, srv_id: SrvId, request: M) -> (r: Option<ReqId>)
        requires
            old(self).wf(),
            old(self)@.is_registered(srv_id) ==> old(self)@.next_req < usize::MAX,
        ensures
            final(self).wf(),
            (final(self)@, r) == old(self)@.post(srv_id, request),
    {
        match self.requests.remove(&srv_id.0) {
            Some(mut queue) => {
                let req_id = self.next_req_id;
                queue.push_back((req_id, request));
                self.requests.insert(srv_id.0, queue);
                self.next_req_id = self.next_req_id.next();
                proof {
                    assert(self@.queues =~= old(self)@.post(srv_id, request).0.queues);
                    crate::model::lemma_post_keeps_wf(old(self)@, srv_id, request);
                }
                Some(req_id)
            },
            None => {
                proof {
                    assert(self@.queues =~= old(self)@.queues);
                }
                None
            },
        }
    }

    /// Pops the oldest pending request of a live service, or `None` where its
    /// queue is empty.
    pub fn take_request(&mut self, srv_id: SrvId) -> (r: Option<(ReqId, M)>)
        requires
            old(self).wf(),
            old(self)@.is_registered(srv_id),
        ensures
            final(self).wf(),
            (final(self)@, r) == old(self)@.take(srv_id),
    {
        let mut queue = self.requests.remove(&srv_id.0).unwrap();
        let r = queue.pop_front();
        self.requests.insert(srv_id.0, queue);
        proof {
            assert(self@.queues =~= old(self)@.take(srv_id).0.queues);
            let st = self@;
            assert forall|k: usize, i: int, j: int|
                st.queues.contains_key(k) && 0 <= i < j < st.queues[k].len()
                    implies #[trigger] st.queues[k][i].0.0 < #[trigger] st.queues[k][j].0.0 by {
                if k == srv_id.0 && r.is_some() {
                    assert(st.queues[k][i] == old(self)@.queues[k][i + 1]);
                    assert(st.queues[k][j] == old(self)@.queues[k][j + 1]);
                }
            }
            assert forall|k: usize, i: int|
                st.queues.contains_key(k) && 0 <= i < st.queues[k].len()
                    implies #[trigger] st.queues[k][i].0.0 < st.next_req by {
                if k == srv_id.0 && r.is_some() {
                    assert(st.queues[k][i] == old(self)@.queues[k][i + 1]);
                }
            }
        }
        r
    }

    /// Records the outcome of request `req_id`: `Some` for a reply, `None` for
    /// a request its service declined. Hands back the wake handle parked for
    /// it, now removed, for the caller to wake.
    pub fn set_response(&mut self, req_id: ReqId, resp: Option<M>) -> (r: Option<W>)
        requires
            old(self).wf(),
            req_id.0 < old(self)@.next_req,
            !old(self)@.is_queued(req_id),
        ensures
            final(self).wf(),
            (final(self)@, r) == old(self)@.respond(req_id, resp),
    {
        self.responses.insert(req_id.0, resp);
        let r = self.wakers.remove(&req_id.0);
        proof {
            assert(self@.responses =~= old(self)@.respond(req_id, resp).0.responses);
            assert(self@.wakers =~= old(self)@.respond(req_id, resp).0.wakers);
        }
        r
    }

    /// Polls for request `req_id` to `srv_id`. A recorded reply is removed and
    /// returned as `Ok(Some(_))`; a recorded refusal is removed and gives
    /// `Err`. With nothing recorded, `waker` is parked for the request and the
    /// result is `Ok(None)` while the service lives, `Err` once it is gone.
    pub fn check_response(&mut self, srv_id: SrvId, req_id: ReqId, waker: W) -> (r: Result<
        Option<M>,
        (),
    >)
        requires
            old(self).wf(),
        ensures
            final(self).wf(),
            (final(self)@, r) == old(self)@.check(srv_id, req_id, waker),
    {
        match self.responses.remove(&req_id.0) {
            Some(Some(resp)) => {
                proof {
                    assert(self@.responses =~= old(self)@.check(srv_id, req_id, waker).0.responses);
                }
                Ok(Some(resp))
            },
            Some(None) => {
                proof {
                    assert(self@.responses =~= old(self)@.check(srv_id, req_id, waker).0.responses);
                }
                Err(())
            },
            None => {
                proof {
                    assert(self@.responses =~= old(self)@.responses);
                }
                if self.requests.contains_key(&srv_id.0) {
                    self.wakers.insert(req_id.0, waker);
                    proof {
                        assert(self@.wakers =~= old(self)@.check(srv_id, req_id, waker).0.wakers);
                    }
                    Ok(None)
                } else {
                    Err(())
                }
            },
        }
    }

    /// `r` lists, by increasing id, exactly the live services with a
    /// non-empty queue, each with its queue.
    pub open spec fn lists_busy_queues(&self, r: Seq<(SrvId, &VecDeque<(ReqId, M)>)>) -> bool {
        &&& forall|i: int|
            0 <= i < r.len() ==> {
                &&& self@.is_registered((#[trigger] r[i]).0)
                &&& r[i].1@ == self@.queue(r[i].0)
                &&& r[i].1@.len() > 0
            }
        &&& forall|i: int, j: int| 0 <= i < j < r.len() ==> (#[trigger] r[i]).0.0 < (#[trigger] r[j]).0.0
        &&& forall|s: SrvId|
            self@.is_registered(s) && self@.queue(s).len() > 0 ==> exists|i: int|
                0 <= i < r.len() && (#[trigger] r[i]).0 == s
    }

    /// `r` lists, by increasing request id, exactly the recorded replies.
    pub open spec fn lists_ready_responses(&self, r: Seq<(ReqId, &M)>) -> bool {
        &&& forall|i: int|
            0 <= i < r.len() ==> {
                &&& self@.responses.contains_key((#[trigger] r[i]).0.0)
                &&& self@.responses[r[i].0.0] == Some(*r[i].1)
            }
        &&& forall|i: int, j: int| 0 <= i < j < r.len() ==> (#[trigger] r[i]).0.0 < (#[trigger] r[j]).0.0
        &&& forall|k: usize|
            self@.responses.contains_key(k) && self@.responses[k] is Some ==> exists|i: int|
                0 <= i < r.len() && (#[trigger] r[i]).0.0 == k
    }

    /// The live services whose queues are not empty, with those queues, in
    /// increasing order of id.
    pub fn busy_queues(&self) -> (r: Vec<(SrvId, &VecDeque<(ReqId, M)>)>)
        requires
            self.wf(),
        ensures
            self.lists_busy_queues(r@),
    {
        let mut r: Vec<(SrvId, &VecDeque<(ReqId, M)>)> = Vec::new();
        let mut k: usize = 0;
        while k < self.next_srv_id.0
            invariant
                self.wf(),
                k <= self.next_srv_id.0,
                forall|i: int|
                    0 <= i < r.len() ==> {
                        &&& self@.is_registered((#[trigger] r@[i]).0)
                        &&& r@[i].1@ == self@.queue(r@[i].0)
                        &&& r@[i].1@.len() > 0
                        &&& r@[i].0.0 < k
                    },
                forall|i: int, j: int| 0 <= i < j < r.len() ==> (#[trigger] r@[i]).0.0 < (#[trigger] r@[j]).0.0,
                forall|s: SrvId|
                    s.0 < k && self@.is_registered(s) && self@.queue(s).len() > 0 ==> exists|i: int|
                        0 <= i < r.len() && (#[trigger] r@[i]).0 == s,
            decreases self.next_srv_id.0 - k,
        {
            let ghost r0 = r@;
            match self.requests.get(&k) {
                Some(queue) => {
                    if queue.len() > 0 {
                        r.push((SrvId(k), queue));
                    }
                },
                None => {},
            }
            proof {
                assert forall|s: SrvId|
                    s.0 < k + 1 && self@.is_registered(s) && self@.queue(s).len() > 0 implies exists|i: int|
                        0 <= i < r.len() && (#[trigger] r@[i]).0 == s by {
                    if s.0 < k {
                        let i = choose|i: int| 0 <= i < r0.len() && (#[trigger] r0[i]).0 == s;
                        assert(r@[i] == r0[i]);
                    } else {
                        assert(r@[r.len() - 1].0 == s);
                    }
                }
            }
            k = k + 1;
        }
        r
    }

    /// The recorded replies not yet read, in increasing order of request id.
    /// Recorded refusals are left out.
    pub fn ready_responses(&self) -> (r: Vec<(ReqId, &M)>)
        requires
            self.wf(),
        ensures
            self.lists_ready_responses(r@),
    {
        let mut r: Vec<(ReqId, &M)> = Vec::new();
        let mut k: usize = 0;
        while k < self.next_req_id.0
            invariant
                self.wf(),
                k <= self.next_req_id.0,
                forall|i: int|
                    0 <= i < r.len() ==> {
                        &&& self@.responses.contains_key((#[trigger] r@[i]).0.0)
                        &&& self@.responses[r@[i].0.0] == Some(*r@[i].1)
                        &&& r@[i].0.0 < k
                    },
                forall|i: int, j: int| 0 <= i < j < r.len() ==> (#[trigger] r@[i]).0.0 < (#[trigger] r@[j]).0.0,
                forall|x: usize|
                    x < k && self@.responses.contains_key(x) && self@.responses[x] is Some ==> exists|i: int|
                        0 <= i < r.len() && (#[trigger] r@[i]).0.0 == x,
            decreases self.next_req_id.0 - k,
        {
            let ghost r0 = r@;
            match self.responses.get(&k) {
                Some(Some(resp)) => {
                    r.push((ReqId(k), resp));
                },
                _ => {},
            }
            proof {
                assert forall|x: usize|
                    x < k + 1 && self@.responses.contains_key(x) && self@.responses[x] is Some implies exists|i: int|
                        0 <= i < r.len() && (#[trigger] r@[i]).0.0 == x by {
                    if x < k {
                        let i = choose|i: int| 0 <= i < r0.len() && (#[trigger] r0[i]).0.0 == x;
                        assert(r@[i] == r0[i]);
                    } else {
                        assert(r@[r.len() - 1].0.0 == x);
                    }
                }
            }
            k = k + 1;
        }
        r
    }
}

} // verus!

//! The service-facing surface of the broker: registration, sending a
//! request and polling for its reply, and draining a service's queue.
use vstd::prelude::*;

use crate::ids::{ReqId, SrvId};
use crate::model::BrokerState;
use crate::queues::MessageQueues;

use std::collections::VecDeque;

verus! {

/// The handle a service holds while it is registered.
#[derive(Debug)]
pub struct ServiceRegistration {
    srv_id: SrvId,
}

impl View for ServiceRegistration {
    type V = SrvId;

    closed spec fn view(&self) -> SrvId {
        self.srv_id
    }
}

impl ServiceRegistration {
    /// The id the service was registered under.
    pub fn id(&self) -> (r: SrvId)
        ensures
            r == self@,
    {
        self.srv_id
    }
}

/// Registers a new service and returns its handle.
pub fn register_service<M, W>(q: &mut MessageQueues<M, W>) -> (r: ServiceRegistration)
    requires
        old(q).wf(),
        old(q)@.next_srv < usize::MAX,
    ensures
        final(q).wf(),
        (final(q)@, r@) == old(q)@.register(),
{
    ServiceRegistration { srv_id: q.register() }
}

/// Ends a service's registration; its queue goes with it.
pub fn deregister_service<M, W>(q: &mut MessageQueues<M, W>, reg: ServiceRegistration)
    requires
        old(q).wf(),
    ensures
        final(q).wf(),
        final(q)@ == old(q)@.unregister(reg@),
{
    q.unregister(reg.srv_id)
}

/// Where a request stands after a poll.
#[derive(Debug)]
pub enum Polled<T> {
    /// The outcome: the reply, or `Err` where none will come.
    Ready(Result<T, ()>),
    /// No outcome yet; the poller's wake handle is parked.
    Pending,
}

/// A request in flight: the service it went to and, where that service was
/// live, the id it was posted under.
#[derive(Clone, Copy, Debug)]
pub struct Request {
    pub srv_id: SrvId,
    pub opt_req_id: Option<ReqId>,
}

impl Request {
    /// A request to `srv_id`, posted under `opt_req_id` if it was posted.
    pub fn new(srv_id: SrvId, opt_req_id: Option<ReqId>) -> (r: Self)
        ensures
            r.srv_id == srv_id,
            r.opt_req_id == opt_req_id,
    {
        Request { srv_id, opt_req_id }
    }

    /// What a poll with wake handle `w` does to state `st`, and its result.
    pub open spec fn poll_spec<M, W>(self, st: BrokerState<M, W>, w: W) -> (
        BrokerState<M, W>,
        Polled<M>,
    ) {
        match self.opt_req_id {
            None => (st, Polled::Ready(Err(()))),
            Some(r) => {
                let (next, c) = st.check(self.srv_id, r, w);
                match c {
                    Ok(Some(v)) => (next, Polled::Ready(Ok(v))),
                    Ok(None) => (next, Polled::Pending),
                    Err(_) => (next, Polled::Ready(Err(()))),
                }
            },
        }
    }

    /// Polls for the reply. A request that was never posted fails at once;
    /// otherwise the broker is consulted as `check_response` describes.
    pub fn poll<M, W>(&self, q: &mut MessageQueues<M, W>, waker: W) -> (r: Polled<M>)
        requires
            old(q).wf(),
        ensures
            final(q).wf(),
            (final(q)@, r) == self.poll_spec(old(q)@, waker),
    {
        match self.opt_req_id {
            Some(req_id) => match q.check_response(self.srv_id, req_id, waker) {
                Ok(Some(resp)) => Polled::Ready(Ok(resp)),
                Ok(None) => Polled::Pending,
                Err(_) => Polled::Ready(Err(())),
            },
            None => Polled::Ready(Err(())),
        }
    }
}

/// Sends `request` to `srv_id`: posts it and returns the request to poll.
pub fn send_request<M, W>(q: &mut MessageQueues<M, W>, srv_id: SrvId, request: M) -> (r: Request)
    requires
        old(q).wf(),
        old(q)@.is_registered(srv_id) ==> old(q)@.next_req < usize::MAX,
    ensures
        final(q).wf(),
        r.srv_id == srv_id,
        (final(q)@, r.opt_req_id) == old(q)@.post(srv_id, request),
{
    let opt_req_id = q.post_request(srv_id, request);
    Request::new(srv_id, opt_req_id)
}

/// Handler `f` may give `outs[i]` for the `i`-th of `pending`.
pub open spec fn handled_by<M, F: Fn(M) -> Option<M>>(
    f: F,
    pending: Seq<(ReqId, M)>,
    outs: Seq<Option<M>>,
) -> bool {
    &&& outs.len() == pending.len()
    &&& forall|i: int| 0 <= i < pending.len() ==> f.ensures((pending[i].1,), #[trigger] outs[i])
}

/// Drains the queue of `srv_id`: each pending request, oldest first, goes to
/// `f`, and its result is recorded as the request's outcome. Returns the wake
/// handles that were parked for the answered requests, in order, to be woken.
pub fn serve_requests<M, W, F: Fn(M) -> Option<M>>(
    q: &mut MessageQueues<M, W>,
    srv_id: SrvId,
    f: F,
) -> (woken: Vec<W>)
    requires
        old(q).wf(),
        old(q)@.is_registered(srv_id),
        forall|m: M| f.requires((m,)),
    ensures
        final(q).wf(),
        exists|outs: Seq<Option<M>>|
            handled_by(f, old(q)@.queue(srv_id), outs) && (final(q)@, woken@) == old(q)@.serve(
                srv_id,
                outs,
            ),
{
    let ghost start = q@;
    let ghost pending = q@.queue(srv_id);
    let ghost base = BrokerState { queues: start.queues.insert(srv_id.0, Seq::empty()), ..start };
    let ghost mut outs: Seq<Option<M>> = Seq::empty();
    let mut woken: Vec<W> = Vec::new();
    proof {
        assert(pending.skip(0) =~= pending);
        assert(start.queues.insert(srv_id.0, pending) =~= start.queues);
        assert(pending.take(0) =~= Seq::empty());
        assert(base.respond_all(Seq::empty(), outs).0 =~= BrokerState { queues: base.queues, ..q@ });
    }
    loop
        invariant
            q.wf(),
            q@.is_registered(srv_id),
            forall|m: M| f.requires((m,)),
            pending == start.queue(srv_id),
            base == (BrokerState { queues: start.queues.insert(srv_id.0, Seq::empty()), ..start }),
            outs.len() <= pending.len(),
            forall|i: int| 0 <= i < outs.len() ==> f.ensures((pending[i].1,), #[trigger] outs[i]),
            q@.queues == start.queues.insert(srv_id.0, pending.skip(outs.len() as int)),
            base.respond_all(pending.take(outs.len() as int), outs) == (
                BrokerState { queues: base.queues, ..q@ },
                woken@,
            ),
        ensures
            outs.len() == pending.len(),
            forall|i: int| 0 <= i < outs.len() ==> f.ensures((pending[i].1,), #[trigger] outs[i]),
            q@.queues == base.queues,
            base.respond_all(pending, outs) == (q@, woken@),
        decreases q@.queue(srv_id).len(),
    {
        let ghost n = outs.len() as int;
        let ghost outs0 = outs;
        let ghost before = q@;
        match q.take_request(srv_id) {
            None => {
                proof {
                    assert(q@.queues[srv_id.0] == pending.skip(n));
                    assert(pending.skip(n).len() == 0);
                    assert(pending.skip(n) =~= Seq::<(ReqId, M)>::empty());
                    assert(pending.take(n) =~= pending);
                    assert(q@ == before);
                    assert(q@.queues == start.queues.insert(srv_id.0, pending.skip(n)));
                    assert(q@.queues =~= base.queues);
                    assert(q@ == BrokerState { queues: base.queues, ..q@ });
                }
                break;
            },
            Some((req_id, req)) => {
                proof {
                    assert(pending.skip(n)[0] == pending[n]);
                    assert(pending.skip(n).drop_first() =~= pending.skip(n + 1));
                }
                let out = f(req);
                let w = q.set_response(req_id, out);
                match w {
                    Some(handle) => woken.push(handle),
                    None => {},
                }
                proof {
                    outs = outs.push(out);
                    assert(pending.take(n + 1).drop_last() =~= pending.take(n));
                    assert(outs.drop_last() =~= outs0);
                    assert(pending.take(n + 1).last() == pending[n]);
                    let mid = BrokerState { queues: base.queues, ..before };
                    assert(base.respond_all(pending.take(n), outs0).0 == mid);
                    let (last, lw) = mid.respond(req_id, out);
                    assert(last == BrokerState { queues: base.queues, ..q@ });
                    assert(lw == w);
                }
            },
        }
    }
    proof {
        assert(handled_by(f, pending, outs));
        assert(start.serve(srv_id, outs) == base.respond_all(pending, outs));
    }
    woken
}

/// The typed reply `f` may give to payload `m`: where `cast` may read `m` as
/// a `t`, whatever `f` may make of `t`; where `cast` may refuse it, `None`.
pub open spec fn typed_reply<M, T, C: Fn(&M) -> Option<T>, F: Fn(T) -> Option<M>>(
    cast: C,
    f: F,
    m: M,
    out: Option<M>,
) -> bool {
    exists|c: Option<T>|
        #[trigger] cast.ensures((&m,), c) && match c {
            Some(t) => f.ensures((t,), out),
            None => out is None,
        }
}

/// Drains the queue of `srv_id` as `serve_requests` does, handing `f` only
/// the payloads that `cast` reads as a `T`. A payload that `cast` refuses is
/// answered with `None`, which its sender sees as a failure: it has left the
/// queue, so a later pass with another cast does not see it.
pub fn serve_requests_typed<M, W, T, C: Fn(&M) -> Option<T>, F: Fn(T) -> Option<M>>(
    q: &mut MessageQueues<M, W>,
    srv_id: SrvId,
    cast: C,
    f: F,
) -> (woken: Vec<W>)
    requires
        old(q).wf(),
        old(q)@.is_registered(srv_id),
        forall|m: &M| cast.requires((m,)),
        forall|t: T| f.requires((t,)),
    ensures
        final(q).wf(),
        exists|outs: Seq<Option<M>>|
            {
                &&& outs.len() == old(q)@.queue(srv_id).len()
                &&& forall|i: int|
                    0 <= i < outs.len() ==> typed_reply(
                        cast,
                        f,
                        old(q)@.queue(srv_id)[i].1,
                        #[trigger] outs[i],
                    )
                &&& (final(q)@, woken@) == old(q)@.serve(srv_id, outs)
            },
{
    let ghost pending = q@.queue(srv_id);
    let cast_ref = &cast;
    let f_ref = &f;
    let handler = |m: M| -> (out: Option<M>)
        requires
            forall|x: &M| (*cast_ref).requires((x,)),
            forall|t: T| (*f_ref).requires((t,)),
        ensures
            typed_reply(*cast_ref, *f_ref, m, out),
        {
            match (*cast_ref)(&m) {
                Some(t) => (*f_ref)(t),
                None => None,
            }
        };
    let woken = serve_requests(q, srv_id, handler);
    proof {
        let outs = choose|outs: Seq<Option<M>>|
            handled_by(handler, pending, outs) && (q@, woken@) == old(q)@.serve(srv_id, outs);
        assert forall|i: int| 0 <= i < outs.len() implies typed_reply(
            cast,
            f,
            pending[i].1,
            #[trigger] outs[i],
        ) by {
            assert(handler.ensures((pending[i].1,), outs[i]));
        }
    }
    woken
}

/// `r` is what reading `answer` as a `T` through `cast` may give.
pub open spec fn typed_outcome<M, T, C: Fn(&M) -> Option<T>>(
    cast: C,
    answer: Result<M, ()>,
    r: Result<T, ()>,
) -> bool {
    match answer {
        Err(_) => r is Err,
        Ok(m) => match r {
            Ok(t) => cast.ensures((&m,), Some(t)),
            Err(_) => cast.ensures((&m,), None),
        },
    }
}

/// Reads a reply as a `T`: a failed request stays a failure, and so does a
/// reply that `cast` refuses.
pub fn typed_response<M, T, C: Fn(&M) -> Option<T>>(answer: Result<M, ()>, cast: C) -> (r: Result<
    T,
    (),
>)
    requires
        forall|m: &M| cast.requires((m,)),
    ensures
        typed_outcome(cast, answer, r),
{
    match answer {
        Ok(m) => match cast(&m) {
            Some(t) => Ok(t),
            None => Err(()),
        },
        Err(_) => Err(()),
    }
}

/// A snapshot for debugging: the non-empty queues of live services, and the
/// replies recorded but not yet read.
pub fn dbg_message_queues<M, W>(q: &MessageQueues<M, W>) -> (r: (
    Vec<(SrvId, &VecDeque<(ReqId, M)>)>,
    Vec<(ReqId, &M)>,
))
    requires
        q.wf(),
    ensures
        q.lists_busy_queues(r.0@),
        q.lists_ready_responses(r.1@),
{
    (q.busy_queues(), q.ready_responses())
}

} // verus!

//! Properties of the broker that relate several operations.
use vstd::prelude::*;

use crate::ids::{ReqId, SrvId};
use crate::model::BrokerState;
use crate::service::{typed_outcome, Polled, Request};

verus! {

/// `n` registrations in a row, and the ids they hand out.
pub open spec fn register_many<M, W>(st: BrokerState<M, W>, n: nat) -> (BrokerState<M, W>, Seq<SrvId>)
    decreases n,
{
    if n == 0 {
        (st, Seq::empty())
    } else {
        let (mid, ids) = register_many(st, (n - 1) as nat);
        let (last, id) = mid.register();
        (last, ids.push(id))
    }
}

/// Registrations hand out strictly increasing ids, so no two are equal, and
/// none of them names a service that was live before.
pub proof fn lemma_register_ids_increase<M, W>(st: BrokerState<M, W>, n: nat)
    requires
        st.wf(),
        st.next_srv + n <= usize::MAX,
    ensures
        register_many(st, n).1.len() == n,
        register_many(st, n).0.wf(),
        register_many(st, n).0.next_srv == st.next_srv + n,
        forall|i: int, j: int|
            0 <= i < j < n ==> (#[trigger] register_many(st, n).1[i]).0
                < (#[trigger] register_many(st, n).1[j]).0,
        forall|i: int| 0 <= i < n ==> !st.is_registered(#[trigger] register_many(st, n).1[i]),
        forall|i: int| 0 <= i < n ==> register_many(st, n).0.is_registered(#[trigger] register_many(st, n).1[i]),
    decreases n,
{
    if n > 0 {
        lemma_register_ids_increase(st, (n - 1) as nat);
        let (mid, ids) = register_many(st, (n - 1) as nat);
        assert forall|i: int| 0 <= i < n - 1 implies ids[i].0 < mid.next_srv by {
            assert(mid.is_registered(ids[i]));
        }
    }
}

/// A request to a service that is not registered is never posted, and every
/// poll of it fails at once, without parking the poller.
pub proof fn lemma_send_to_absent_fails<M, W>(st: BrokerState<M, W>, s: SrvId, m: M, w: W)
    requires
        !st.is_registered(s),
    ensures
        st.post(s, m) == (st, None::<ReqId>),
        (Request { srv_id: s, opt_req_id: st.post(s, m).1 }).poll_spec(st.post(s, m).0, w) == (
            st,
            Polled::<M>::Ready(Err(())),
        ),
{
}

/// Recording outcomes for requests with increasing ids records `outs[i]` for
/// the `i`-th of them.
pub proof fn lemma_respond_all_records<M, W>(
    st: BrokerState<M, W>,
    pending: Seq<(ReqId, M)>,
    outs: Seq<Option<M>>,
)
    requires
        outs.len() == pending.len(),
        forall|i: int, j: int|
            0 <= i < j < pending.len() ==> (#[trigger] pending[i]).0.0 < (#[trigger] pending[j]).0.0,
    ensures
        forall|i: int|
            0 <= i < pending.len() ==> {
                &&& st.respond_all(pending, outs).0.responses.contains_key(
                    (#[trigger] pending[i]).0.0,
                )
                &&& st.respond_all(pending, outs).0.responses[pending[i].0.0] == outs[i]
            },
    decreases pending.len(),
{
    if pending.len() > 0 {
        let front = pending.drop_last();
        lemma_respond_all_records(st, front, outs.drop_last());
        assert forall|i: int| 0 <= i < pending.len() implies {
            &&& st.respond_all(pending, outs).0.responses.contains_key((#[trigger] pending[i]).0.0)
            &&& st.respond_all(pending, outs).0.responses[pending[i].0.0] == outs[i]
        } by {
            let mid = st.respond_all(front, outs.drop_last()).0;
            let k = pending.len() - 1;
            assert(st.respond_all(pending, outs).0 == mid.respond(pending[k].0, outs[k]).0);
            if i < k {
                assert(front[i] == pending[i]);
                assert(outs.drop_last()[i] == outs[i]);
                assert(pending[i].0.0 < pending[k].0.0);
            }
        }
    }
}

/// A serve pass records, for each request that was pending, the outcome the
/// handler gave it.
pub proof fn lemma_serve_records<M, W>(st: BrokerState<M, W>, s: SrvId, outs: Seq<Option<M>>)
    requires
        st.wf(),
        st.is_registered(s),
        outs.len() == st.queue(s).len(),
    ensures
        st.serve(s, outs).0.is_registered(s),
        st.serve(s, outs).0.queue(s).len() == 0,
        forall|i: int|
            0 <= i < st.queue(s).len() ==> {
                &&& st.serve(s, outs).0.responses.contains_key((#[trigger] st.queue(s)[i]).0.0)
                &&& st.serve(s, outs).0.responses[st.queue(s)[i].0.0] == outs[i]
            },
{
    let base = BrokerState { queues: st.queues.insert(s.0, Seq::empty()), ..st };
    crate::model::lemma_respond_all_keeps_queues(base, base.queues, st.queue(s), outs);
    lemma_respond_all_records(base, st.queue(s), outs);
}

/// A reply to a request reaches its sender exactly once: the first poll after
/// the serve pass that answered it returns it, and a later poll finds nothing
/// and waits.
pub proof fn lemma_reply_read_once<M, W>(
    st: BrokerState<M, W>,
    s: SrvId,
    m: M,
    outs: Seq<Option<M>>,
    v: M,
    w1: W,
    w2: W,
)
    requires
        st.wf(),
        st.is_registered(s),
        st.next_req < usize::MAX,
        outs.len() == st.queue(s).len() + 1,
        outs[st.queue(s).len() as int] == Some(v),
    ensures
        ({
            let (posted, opt) = st.post(s, m);
            let req = Request { srv_id: s, opt_req_id: opt };
            let served = posted.serve(s, outs).0;
            let (polled, first) = req.poll_spec(served, w1);
            let (_, second) = req.poll_spec(polled, w2);
            &&& opt is Some
            &&& first == Polled::Ready(Ok(v))
            &&& second == Polled::<M>::Pending
        }),
{
    let (posted, opt) = st.post(s, m);
    let r = ReqId(st.next_req);
    assert(posted.queue(s).len() == st.queue(s).len() + 1);
    assert(posted.queue(s)[st.queue(s).len() as int] == (r, m));
    lemma_serve_records(posted, s, outs);
}

/// Two requests posted to one service get distinct ids, the first posted is
/// the first taken, and one serve pass answers both.
pub proof fn lemma_two_requests_fifo<M, W>(
    st: BrokerState<M, W>,
    s: SrvId,
    m1: M,
    m2: M,
    outs: Seq<Option<M>>,
)
    requires
        st.wf(),
        st.is_registered(s),
        st.next_req + 2 <= usize::MAX,
        outs.len() == st.queue(s).len() + 2,
    ensures
        ({
            let (st1, a) = st.post(s, m1);
            let (st2, b) = st1.post(s, m2);
            let n = st.queue(s).len() as int;
            let served = st2.serve(s, outs).0;
            &&& a is Some && b is Some
            &&& a->0 != b->0
            &&& st2.queue(s) == st.queue(s) + seq![(a->0, m1), (b->0, m2)]
            &&& n == 0 ==> st2.take(s).1 == Some((a->0, m1))
            &&& n == 0 ==> st2.take(s).0.take(s).1 == Some((b->0, m2))
            &&& served.responses.contains_key((a->0).0) && served.responses[(a->0).0] == outs[n]
            &&& served.responses.contains_key((b->0).0) && served.responses[(b->0).0] == outs[n + 1]
        }),
{
    let (st1, a) = st.post(s, m1);
    let (st2, b) = st1.post(s, m2);
    let n = st.queue(s).len() as int;
    assert(st2.queue(s) =~= st.queue(s) + seq![(a->0, m1), (b->0, m2)]);
    assert(st2.queue(s)[n] == (a->0, m1));
    assert(st2.queue(s)[n + 1] == (b->0, m2));
    assert(st2.queue(s).drop_first() =~= st2.queue(s).subrange(1, st2.queue(s).len() as int));
    crate::model::lemma_post_keeps_wf(st, s, m1);
    crate::model::lemma_post_keeps_wf(st1, s, m2);
    lemma_serve_records(st2, s, outs);
}

/// A request whose service is deregistered before it is answered fails when
/// polled; it does not wait.
pub proof fn lemma_deregistered_request_fails<M, W>(st: BrokerState<M, W>, s: SrvId, m: M, w: W)
    requires
        st.wf(),
        st.is_registered(s),
        st.next_req < usize::MAX,
    ensures
        ({
            let (posted, opt) = st.post(s, m);
            let gone = posted.unregister(s);
            let req = Request { srv_id: s, opt_req_id: opt };
            req.poll_spec(gone, w) == (gone, Polled::<M>::Ready(Err(())))
        }),
{
}

/// A reply that the caller's cast cannot read as the expected type is a
/// failure, not a value of that type.
pub proof fn lemma_typed_mismatch_fails<M, T, C: Fn(&M) -> Option<T>>(
    cast: C,
    m: M,
    r: Result<T, ()>,
)
    requires
        forall|c: Option<T>| #[trigger] cast.ensures((&m,), c) ==> c is None,
        typed_outcome(cast, Ok(m), r),
    ensures
        r is Err,
{
    if let Ok(t) = r {
        assert(cast.ensures((&m,), Some(t)));
    }
}

/// No operation moves either id counter backwards, so no id is handed out
/// twice.
pub proof fn lemma_counters_never_decrease<M, W>(
    st: BrokerState<M, W>,
    s: SrvId,
    r: ReqId,
    m: M,
    out: Option<M>,
    w: W,
    outs: Seq<Option<M>>,
)
    requires
        st.wf(),
        st.next_srv < usize::MAX,
        st.next_req < usize::MAX,
    ensures
        st.register().0.next_srv == st.next_srv + 1,
        st.register().0.next_req == st.next_req,
        st.post(s, m).0.next_srv == st.next_srv,
        st.post(s, m).0.next_req >= st.next_req,
        st.take(s).0.next_srv == st.next_srv && st.take(s).0.next_req == st.next_req,
        st.respond(r, out).0.next_srv == st.next_srv && st.respond(r, out).0.next_req == st.next_req,
        st.check(s, r, w).0.next_srv == st.next_srv && st.check(s, r, w).0.next_req == st.next_req,
        st.unregister(s).next_srv == st.next_srv && st.unregister(s).next_req == st.next_req,
        st.serve(s, outs).0.next_srv == st.next_srv && st.serve(s, outs).0.next_req == st.next_req,
{
    let base = BrokerState { queues: st.queues.insert(s.0, Seq::empty()), ..st };
    crate::model::lemma_respond_all_keeps_queues(base, base.queues, st.queue(s), outs);
}

} // verus!

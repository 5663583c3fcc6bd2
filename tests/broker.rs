use std::cell::Cell;

use async_call::{
    dbg_message_queues, deregister_service, register_service, send_request, serve_requests,
    serve_requests_typed, typed_response, MessageQueues, Polled, ReqId, SrvId,
};

#[derive(Clone, Copy, Debug, PartialEq)]
enum Msg {
    SetValue(usize),
    GetValue,
    Value(usize),
    Done,
    Flag(bool),
}

type Broker = MessageQueues<Msg, u32>;

fn as_value(m: &Msg) -> Option<usize> {
    match m {
        Msg::Value(v) => Some(*v),
        _ => None,
    }
}

fn as_flag(m: &Msg) -> Option<bool> {
    match m {
        Msg::Flag(b) => Some(*b),
        _ => None,
    }
}

fn ready_ok(p: Polled<Msg>) -> Option<Msg> {
    match p {
        Polled::Ready(Ok(m)) => Some(m),
        _ => None,
    }
}

fn is_ready_err(p: &Polled<Msg>) -> bool {
    matches!(p, Polled::Ready(Err(())))
}

fn is_pending(p: &Polled<Msg>) -> bool {
    matches!(p, Polled::Pending)
}

#[test]
fn register_ids_are_increasing() {
    let mut q: Broker = MessageQueues::new();
    let a = register_service(&mut q);
    let b = register_service(&mut q);
    let c = register_service(&mut q);
    assert_eq!(a.id(), SrvId(0));
    assert_eq!(b.id(), SrvId(1));
    assert_eq!(c.id(), SrvId(2));
    deregister_service(&mut q, b);
    let d = register_service(&mut q);
    assert_eq!(d.id(), SrvId(3));
    assert!(q.is_registered(SrvId(0)));
    assert!(!q.is_registered(SrvId(1)));
}

#[test]
fn send_to_unknown_service_fails_at_once() {
    let mut q: Broker = MessageQueues::new();
    let req = send_request(&mut q, SrvId(7), Msg::GetValue);
    assert_eq!(req.opt_req_id, None);
    assert!(is_ready_err(&req.poll(&mut q, 1)));
    assert!(is_ready_err(&req.poll(&mut q, 2)));
    // no request id was spent on it
    let s = q.register();
    assert_eq!(q.post_request(s, Msg::GetValue), Some(ReqId(0)));
}

#[test]
fn reply_is_read_exactly_once() {
    let mut q: Broker = MessageQueues::new();
    let s = register_service(&mut q);
    let req = send_request(&mut q, s.id(), Msg::GetValue);
    assert!(is_pending(&req.poll(&mut q, 11)));
    let woken = serve_requests(&mut q, s.id(), |_m: Msg| Some(Msg::Value(42)));
    assert_eq!(woken, vec![11]);
    assert_eq!(ready_ok(req.poll(&mut q, 12)), Some(Msg::Value(42)));
    assert!(is_pending(&req.poll(&mut q, 13)));
}

#[test]
fn two_requests_are_served_in_order() {
    let mut q: Broker = MessageQueues::new();
    let s = register_service(&mut q);
    let first = send_request(&mut q, s.id(), Msg::SetValue(1));
    let second = send_request(&mut q, s.id(), Msg::SetValue(2));
    assert_eq!(first.opt_req_id, Some(ReqId(0)));
    assert_eq!(second.opt_req_id, Some(ReqId(1)));
    let seen = Cell::new(0usize);
    let order = Cell::new(0usize);
    serve_requests(&mut q, s.id(), |m: Msg| match m {
        Msg::SetValue(v) => {
            order.set(order.get() * 10 + v);
            seen.set(seen.get() + 1);
            Some(Msg::Value(v * 100))
        }
        _ => None,
    });
    assert_eq!(seen.get(), 2);
    assert_eq!(order.get(), 12);
    assert_eq!(ready_ok(first.poll(&mut q, 0)), Some(Msg::Value(100)));
    assert_eq!(ready_ok(second.poll(&mut q, 0)), Some(Msg::Value(200)));
}

#[test]
fn take_request_is_fifo() {
    let mut q: Broker = MessageQueues::new();
    let s = q.register();
    assert_eq!(q.post_request(s, Msg::SetValue(5)), Some(ReqId(0)));
    assert_eq!(q.post_request(s, Msg::GetValue), Some(ReqId(1)));
    assert_eq!(q.take_request(s), Some((ReqId(0), Msg::SetValue(5))));
    assert_eq!(q.take_request(s), Some((ReqId(1), Msg::GetValue)));
    assert_eq!(q.take_request(s), None);
}

#[test]
fn deregistering_fails_pending_request() {
    let mut q: Broker = MessageQueues::new();
    let s = register_service(&mut q);
    let id = s.id();
    let req = send_request(&mut q, id, Msg::GetValue);
    assert!(is_pending(&req.poll(&mut q, 3)));
    deregister_service(&mut q, s);
    assert!(is_ready_err(&req.poll(&mut q, 4)));
    assert!(!q.is_registered(id));
}

#[test]
fn typed_send_rejects_other_type() {
    let mut q: Broker = MessageQueues::new();
    let s = register_service(&mut q);
    let req = send_request(&mut q, s.id(), Msg::GetValue);
    serve_requests(&mut q, s.id(), |_m: Msg| Some(Msg::Flag(true)));
    let answer = match req.poll(&mut q, 0) {
        Polled::Ready(a) => a,
        Polled::Pending => panic!("reply was recorded"),
    };
    assert_eq!(answer, Ok(Msg::Flag(true)));
    assert_eq!(typed_response(answer, as_value), Err(()));
    assert_eq!(typed_response(answer, as_flag), Ok(true));
    assert_eq!(typed_response(Err::<Msg, ()>(()), as_flag), Err(()));
}

#[test]
fn typed_serve_declines_other_type() {
    let mut q: Broker = MessageQueues::new();
    let s = register_service(&mut q);
    let good = send_request(&mut q, s.id(), Msg::Value(4));
    let bad = send_request(&mut q, s.id(), Msg::Flag(false));
    serve_requests_typed(&mut q, s.id(), as_value, |v: usize| Some(Msg::Value(v + 1)));
    assert_eq!(ready_ok(good.poll(&mut q, 0)), Some(Msg::Value(5)));
    assert!(is_ready_err(&bad.poll(&mut q, 0)));
}

#[test]
fn set_then_get_scenario() {
    let mut q: Broker = MessageQueues::new();
    let s = register_service(&mut q);
    let value = Cell::new(0usize);
    let set = send_request(&mut q, s.id(), Msg::SetValue(5));
    let get = send_request(&mut q, s.id(), Msg::GetValue);
    serve_requests(&mut q, s.id(), |m: Msg| match m {
        Msg::SetValue(v) => {
            value.set(v);
            Some(Msg::Done)
        }
        Msg::GetValue => Some(Msg::Value(value.get())),
        _ => None,
    });
    assert_eq!(ready_ok(set.poll(&mut q, 0)), Some(Msg::Done));
    let got = match get.poll(&mut q, 0) {
        Polled::Ready(a) => typed_response(a, as_value),
        Polled::Pending => Err(()),
    };
    assert_eq!(got, Ok(5));
}

#[test]
fn send_after_deregister_scenario() {
    let mut q: Broker = MessageQueues::new();
    let s = register_service(&mut q);
    let id = s.id();
    deregister_service(&mut q, s);
    let req = send_request(&mut q, id, Msg::GetValue);
    assert_eq!(req.opt_req_id, None);
    assert!(is_ready_err(&req.poll(&mut q, 0)));
}

#[test]
fn declined_request_fails() {
    let mut q: Broker = MessageQueues::new();
    let s = q.register();
    let r = q.post_request(s, Msg::GetValue).unwrap();
    assert_eq!(q.check_response(s, r, 9), Ok(None));
    assert_eq!(q.take_request(s), Some((r, Msg::GetValue)));
    assert_eq!(q.set_response(r, None), Some(9));
    assert_eq!(q.check_response(s, r, 10), Err(()));
    // consumed: the next poll waits again
    assert_eq!(q.check_response(s, r, 11), Ok(None));
}

#[test]
fn last_waker_wins() {
    let mut q: Broker = MessageQueues::new();
    let s = q.register();
    let r = q.post_request(s, Msg::GetValue).unwrap();
    assert_eq!(q.check_response(s, r, 1), Ok(None));
    assert_eq!(q.check_response(s, r, 2), Ok(None));
    q.take_request(s);
    assert_eq!(q.set_response(r, Some(Msg::Done)), Some(2));
    assert_eq!(q.set_response(r, Some(Msg::Done)), None);
}

#[test]
fn unregister_unknown_is_noop() {
    let mut q: Broker = MessageQueues::new();
    let s = q.register();
    q.unregister(SrvId(5));
    assert!(q.is_registered(s));
    assert!(q.can_register());
    assert!(q.can_post());
}

#[test]
fn debug_snapshot_lists_busy_queues_and_replies() {
    let mut q: Broker = MessageQueues::new();
    let a = q.register();
    let b = q.register();
    let c = q.register();
    q.post_request(a, Msg::GetValue);
    let r = q.post_request(c, Msg::SetValue(3)).unwrap();
    q.post_request(c, Msg::GetValue);
    q.take_request(c);
    q.set_response(r, Some(Msg::Done));
    let rb = q.post_request(b, Msg::GetValue).unwrap();
    q.take_request(b);
    q.set_response(rb, None);
    let (queues, replies) = dbg_message_queues(&q);
    let ids: Vec<SrvId> = queues.iter().map(|(s, _)| *s).collect();
    assert_eq!(ids, vec![a, c]);
    assert_eq!(queues[0].1.len(), 1);
    assert_eq!(queues[1].1.len(), 1);
    assert!(!ids.contains(&b));
    assert_eq!(replies.len(), 1);
    assert_eq!(replies[0].0, r);
    assert_eq!(*replies[0].1, Msg::Done);
}

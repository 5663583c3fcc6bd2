//! An in-process request/response broker.
//!
//! Services register with a shared [`MessageQueues`] directory, callers post
//! requests addressed to a service and poll for the reply, and each service
//! drains its own queue, answering requests in the order they arrived.
//!
//! The broker is generic over the payload `M` and over `W`, the handle that
//! resumes a suspended caller. It never wakes anyone itself: operations that
//! resolve a request hand the parked handles back to the caller, who wakes
//! them once the broker is no longer borrowed.
pub mod ids;
pub mod laws;
pub mod model;
pub mod queues;
pub mod service;

pub use ids::{ReqId, SrvId};
pub use model::BrokerState;
pub use queues::MessageQueues;
pub use service::{
    dbg_message_queues, deregister_service, register_service, send_request, serve_requests,
    serve_requests_typed, typed_response, Polled, Request, ServiceRegistration,
};

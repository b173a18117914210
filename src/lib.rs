//! Supervisor core of a small init process: the service table and its
//! state machine, the decisions of the event loop and of the shutdown
//! coordinator, and the wire codec of the control protocol.

pub mod config;
pub mod ipc;
pub mod proto;
pub mod service;

//! AMQP 0-9-1 wire codec and channel logic.
use vstd::prelude::*;

pub mod error;
pub mod model;
pub mod types;
pub mod frame;
pub mod dispatcher;
pub mod connection;

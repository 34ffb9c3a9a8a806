//! The cloud servers: their directory of service, request queues, leader
//! election and failure handling.

pub mod directory;
pub mod requests;
pub mod node;
pub mod failure;

//! The client program: its cache of other clients' addresses, the access
//! rights it grants and holds on images, its command shell and the messages
//! it exchanges with servers and other clients.

pub mod cache;
pub mod access;
pub mod shell;
pub mod messages;
pub mod files;

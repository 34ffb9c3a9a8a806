//! Verified core of a small peer-to-peer image-sharing cloud: the text
//! protocol between clients and servers, chunked image transfer, the
//! server-side directory of service, request queues, leader election,
//! failure-token handling, client-side access quotas and steganographic
//! hiding of images.

pub mod chunks;
pub mod encoding;
pub mod peer;
pub mod protocol;
pub mod search;
pub mod server;
pub mod steg;
pub mod text;

//! A streaming gateway core: timeline identities and their bus channel names,
//! the bus's framed reply protocol, subscription resolution, and the router
//! that fans bus events out to per-client queues.

pub mod text;
pub mod cache;
pub mod timeline;
pub mod frame;
pub mod receiver;
pub mod user;
pub mod subscription;
pub mod bus;

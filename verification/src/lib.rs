//! A committee scheduler: it partitions a pool of nodes into per-task
//! committees, keeps the latest committee of every task, and fans committee
//! changes out to independent subscribers.

pub mod committee;
pub mod cursor;
pub mod delivery;
pub mod driver;
pub mod hub;
pub mod ident;
pub mod membership;
pub mod node;
pub mod ranking;
pub mod scheduler;
pub mod selection;
pub mod service;
pub mod store;
pub mod subscription;
pub mod task;

//! Message catalog, buffer bookkeeping and orchestration rules of a dataflow
//! daemon: the protocol between a coordinator, per-machine daemons and the
//! node processes that they supervise.
pub mod config;
pub mod ids;
pub mod messages;
pub mod ledger;
pub mod orchestration;
pub mod events;

//! A Kademlia-style distributed hash table engine.
//!
//! The crate holds the verified core of a DHT node: the identifier space and
//! its XOR metric, the routing table of k-buckets, the record and provider
//! store with expiry, the iterative query state machine, and the event-loop
//! dispatcher that ties them together. Transport, discovery and the command
//! line are external collaborators: they hand events in and carry effects out.

pub mod ident;
pub mod keyed;
pub mod parse;
pub mod store;
pub mod routing;
pub mod query;
pub mod node;

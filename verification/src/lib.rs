//! Verified core of the Shivya substrate: the peer-to-peer wire format, the
//! per-node DHT state and inbound decision logic, and the sparse operator
//! structure of the Hodge layer.

pub mod dht;
pub mod node;
pub mod protocol;
pub mod signature;
pub mod sparse;

//! The distributed hash table.

pub mod routing_table;
pub mod search;
pub mod session;

pub use routing_table::{RoutingTable, UpdateNodeError};
pub use search::{FindNodeError, GetPeersNode, GetPeersResult, GetPeersSearch, Lookup};
pub use session::{CallOutcome, DhtSession, UdpOutcome};

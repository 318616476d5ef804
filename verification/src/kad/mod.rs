//! Identifiers, addresses and the routing table of the crawler.

pub mod addr;
pub mod addr_set;
pub mod bucket;
pub mod compact;
pub mod distance;
pub mod nodeid;
pub mod routing_table;

pub use addr::{IpAddr, SocketAddr};
pub use bucket::KBUCKET_SIZE;
pub use nodeid::{InfoHash, NodeId};
pub use routing_table::{RoutingTable, UpdateNodeError};

//! A crawler for the BitTorrent distributed hash table.
//!
//! The library holds the protocol logic: bencoding, Kademlia identifiers and routing
//! tables, KRPC messages, the DHT session, the peer wire protocol with message stream
//! encryption, trackers, and the rules by which the crawler samples, looks up and
//! downloads torrents. Sockets, files and the database are left to the program around it.

pub mod assoc;
pub mod bencode;
pub mod bt;
pub mod bytes;
mod clock;
pub mod crawler;
pub mod decimal;
pub mod dht;
pub mod kad;
pub mod krpc;
mod random;
pub mod storage;
pub mod strings;
pub mod tags;
pub mod tools;
pub mod utp;

pub use kad::InfoHash;
pub use kad::NodeId;

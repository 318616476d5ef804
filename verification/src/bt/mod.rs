//! The peer wire protocol, its encryption, torrents and trackers.

pub mod bt_stream;
pub mod crypto;
pub mod dh;
pub mod ext_messages;
pub mod http_tracker;
pub mod pe_laws;
pub mod pe_stream;
pub mod torrent;
pub mod tracker;
pub mod tracker_manager;
pub mod udp_tracker;

pub use bt_stream::{BtError, BtHandshakeInfo, BtMessage, BtStream, PeerId};
pub use ext_messages::UtMetadataMessage;
pub use http_tracker::HttpTracker;
pub use pe_stream::{PeClient, PeError, PeServer, PeStream};
pub use torrent::Torrent;
pub use tracker::{AnnounceInfo, AnnounceResult, Event, ScrapedItem, TrackerError};
pub use tracker_manager::{AnnounceTask, TrackerManager};
pub use udp_tracker::{UdpTracker, MAX_SCRAPE};

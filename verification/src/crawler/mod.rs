//! Collecting the hashes of torrents and downloading their metadata.

pub mod crawler;
pub mod downloader;
pub mod dual_stack;
pub mod peer_finder;
pub mod recent;
pub mod sampler;

pub use crawler::{Crawler, CrawlerConfig, CrawlerController};
pub use downloader::{Downloader, DownloaderController};
pub use dual_stack::DualStack;
pub use peer_finder::{PeerFinder, PeerFinderConfig, PeerFinderController};
pub use sampler::Sampler;

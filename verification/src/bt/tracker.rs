//! What trackers are asked and what they answer.

use super::bt_stream::PeerId;
use crate::kad::addr::SocketAddr;
use crate::kad::nodeid::InfoHash;
use vstd::prelude::*;
use vstd::string::StringExecFns;

verus! {

/// What happened to a download.
#[derive(Debug, Clone, Copy, PartialEq, Eq, Structural)]
pub enum Event {
    /// Nothing new.
    Empty,
    Completed,
    Started,
    Stopped,
}

/// The number by which an event is known.
pub open spec fn event_code(event: Event) -> u32 {
    match event {
        Event::Empty => 0,
        Event::Completed => 1,
        Event::Started => 2,
        Event::Stopped => 3,
    }
}

impl Event {
    /// The number by which the event is known.
    pub fn code(&self) -> (r: u32)
        ensures
            r == event_code(*self),
    {
        match *self {
            Event::Empty => 0,
            Event::Completed => 1,
            Event::Started => 2,
            Event::Stopped => 3,
        }
    }
}

/// What a peer tells a tracker.
#[derive(Debug, Clone, Copy)]
pub struct AnnounceInfo {
    pub hash: InfoHash,
    pub peer_id: PeerId,
    pub port: u16,
    pub downloaded: u64,
    pub uploaded: u64,
    pub left: u64,
    pub event: Event,
    /// How many peers are wanted; the tracker decides where that is not said.
    pub num_want: Option<u32>,
}

/// What a tracker answers to that.
#[derive(Debug, Clone)]
pub struct AnnounceResult {
    pub interval: u32,
    pub peers: Vec<SocketAddr>,
    /// Not all trackers say how many there are.
    pub seeders: Option<u32>,
    pub leechers: Option<u32>,
    pub completed: Option<u32>,
    pub external_ip: Option<SocketAddr>,
}

/// What a tracker knows of a torrent.
#[derive(Debug, Clone, Copy, PartialEq, Eq, Structural)]
pub struct ScrapedItem {
    pub seeders: u32,
    pub leechers: u32,
    pub completed: u32,
}

/// Why a tracker was of no use.
#[derive(Debug, Clone, PartialEq, Eq)]
pub enum TrackerError {
    /// More torrents were asked for than a request can hold.
    MaxScrapeReached,
    /// The tracker says what is wrong.
    Error(String),
    /// The reply is invalid.
    InvalidReply,
    /// It is not known why.
    Unknown,
    /// There was no reply in time.
    TimedOut,
    /// The tracker cannot do that.
    UnsupporttedOperation,
    /// The network failed; the text says how.
    NetworkError(String),
}

/// Why a tracker was of no use, by the texts.
pub enum Failure {
    MaxScrapeReached,
    Error(Seq<char>),
    InvalidReply,
    Unknown,
    TimedOut,
    UnsupporttedOperation,
    NetworkError(Seq<char>),
}

impl View for TrackerError {
    type V = Failure;

    open spec fn view(&self) -> Failure {
        match *self {
            TrackerError::MaxScrapeReached => Failure::MaxScrapeReached,
            TrackerError::Error(text) => Failure::Error(text@),
            TrackerError::InvalidReply => Failure::InvalidReply,
            TrackerError::Unknown => Failure::Unknown,
            TrackerError::TimedOut => Failure::TimedOut,
            TrackerError::UnsupporttedOperation => Failure::UnsupporttedOperation,
            TrackerError::NetworkError(text) => Failure::NetworkError(text@),
        }
    }
}

impl TrackerError {
    /// What is wrong, in words.
    pub fn message(&self) -> (r: String)
        ensures
            r@ == (match self@ {
                Failure::MaxScrapeReached =>
                    "Invalid request to tracker, we can't send more than 74 scrape requests at once"@,
                Failure::Error(text) => "Error reply from tracker: "@ + text,
                Failure::InvalidReply => "Invalid reply from tracker"@,
                Failure::Unknown => "Unknown error"@,
                Failure::TimedOut => "Request Timed out"@,
                Failure::UnsupporttedOperation =>
                    "This operation is not supported by the tracker"@,
                Failure::NetworkError(text) => "Network error: "@ + text,
            }),
    {
        match self {
            TrackerError::MaxScrapeReached => String::from_str(
                "Invalid request to tracker, we can't send more than 74 scrape requests at once",
            ),
            TrackerError::Error(text) => String::from_str("Error reply from tracker: ").concat(
                text.as_str(),
            ),
            TrackerError::InvalidReply => String::from_str("Invalid reply from tracker"),
            TrackerError::Unknown => String::from_str("Unknown error"),
            TrackerError::TimedOut => String::from_str("Request Timed out"),
            TrackerError::UnsupporttedOperation => String::from_str(
                "This operation is not supported by the tracker",
            ),
            TrackerError::NetworkError(text) => String::from_str("Network error: ").concat(
                text.as_str(),
            ),
        }
    }
}

} // verus!

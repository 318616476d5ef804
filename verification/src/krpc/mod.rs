//! KRPC, the messages that nodes of the DHT exchange.

pub mod context;
pub mod messages;
pub mod nodes;

pub use context::{KrpcContext, KrpcError, KrpcProcess};
pub use messages::{
    AnnouncePeerQuery, AnnouncePeerReply, ErrorReply, FindNodeQuery, FindNodeReply, GetPeersQuery,
    GetPeersReply, KrpcQuery, KrpcReply, Message, PingQuery, PingReply, SampleInfoHashesQuery,
    SampleInfoHashesReply,
};

//! Bencoding, the serialisation that BitTorrent uses.

pub mod fields;
pub mod object;
pub mod value;

pub use object::Dict;
pub use object::Object;

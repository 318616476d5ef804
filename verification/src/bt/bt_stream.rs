//! The peer wire protocol.

use super::pe_stream::PeError;
use crate::bencode::fields::{field, int_field};
use crate::bencode::value::{
    decode, dict_get, dict_insert, encode, law_decode_encode, well_formed, Value,
};
use crate::bencode::{Dict, Object};
use crate::bytes::{
    append_slice, big_endian, big_endian_bytes, bytes_equal, copy_slice,
    lemma_big_endian_bytes_len, lemma_big_endian_round_trip, push_u32, read_u32, sub_slice, text,
};
use crate::decimal::lemma_decimal;
use crate::kad::nodeid::{InfoHash, NodeId};
use crate::krpc::messages::no_entries;
use vstd::prelude::*;

verus! {

/// How long a message is at most.
pub const MAX_MESSAGE_LEN: u32 = 52_428_800;

/// The kinds of messages.
#[derive(Debug, Clone, Copy, PartialEq, Eq, Structural)]
pub enum BtMessageId {
    Choke,
    Unchoke,
    Interested,
    NotInterested,
    Have,
    Bitfield,
    Request,
    Piece,
    Cancel,
    /// A message of an extension.
    Extended,
}

/// A message.
#[derive(Debug, Clone, PartialEq, Eq)]
pub enum BtMessage {
    Choke,
    Unchoke,
    Interested,
    NotInterested,
    Have { piece_index: u32 },
    Bitfield { data: Vec<u8> },
    Request { index: u32, begin: u32, length: u32 },
    Piece { index: u32, begin: u32, block: Vec<u8> },
    Cancel { index: u32, begin: u32, length: u32 },
    /// A message of an extension, with the data that follows its object.
    Extended { id: u8, msg: Object, payload: Vec<u8> },
}

/// What a message is.
pub enum Wire {
    Choke,
    Unchoke,
    Interested,
    NotInterested,
    Have { piece_index: u32 },
    Bitfield { data: Seq<u8> },
    Request { index: u32, begin: u32, length: u32 },
    Piece { index: u32, begin: u32, block: Seq<u8> },
    Cancel { index: u32, begin: u32, length: u32 },
    Extended { id: u8, msg: Value, payload: Seq<u8> },
}

impl View for BtMessage {
    type V = Wire;

    open spec fn view(&self) -> Wire {
        match *self {
            BtMessage::Choke => Wire::Choke,
            BtMessage::Unchoke => Wire::Unchoke,
            BtMessage::Interested => Wire::Interested,
            BtMessage::NotInterested => Wire::NotInterested,
            BtMessage::Have { piece_index } => Wire::Have { piece_index },
            BtMessage::Bitfield { data } => Wire::Bitfield { data: data@ },
            BtMessage::Request { index, begin, length } => Wire::Request { index, begin, length },
            BtMessage::Piece { index, begin, block } => Wire::Piece { index, begin, block: block@ },
            BtMessage::Cancel { index, begin, length } => Wire::Cancel { index, begin, length },
            BtMessage::Extended { id, msg, payload } => Wire::Extended {
                id,
                msg: msg@,
                payload: payload@,
            },
        }
    }
}

/// Why a connection failed.
#[derive(Debug, PartialEq, Eq)]
pub enum BtError {
    /// The encryption handshake failed.
    EncryptionFailed(PeError),
    /// The extension handshake failed.
    ExtHanshakeFailed,
    /// The handshake does not start as it should.
    InvalidProtocolString([u8; 20]),
    /// The handshake is for another torrent.
    InfoHashMismatch(InfoHash),
    /// A message is invalid.
    InvalidMessage,
    /// A message is too long.
    MessageTooLarge,
    /// The peer does not have the extension that is wanted.
    UnsupportedExtension,
    /// A request names no piece.
    NoPieceIndex,
    /// Another error; the text says which.
    UserDefined(String),
    /// The network failed; the text says how.
    NetworkError(String),
}

/// The identifier of a peer.
#[derive(Clone, Debug, Copy)]
pub struct PeerId {
    data: [u8; 20],
}

impl View for PeerId {
    type V = Seq<u8>;

    closed spec fn view(&self) -> Seq<u8> {
        self.data@
    }
}

impl From<[u8; 20]> for PeerId {
    fn from(value: [u8; 20]) -> (r: PeerId)
        ensures
            r@ == value@,
    {
        PeerId { data: value }
    }
}

impl vstd::std_specs::convert::FromSpecImpl<[u8; 20]> for PeerId {
    open spec fn obeys_from_spec() -> bool {
        false
    }

    open spec fn from_spec(value: [u8; 20]) -> PeerId {
        arbitrary()
    }
}

impl PeerId {
    /// An identifier has 20 bytes.
    pub proof fn lemma_len(&self)
        ensures
            self@.len() == 20,
    {
    }

    /// The bytes.
    pub fn as_slice(&self) -> (r: &[u8])
        ensures
            r@ == self@,
    {
        self.data.as_slice()
    }

    /// The identifier with the bytes of a slice, where there are 20.
    pub fn from_slice(slice: &[u8]) -> (r: Option<PeerId>)
        ensures
            match r {
                Some(id) => id@ == slice@,
                None => slice@.len() != 20,
            },
    {
        match NodeId::from_slice(slice) {
            Some(id) => Some(PeerId { data: id.data }),
            None => None,
        }
    }

    /// A random identifier: any of them may come.
    pub fn rand() -> (r: PeerId) {
        PeerId { data: NodeId::rand().data }
    }

    /// A random identifier that starts as those of this client do.
    pub fn make() -> (r: PeerId)
        ensures
            r@.take(9) == text("-IL00000-"),
    {
        let mut id = PeerId::rand();
        let prefix: &[u8] = "-IL00000-".as_bytes();
        proof {
            reveal_strlit("-IL00000-");
            assert("-IL00000-".is_ascii());
        }
        let mut i: usize = 0;
        while i < 9
            invariant
                i <= 9,
                prefix@.len() == 9,
                prefix@ == text("-IL00000-"),
                forall|j: int| 0 <= j < i ==> id.data@[j] == prefix@[j],
            decreases 9 - i,
        {
            id.data[i] = prefix[i];
            i += 1;
        }
        assert(id@.take(9) =~= prefix@);
        id
    }
}

/// What a peer says of itself in the handshakes.
#[derive(Clone, Debug)]
pub struct BtHandshakeInfo {
    pub hash: InfoHash,
    pub peer_id: PeerId,
    /// The extensions: a dictionary in which `m` holds their numbers.
    pub extensions: Option<Object>,
}

/// What a peer asks for in the first handshake.
#[derive(Clone, Debug)]
pub struct BtHandshakeRequest {
    pub hash: InfoHash,
    pub peer_id: PeerId,
    pub extensions: bool,
}

/// The extensions, where there are any.
pub open spec fn extensions_view(extensions: Option<Object>) -> Option<Value> {
    match extensions {
        Some(object) => Some(object@),
        None => None,
    }
}

/// The number of an extension.
pub open spec fn extension_number(extensions: Option<Value>, key: Seq<u8>) -> Option<u8> {
    match extensions {
        Some(v) => match field(v, text("m")) {
            Some(m) => match int_field(m, key) {
                Some(id) => if 0 <= id <= 255 {
                    Some(id as u8)
                } else {
                    None
                },
                None => None,
            },
            None => None,
        },
        None => None,
    }
}

/// The extensions in which the number of one is set.
pub open spec fn with_extension(extensions: Option<Value>, key: Seq<u8>, id: u8) -> Value {
    let d = match extensions {
        Some(v) => v->Dict_0,
        None => dict_insert(no_entries(), text("m"), Value::Dict(no_entries())),
    };
    let m = dict_get(d, text("m"))->Some_0->Dict_0;
    Value::Dict(dict_insert(d, text("m"), Value::Dict(dict_insert(m, key, Value::Int(id as i64)))))
}

/// Whether the number of an extension can be set: there is a dictionary of numbers, or
/// there is nothing yet.
pub open spec fn can_set_extension(extensions: Option<Value>) -> bool {
    match extensions {
        Some(v) => v is Dict && (dict_get(v->Dict_0, text("m")) matches Some(m) && m is Dict),
        None => true,
    }
}

impl BtHandshakeInfo {
    /// The number of the extension that exchanges peers.
    pub fn pex_id(&self) -> (r: Option<u8>)
        ensures
            r == extension_number(extensions_view(self.extensions), text("ut_pex")),
    {
        self.extension_id("ut_pex".as_bytes())
    }

    /// The number of the extension that exchanges metadata.
    pub fn metadata_id(&self) -> (r: Option<u8>)
        ensures
            r == extension_number(extensions_view(self.extensions), text("ut_metadata")),
    {
        self.extension_id("ut_metadata".as_bytes())
    }

    /// The number of an extension.
    pub fn extension_id(&self, key: &[u8]) -> (r: Option<u8>)
        ensures
            r == extension_number(extensions_view(self.extensions), key@),
    {
        match &self.extensions {
            Some(extensions) => match extensions.field("m") {
                Some(m) => match m.get(key) {
                    Some(value) => match value.as_int() {
                        Some(id) => {
                            if *id < 0 || *id > 255 {
                                return None;
                            }
                            Some(*id as u8)
                        },
                        None => None,
                    },
                    None => None,
                },
                None => None,
            },
            None => None,
        }
    }

    /// The size of the metadata.
    pub fn metadata_size(&self) -> (r: Option<u64>)
        ensures
            r == (match extensions_view(self.extensions) {
                Some(v) => match int_field(v, text("metadata_size")) {
                    Some(size) => if size >= 0 {
                        Some(size as u64)
                    } else {
                        None
                    },
                    None => None,
                },
                None => None,
            }),
    {
        match &self.extensions {
            Some(extensions) => match extensions.int_field("metadata_size") {
                Some(size) => {
                    if size < 0 {
                        return None;
                    }
                    Some(size as u64)
                },
                None => None,
            },
            None => None,
        }
    }

    /// Sets the number of an extension.
    pub fn set_extension_id(&mut self, key: &[u8], id: u8)
        requires
            can_set_extension(extensions_view(old(self).extensions)),
        ensures
            extensions_view(final(self).extensions) == Some(
                with_extension(extensions_view(old(self).extensions), key@, id),
            ),
            final(self).hash == old(self).hash,
            final(self).peer_id == old(self).peer_id,
    {
        broadcast use Object::lemma_view;

        let mut dict = match self.extensions.take() {
            Some(Object::Dict(dict)) => dict,
            _ => {
                let mut dict = Dict::new();
                dict.set("m", Object::Dict(Dict::new()));
                proof {
                    crate::krpc::messages::lemma_inserted(
                        no_entries(),
                        text("m"),
                        Value::Dict(no_entries()),
                    );
                }
                dict
            },
        };
        let mut m = match dict.get("m".as_bytes()) {
            Some(m) => match m.clone() {
                Object::Dict(m) => m,
                _ => Dict::new(),
            },
            None => Dict::new(),
        };
        m.insert(copy_slice(key), Object::Int(id as i64));
        dict.set("m", Object::Dict(m));
        self.extensions = Some(Object::Dict(dict));
    }

    /// Sets the number of the extension that exchanges peers.
    pub fn set_pex_id(&mut self, id: u8)
        requires
            can_set_extension(extensions_view(old(self).extensions)),
        ensures
            extensions_view(final(self).extensions) == Some(
                with_extension(extensions_view(old(self).extensions), text("ut_pex"), id),
            ),
            final(self).hash == old(self).hash,
            final(self).peer_id == old(self).peer_id,
    {
        self.set_extension_id("ut_pex".as_bytes(), id);
    }

    /// Sets the number of the extension that exchanges metadata.
    pub fn set_metadata_id(&mut self, id: u8)
        requires
            can_set_extension(extensions_view(old(self).extensions)),
        ensures
            extensions_view(final(self).extensions) == Some(
                with_extension(extensions_view(old(self).extensions), text("ut_metadata"), id),
            ),
            final(self).hash == old(self).hash,
            final(self).peer_id == old(self).peer_id,
    {
        self.set_extension_id("ut_metadata".as_bytes(), id);
    }
}

/// The number of an extension is what it was set to, the others are unchanged, and more
/// can be set.
pub proof fn law_set_extension(extensions: Option<Value>, key: Seq<u8>, id: u8, other: Seq<u8>)
    requires
        can_set_extension(extensions),
    ensures
        ({
            let after = Some(with_extension(extensions, key, id));
            &&& can_set_extension(after)
            &&& extension_number(after, key) == Some(id)
            &&& other != key ==> extension_number(after, other) == extension_number(
                extensions,
                other,
            )
        }),
{
    crate::krpc::messages::lemma_inserted(no_entries(), text("m"), Value::Dict(no_entries()));
    let d = match extensions {
        Some(v) => v->Dict_0,
        None => dict_insert(no_entries(), text("m"), Value::Dict(no_entries())),
    };
    let m = dict_get(d, text("m"))->Some_0->Dict_0;
    let m2 = dict_insert(m, key, Value::Int(id as i64));
    crate::krpc::messages::lemma_inserted(m, key, Value::Int(id as i64));
    crate::krpc::messages::lemma_inserted(d, text("m"), Value::Dict(m2));
}

/// The byte by which a kind of message is known.
pub open spec fn id_code(id: BtMessageId) -> u8 {
    match id {
        BtMessageId::Choke => 0,
        BtMessageId::Unchoke => 1,
        BtMessageId::Interested => 2,
        BtMessageId::NotInterested => 3,
        BtMessageId::Have => 4,
        BtMessageId::Bitfield => 5,
        BtMessageId::Request => 6,
        BtMessageId::Piece => 7,
        BtMessageId::Cancel => 8,
        BtMessageId::Extended => 20,
    }
}

/// The kind of message that a byte stands for.
pub open spec fn id_of_code(code: u8) -> Option<BtMessageId> {
    match code {
        0 => Some(BtMessageId::Choke),
        1 => Some(BtMessageId::Unchoke),
        2 => Some(BtMessageId::Interested),
        3 => Some(BtMessageId::NotInterested),
        4 => Some(BtMessageId::Have),
        5 => Some(BtMessageId::Bitfield),
        6 => Some(BtMessageId::Request),
        7 => Some(BtMessageId::Piece),
        8 => Some(BtMessageId::Cancel),
        20 => Some(BtMessageId::Extended),
        _ => None,
    }
}

impl BtMessageId {
    /// The byte by which this kind of message is known.
    pub fn code(&self) -> (r: u8)
        ensures
            r == id_code(*self),
    {
        match *self {
            BtMessageId::Choke => 0,
            BtMessageId::Unchoke => 1,
            BtMessageId::Interested => 2,
            BtMessageId::NotInterested => 3,
            BtMessageId::Have => 4,
            BtMessageId::Bitfield => 5,
            BtMessageId::Request => 6,
            BtMessageId::Piece => 7,
            BtMessageId::Cancel => 8,
            BtMessageId::Extended => 20,
        }
    }
}

impl TryFrom<u8> for BtMessageId {
    type Error = BtError;

    fn try_from(value: u8) -> (r: Result<BtMessageId, BtError>) {
        match value {
            0 => Ok(BtMessageId::Choke),
            1 => Ok(BtMessageId::Unchoke),
            2 => Ok(BtMessageId::Interested),
            3 => Ok(BtMessageId::NotInterested),
            4 => Ok(BtMessageId::Have),
            5 => Ok(BtMessageId::Bitfield),
            6 => Ok(BtMessageId::Request),
            7 => Ok(BtMessageId::Piece),
            8 => Ok(BtMessageId::Cancel),
            20 => Ok(BtMessageId::Extended),
            _ => Err(BtError::InvalidMessage),
        }
    }
}

impl vstd::std_specs::convert::TryFromSpecImpl<u8> for BtMessageId {
    open spec fn obeys_try_from_spec() -> bool {
        true
    }

    open spec fn try_from_spec(value: u8) -> Result<BtMessageId, BtError> {
        match id_of_code(value) {
            Some(id) => Ok(id),
            None => Err(BtError::InvalidMessage),
        }
    }
}

/// The kind of a message.
pub open spec fn wire_id(m: Wire) -> BtMessageId {
    match m {
        Wire::Choke => BtMessageId::Choke,
        Wire::Unchoke => BtMessageId::Unchoke,
        Wire::Interested => BtMessageId::Interested,
        Wire::NotInterested => BtMessageId::NotInterested,
        Wire::Have { .. } => BtMessageId::Have,
        Wire::Bitfield { .. } => BtMessageId::Bitfield,
        Wire::Request { .. } => BtMessageId::Request,
        Wire::Piece { .. } => BtMessageId::Piece,
        Wire::Cancel { .. } => BtMessageId::Cancel,
        Wire::Extended { .. } => BtMessageId::Extended,
    }
}

/// Whether a kind of message can be written and read: not one that asks for data, sends
/// it or takes a request back.
pub open spec fn supported(id: BtMessageId) -> bool {
    !(id is Request) && !(id is Piece) && !(id is Cancel)
}

/// What follows the kind of a message.
pub open spec fn wire_payload(m: Wire) -> Seq<u8> {
    match m {
        Wire::Have { piece_index } => big_endian_bytes(piece_index as nat, 4),
        Wire::Bitfield { data } => data,
        Wire::Extended { id, msg, payload } => seq![id] + encode(msg) + payload,
        _ => seq![],
    }
}

/// A message: its length, its kind, and what follows. The length is kept to 32 bits.
pub open spec fn wire_bytes(m: Wire) -> Seq<u8> {
    big_endian_bytes(wire_payload(m).len() + 1, 4) + seq![id_code(wire_id(m))] + wire_payload(m)
}

/// What came of reading a message, by its parts.
pub enum Decoded {
    Message(Wire),
    Invalid,
    TooLarge,
}

/// What a result of reading a message is.
pub open spec fn decoded_view(r: Result<BtMessage, BtError>) -> Decoded {
    match r {
        Ok(message) => Decoded::Message(message@),
        Err(BtError::MessageTooLarge) => Decoded::TooLarge,
        Err(_) => Decoded::Invalid,
    }
}

/// What a message of a kind says.
pub open spec fn decode_payload(id: BtMessageId, payload: Seq<u8>) -> Decoded {
    match id {
        BtMessageId::Choke => Decoded::Message(Wire::Choke),
        BtMessageId::Unchoke => Decoded::Message(Wire::Unchoke),
        BtMessageId::Interested => Decoded::Message(Wire::Interested),
        BtMessageId::NotInterested => Decoded::Message(Wire::NotInterested),
        BtMessageId::Have => if payload.len() == 4 {
            Decoded::Message(Wire::Have { piece_index: big_endian(payload) as u32 })
        } else {
            Decoded::Invalid
        },
        BtMessageId::Bitfield => Decoded::Message(Wire::Bitfield { data: payload }),
        BtMessageId::Extended => if payload.len() < 3 {
            Decoded::Invalid
        } else {
            match decode(payload.skip(1)) {
                Some((msg, left)) => Decoded::Message(
                    Wire::Extended { id: payload[0], msg, payload: left },
                ),
                None => Decoded::Invalid,
            }
        },
        _ => arbitrary(),
    }
}

/// What a message says.
pub open spec fn decode_wire(bytes: Seq<u8>) -> Decoded {
    if bytes.len() < 5 {
        Decoded::Invalid
    } else {
        let len = big_endian(bytes.take(4));
        match id_of_code(bytes[4]) {
            None => Decoded::Invalid,
            Some(id) => if len < 1 {
                Decoded::Invalid
            } else if len > MAX_MESSAGE_LEN {
                Decoded::TooLarge
            } else {
                decode_payload(id, bytes.skip(5))
            },
        }
    }
}

/// Whether a message can be read: it is refused, or it is of a supported kind.
pub open spec fn readable_wire(bytes: Seq<u8>) -> bool {
    bytes.len() >= 5 && 1 <= big_endian(bytes.take(4)) <= MAX_MESSAGE_LEN ==> (id_of_code(
        bytes[4],
    ) matches Some(id) ==> supported(id))
}

impl BtMessage {
    /// The kind of the message.
    pub fn id(&self) -> (r: BtMessageId)
        ensures
            r == wire_id(self@),
    {
        match self {
            BtMessage::Choke => BtMessageId::Choke,
            BtMessage::Unchoke => BtMessageId::Unchoke,
            BtMessage::Interested => BtMessageId::Interested,
            BtMessage::NotInterested => BtMessageId::NotInterested,
            BtMessage::Have { .. } => BtMessageId::Have,
            BtMessage::Bitfield { .. } => BtMessageId::Bitfield,
            BtMessage::Request { .. } => BtMessageId::Request,
            BtMessage::Piece { .. } => BtMessageId::Piece,
            BtMessage::Cancel { .. } => BtMessageId::Cancel,
            BtMessage::Extended { .. } => BtMessageId::Extended,
        }
    }

    /// Appends the message.
    pub fn encode_to(&self, out: &mut Vec<u8>)
        requires
            supported(wire_id(self@)),
        ensures
            final(out)@ == old(out)@ + wire_bytes(self@),
    {
        let mut payload: Vec<u8> = Vec::new();
        match self {
            BtMessage::Have { piece_index } => {
                push_u32(&mut payload, *piece_index);
            },
            BtMessage::Bitfield { data } => {
                append_slice(&mut payload, data.as_slice());
            },
            BtMessage::Extended { id, msg, payload: data } => {
                payload.push(*id);
                msg.encode_to(&mut payload);
                append_slice(&mut payload, data.as_slice());
            },
            _ => {},
        }
        assert(payload@ =~= wire_payload(self@));
        let len: u32 = ((payload.len() as u128 + 1) % 0x1_0000_0000) as u32;
        proof {
            crate::bytes::lemma_big_endian_low((payload@.len() + 1) as nat, 4);
            assert(vstd::arithmetic::power::pow(256, 4) == 0x1_0000_0000) by {
                reveal_with_fuel(vstd::arithmetic::power::pow, 5);
            }
        }
        push_u32(out, len);
        out.push(self.id().code());
        append_slice(out, payload.as_slice());
        assert(out@ =~= old(out)@ + wire_bytes(self@));
    }

    /// Whether a message can be read: it is refused, or it is of a supported kind.
    pub fn can_decode(bytes: &[u8]) -> (r: bool)
        ensures
            r == readable_wire(bytes@),
    {
        if bytes.len() < 5 {
            return true;
        }
        let len: u32 = read_u32(bytes, 0);
        assert(bytes@.subrange(0, 4) =~= bytes@.take(4));
        if len < 1 || len > MAX_MESSAGE_LEN {
            return true;
        }
        !(bytes[4] == 6 || bytes[4] == 7 || bytes[4] == 8)
    }

    /// Reads a message.
    pub fn decode(bytes: &[u8]) -> (r: Result<BtMessage, BtError>)
        requires
            readable_wire(bytes@),
        ensures
            decoded_view(r) == decode_wire(bytes@),
            r matches Err(e) ==> e == BtError::InvalidMessage || e == BtError::MessageTooLarge,
    {
        if bytes.len() < 5 {
            return Err(BtError::InvalidMessage);
        }
        let len: u32 = read_u32(bytes, 0);
        assert(bytes@.subrange(0, 4) =~= bytes@.take(4));
        let id: BtMessageId = match BtMessageId::try_from(bytes[4]) {
            Ok(id) => id,
            Err(_) => {
                return Err(BtError::InvalidMessage);
            },
        };
        if len < 1 {
            return Err(BtError::InvalidMessage);
        }
        if len > MAX_MESSAGE_LEN {
            return Err(BtError::MessageTooLarge);
        }
        let payload: &[u8] = sub_slice(bytes, 5, bytes.len());
        assert(payload@ =~= bytes@.skip(5));
        match id {
            BtMessageId::Choke => Ok(BtMessage::Choke),
            BtMessageId::Unchoke => Ok(BtMessage::Unchoke),
            BtMessageId::Interested => Ok(BtMessage::Interested),
            BtMessageId::NotInterested => Ok(BtMessage::NotInterested),
            BtMessageId::Have => {
                if payload.len() != 4 {
                    return Err(BtError::InvalidMessage);
                }
                assert(payload@.subrange(0, 4) =~= payload@);
                Ok(BtMessage::Have { piece_index: read_u32(payload, 0) })
            },
            BtMessageId::Bitfield => Ok(BtMessage::Bitfield { data: copy_slice(payload) }),
            BtMessageId::Extended => {
                if payload.len() < 3 {
                    return Err(BtError::InvalidMessage);
                }
                let ext_id: u8 = payload[0];
                let rest: &[u8] = sub_slice(payload, 1, payload.len());
                assert(rest@ =~= payload@.skip(1));
                match Object::decode(rest) {
                    Some((msg, left)) => Ok(
                        BtMessage::Extended { id: ext_id, msg, payload: copy_slice(left) },
                    ),
                    None => Err(BtError::InvalidMessage),
                }
            },
            _ => Err(BtError::InvalidMessage),
        }
    }
}

/// An encoded value has at least two bytes.
proof fn lemma_encode_len(v: Value)
    ensures
        encode(v).len() >= 2,
{
    if let Value::Str(s) = v {
        lemma_decimal(s.len());
    }
}

/// A message that is not too long is read back as it was written.
pub proof fn law_wire_round_trip(m: Wire)
    requires
        supported(wire_id(m)),
        wire_payload(m).len() + 1 <= MAX_MESSAGE_LEN,
        m matches Wire::Extended { msg, .. } ==> well_formed(msg),
    ensures
        decode_wire(wire_bytes(m)) == Decoded::Message(m),
        readable_wire(wire_bytes(m)),
{
    let s = wire_bytes(m);
    let p = wire_payload(m);
    let n = (p.len() + 1) as nat;
    assert(vstd::arithmetic::power::pow(256, 4) == 0x1_0000_0000) by {
        reveal_with_fuel(vstd::arithmetic::power::pow, 5);
    }
    lemma_big_endian_bytes_len(n, 4);
    lemma_big_endian_round_trip(n, 4);
    assert(s.take(4) =~= big_endian_bytes(n, 4));
    assert(s[4] == id_code(wire_id(m)));
    assert(s.skip(5) =~= p);
    match m {
        Wire::Have { piece_index } => {
            lemma_big_endian_bytes_len(piece_index as nat, 4);
            lemma_big_endian_round_trip(piece_index as nat, 4);
        },
        Wire::Extended { id, msg, payload } => {
            law_decode_encode(msg, payload);
            lemma_encode_len(msg);
            assert(p.skip(1) =~= encode(msg) + payload);
        },
        _ => {},
    }
}

/// The first handshake: the name of the protocol, the extensions, the torrent and the peer.
pub open spec fn handshake_bytes(hash: Seq<u8>, peer_id: Seq<u8>, extensions: bool) -> Seq<u8> {
    let flags = if extensions {
        seq![0u8, 0, 0, 0, 0, 0x10, 0, 0]
    } else {
        seq![0u8, 0, 0, 0, 0, 0, 0, 0]
    };
    seq![19u8] + text("BitTorrent protocol") + flags + hash + peer_id
}

/// Whether a handshake starts as it should.
pub open spec fn known_protocol(s: Seq<u8>) -> bool {
    s.take(20) == seq![19u8] + text("BitTorrent protocol")
}

/// The first handshake of a peer that says that of itself.
pub fn write_handshake(info: &BtHandshakeInfo) -> (r: Vec<u8>)
    ensures
        r@ == handshake_bytes(info.hash@, info.peer_id@, info.extensions is Some),
{
    let mut buffer: Vec<u8> = Vec::new();
    buffer.push(19);
    append_slice(&mut buffer, "BitTorrent protocol".as_bytes());
    let mut flags: [u8; 8] = [0u8;8];
    if info.extensions.is_some() {
        flags[5] = 0x10;
        assert(flags@ =~= seq![0u8, 0, 0, 0, 0, 0x10, 0, 0]);
    } else {
        assert(flags@ =~= seq![0u8, 0, 0, 0, 0, 0, 0, 0]);
    }
    append_slice(&mut buffer, flags.as_slice());
    append_slice(&mut buffer, info.hash.as_slice());
    append_slice(&mut buffer, info.peer_id.as_slice());
    assert(buffer@ =~= handshake_bytes(info.hash@, info.peer_id@, info.extensions is Some));
    buffer
}

/// Reads the first handshake of a peer.
pub fn read_handshake(buffer: &[u8]) -> (r: Result<BtHandshakeRequest, BtError>)
    requires
        buffer@.len() == 68,
    ensures
        match r {
            Ok(request) => handshake_read(buffer@, request),
            Err(e) => !known_protocol(buffer@) && (e matches BtError::InvalidProtocolString(s)
                && s@ == buffer@.take(20)),
        },
{
    let mut protocol: Vec<u8> = Vec::new();
    protocol.push(19);
    append_slice(&mut protocol, "BitTorrent protocol".as_bytes());
    assert(protocol@ =~= seq![19u8] + text("BitTorrent protocol"));
    assert(buffer@.subrange(0, 20) =~= buffer@.take(20));
    if !bytes_equal(sub_slice(buffer, 0, 20), protocol.as_slice()) {
        let mut span: [u8; 20] = [0u8;20];
        let mut i: usize = 0;
        while i < 20
            invariant
                i <= 20,
                buffer@.len() == 68,
                forall|j: int| 0 <= j < i ==> span@[j] == buffer@[j],
            decreases 20 - i,
        {
            span[i] = buffer[i];
            i += 1;
        }
        assert(span@ =~= buffer@.take(20));
        return Err(BtError::InvalidProtocolString(span));
    }
    let extensions: bool = buffer[25] & 0x10 != 0;
    match (
        NodeId::from_slice(sub_slice(buffer, 28, 48)),
        PeerId::from_slice(sub_slice(buffer, 48, 68)),
    ) {
        (Some(hash), Some(peer_id)) => Ok(BtHandshakeRequest { hash, peer_id, extensions }),
        _ => {
            assert(false);
            Err(BtError::InvalidMessage)
        },
    }
}

/// Whether reading a first handshake gives a request.
pub open spec fn handshake_read(s: Seq<u8>, request: BtHandshakeRequest) -> bool {
    &&& known_protocol(s)
    &&& request.extensions == (s[25] & 0x10 != 0)
    &&& request.hash@ == s.subrange(28, 48)
    &&& request.peer_id@ == s.subrange(48, 68)
}

/// The first handshake of a peer has 68 bytes, and what is read from it is what the peer
/// says of itself.
pub proof fn law_handshake_round_trip(info: BtHandshakeInfo, request: BtHandshakeRequest)
    ensures
        ({
            let s = handshake_bytes(info.hash@, info.peer_id@, info.extensions is Some);
            &&& s.len() == 68
            &&& known_protocol(s)
            &&& handshake_read(s, request) <==> (request.hash@ == info.hash@ && request.peer_id@
                == info.peer_id@ && request.extensions == info.extensions is Some)
        }),
{
    reveal_strlit("BitTorrent protocol");
    assert("BitTorrent protocol".is_ascii());
    assert(text("BitTorrent protocol").len() == 19);
    info.peer_id.lemma_len();
    let s = handshake_bytes(info.hash@, info.peer_id@, info.extensions is Some);
    assert(s.take(20) =~= seq![19u8] + text("BitTorrent protocol"));
    assert(s.subrange(28, 48) =~= info.hash@);
    assert(s.subrange(48, 68) =~= info.peer_id@);
    assert(0x10u8 & 0x10 != 0) by (bit_vector);
    assert(0u8 & 0x10 == 0) by (bit_vector);
}

/// What is at the start of the data that has come.
pub enum Frame {
    /// The start of a message, or nothing.
    More,
    /// A message of that many bytes, behind empty ones of that many bytes.
    Message(int, int),
    TooLarge,
}

/// The first message in data, behind the empty ones that keep a connection alive.
pub open spec fn frame_of(s: Seq<u8>, at: int) -> Frame
    decreases s.len() - at,
{
    if at < 0 || s.len() - at < 4 {
        Frame::More
    } else {
        let len = big_endian(s.subrange(at, at + 4)) as int;
        if len == 0 {
            frame_of(s, at + 4)
        } else if len > MAX_MESSAGE_LEN {
            Frame::TooLarge
        } else if s.len() - at < len + 4 {
            Frame::More
        } else {
            Frame::Message(at, len + 4)
        }
    }
}

/// Of data that starts with a message which is not too long, that message is cut off whole,
/// and what follows it is left.
pub proof fn law_frame(m: Wire, rest: Seq<u8>)
    requires
        wire_payload(m).len() + 1 <= MAX_MESSAGE_LEN,
    ensures
        ({
            let s = wire_bytes(m) + rest;
            let len = wire_bytes(m).len() as int;
            &&& frame_of(s, 0) == Frame::Message(0, len)
            &&& s.subrange(0, len) == wire_bytes(m)
            &&& s.skip(len) == rest
        }),
{
    let s = wire_bytes(m) + rest;
    let n = (wire_payload(m).len() + 1) as nat;
    assert(vstd::arithmetic::power::pow(256, 4) == 0x1_0000_0000) by {
        reveal_with_fuel(vstd::arithmetic::power::pow, 5);
    }
    lemma_big_endian_bytes_len(n, 4);
    lemma_big_endian_round_trip(n, 4);
    assert(s.subrange(0, 4) =~= big_endian_bytes(n, 4));
    assert(s.subrange(0, wire_bytes(m).len() as int) =~= wire_bytes(m));
    assert(s.skip(wire_bytes(m).len() as int) =~= rest);
}

/// A connection after the handshakes.
#[derive(Debug)]
pub struct BtStream {
    /// What has come and was not used.
    read_buf: Vec<u8>,
    local_info: BtHandshakeInfo,
    peer_info: BtHandshakeInfo,
}

impl BtStream {
    /// What has come and was not used.
    pub closed spec fn unread(&self) -> Seq<u8> {
        self.read_buf@
    }

    /// What this side said of itself.
    pub closed spec fn local(&self) -> BtHandshakeInfo {
        self.local_info
    }

    /// What the other side said of itself.
    pub closed spec fn peer(&self) -> BtHandshakeInfo {
        self.peer_info
    }

    /// What the other side said of itself.
    pub fn peer_info(&self) -> (r: &BtHandshakeInfo)
        ensures
            *r == self.peer(),
    {
        &self.peer_info
    }

    /// What this side said of itself.
    pub fn local_info(&self) -> (r: &BtHandshakeInfo)
        ensures
            *r == self.local(),
    {
        &self.local_info
    }

    /// Checks the handshake with which a server answers a client.
    pub fn client_handshake(info: &BtHandshakeInfo, reply: &[u8]) -> (r: Result<
        BtHandshakeRequest,
        BtError,
    >)
        requires
            reply@.len() == 68,
        ensures
            match r {
                Ok(request) => {
                    &&& known_protocol(reply@)
                    &&& reply@.subrange(28, 48) == info.hash@
                    &&& request.hash == info.hash
                    &&& request.extensions == (reply@[25] & 0x10 != 0)
                    &&& request.peer_id@ == reply@.subrange(48, 68)
                },
                Err(BtError::InfoHashMismatch(hash)) => known_protocol(reply@) && hash@
                    == reply@.subrange(28, 48) && hash != info.hash,
                Err(e) => !known_protocol(reply@) && (e matches BtError::InvalidProtocolString(s)
                    && s@ == reply@.take(20)),
            },
    {
        match read_handshake(reply) {
            Ok(request) => {
                if !(request.hash == info.hash) {
                    return Err(BtError::InfoHashMismatch(request.hash));
                }
                Ok(request)
            },
            Err(e) => Err(e),
        }
    }

    /// Reads the handshake with which a client asks for a torrent.
    pub fn server_handshake(request: &[u8]) -> (r: Result<BtHandshakeRequest, BtError>)
        requires
            request@.len() == 68,
        ensures
            match r {
                Ok(parsed) => {
                    &&& known_protocol(request@)
                    &&& parsed.extensions == (request@[25] & 0x10 != 0)
                    &&& parsed.hash@ == request@.subrange(28, 48)
                    &&& parsed.peer_id@ == request@.subrange(48, 68)
                },
                Err(e) => !known_protocol(request@) && (e matches BtError::InvalidProtocolString(s)
                    && s@ == request@.take(20)),
            },
    {
        read_handshake(request)
    }

    /// The extension handshake to send, where both sides have extensions.
    pub fn extension_handshake(request: &BtHandshakeRequest, info: &BtHandshakeInfo) -> (r: Option<
        Vec<u8>,
    >)
        ensures
            match r {
                Some(bytes) => request.extensions && (extensions_view(info.extensions) matches Some(v)
                    && bytes@ == wire_bytes(Wire::Extended { id: 0, msg: v, payload: seq![] })),
                None => !(request.extensions && info.extensions is Some),
            },
    {
        if !request.extensions {
            return None;
        }
        match &info.extensions {
            Some(extensions) => {
                let message = BtMessage::Extended {
                    id: 0,
                    msg: extensions.clone(),
                    payload: Vec::new(),
                };
                let mut out: Vec<u8> = Vec::new();
                message.encode_to(&mut out);
                assert(message@->Extended_payload =~= seq![]);
                assert(out@ =~= wire_bytes(message@));
                Some(out)
            },
            None => None,
        }
    }

    /// The connection after the handshakes, where `reply` is the message with which the
    /// other side answered the extension handshake, if there was one.
    pub fn build(
        request: BtHandshakeRequest,
        info: BtHandshakeInfo,
        reply: Option<BtMessage>,
    ) -> (r: Result<BtStream, BtError>)
        requires
            reply is Some == (request.extensions && info.extensions is Some),
        ensures
            match r {
                Ok(stream) => {
                    &&& stream.local() == info
                    &&& stream.peer().hash == request.hash
                    &&& stream.peer().peer_id == request.peer_id
                    &&& stream.unread() == Seq::<u8>::empty()
                    &&& match reply {
                        Some(message) => message@ matches Wire::Extended { id, msg, payload }
                            && id == 0 && payload.len() == 0 && extensions_view(
                            stream.peer().extensions,
                        ) == Some(msg),
                        None => stream.peer().extensions is None,
                    }
                },
                Err(e) => e == BtError::ExtHanshakeFailed && (reply matches Some(message) && !(
                message@ matches Wire::Extended { id, msg, payload } && id == 0 && payload.len()
                    == 0)),
            },
    {
        let extensions: Option<Object> = match reply {
            Some(BtMessage::Extended { id, msg, payload }) => {
                if id != 0 || payload.len() > 0 {
                    return Err(BtError::ExtHanshakeFailed);
                }
                Some(msg)
            },
            Some(_) => {
                return Err(BtError::ExtHanshakeFailed);
            },
            None => None,
        };
        let stream = BtStream {
            read_buf: Vec::new(),
            local_info: info,
            peer_info: BtHandshakeInfo {
                hash: request.hash,
                peer_id: request.peer_id,
                extensions,
            },
        };
        assert(stream.unread() =~= Seq::<u8>::empty());
        Ok(stream)
    }

    /// Takes in data that has come.
    pub fn receive(&mut self, data: &[u8])
        ensures
            final(self).unread() == old(self).unread() + data@,
            final(self).local() == old(self).local(),
            final(self).peer() == old(self).peer(),
    {
        append_slice(&mut self.read_buf, data);
    }

    /// The bytes of the next message, where all of them have come.
    pub fn read_message(&mut self) -> (r: Result<Option<Vec<u8>>, BtError>)
        ensures
            final(self).local() == old(self).local(),
            final(self).peer() == old(self).peer(),
            match (r, frame_of(old(self).unread(), 0)) {
                (Ok(Some(bytes)), Frame::Message(at, len)) => {
                    &&& bytes@ == old(self).unread().subrange(at, at + len)
                    &&& final(self).unread() == old(self).unread().skip(at + len)
                },
                (Ok(None), Frame::More) => final(self).unread() == old(self).unread(),
                (Err(e), Frame::TooLarge) => e == BtError::MessageTooLarge && final(self).unread()
                    == old(self).unread(),
                _ => false,
            },
    {
        match next_frame(self.read_buf.as_slice()) {
            Ok(Some((at, len))) => {
                let bytes = copy_slice(sub_slice(self.read_buf.as_slice(), at, at + len));
                let rest = copy_slice(
                    sub_slice(self.read_buf.as_slice(), at + len, self.read_buf.len()),
                );
                assert(rest@ =~= self.read_buf@.skip(at + len));
                self.read_buf = rest;
                Ok(Some(bytes))
            },
            Ok(None) => Ok(None),
            Err(e) => Err(e),
        }
    }

    /// The bytes of a message to send.
    pub fn write_message(&self, message: &BtMessage) -> (r: Vec<u8>)
        requires
            supported(wire_id(message@)),
        ensures
            r@ == wire_bytes(message@),
    {
        let mut out: Vec<u8> = Vec::new();
        message.encode_to(&mut out);
        assert(out@ =~= wire_bytes(message@));
        out
    }
}

/// Where the first message in data stands, behind the empty ones, and how long it is.
pub fn next_frame(data: &[u8]) -> (r: Result<Option<(usize, usize)>, BtError>)
    ensures
        match (r, frame_of(data@, 0)) {
            (Ok(Some((i, n))), Frame::Message(at, len)) => i == at && n == len && i + n
                <= data@.len() && i + n <= usize::MAX,
            (Ok(None), Frame::More) => true,
            (Err(e), Frame::TooLarge) => e == BtError::MessageTooLarge,
            _ => false,
        },
{
    let mut at: usize = 0;
    loop
        invariant
            at <= data@.len(),
            frame_of(data@, 0) == frame_of(data@, at as int),
        decreases data@.len() - at,
    {
        if data.len() - at < 4 {
            return Ok(None);
        }
        let len: u32 = read_u32(data, at);
        if len == 0 {
            at += 4;
            continue ;
        }
        if len > MAX_MESSAGE_LEN {
            return Err(BtError::MessageTooLarge);
        }
        let total: usize = len as usize + 4;
        if data.len() - at < total {
            return Ok(None);
        }
        return Ok(Some((at, total)));
    }
}

/// A message is the number of the bytes behind that number, then the number of its kind and
/// what it says: the piece in four bytes, the data as it is, or the extension, its object and
/// its data.
pub proof fn law_wire(m: Wire)
    requires
        wire_payload(m).len() < 0xffff_ffff,
    ensures
        ({
            let s = wire_bytes(m);
            &&& s.len() >= 5
            &&& big_endian(s.take(4)) == s.len() - 4
            &&& s[4] == (match m {
                Wire::Choke => 0u8,
                Wire::Unchoke => 1,
                Wire::Interested => 2,
                Wire::NotInterested => 3,
                Wire::Have { .. } => 4,
                Wire::Bitfield { .. } => 5,
                Wire::Request { .. } => 6,
                Wire::Piece { .. } => 7,
                Wire::Cancel { .. } => 8,
                Wire::Extended { .. } => 20,
            })
            &&& m matches Wire::Have { piece_index } ==> s.len() == 9 && big_endian(s.skip(5))
                == piece_index
            &&& m matches Wire::Bitfield { data } ==> s.skip(5) == data
            &&& m matches Wire::Extended { id, msg, payload } ==> s[5] == id && s.skip(6) == encode(
                msg,
            ) + payload
            &&& m is Choke || m is Unchoke || m is Interested || m is NotInterested ==> s.len() == 5
        }),
{
    let s = wire_bytes(m);
    let n = (wire_payload(m).len() + 1) as nat;
    assert(vstd::arithmetic::power::pow(256, 4) == 0x1_0000_0000) by {
        reveal_with_fuel(vstd::arithmetic::power::pow, 5);
    }
    lemma_big_endian_bytes_len(n, 4);
    lemma_big_endian_round_trip(n, 4);
    assert(s.take(4) =~= big_endian_bytes(n, 4));
    assert(s.skip(5) =~= wire_payload(m));
    if let Wire::Have { piece_index } = m {
        lemma_big_endian_bytes_len(piece_index as nat, 4);
        lemma_big_endian_round_trip(piece_index as nat, 4);
    }
    if let Wire::Extended { id, msg, payload } = m {
        assert(s.skip(6) =~= encode(msg) + payload);
    }
}

/// The kinds of messages have the numbers from 0 to 8, and 20.
pub proof fn law_message_kinds(code: u8)
    ensures
        id_of_code(code) is Some <==> code <= 8 || code == 20,
        id_of_code(code) matches Some(id) ==> id_code(id) == code,
{
}

/// A message is invalid where it is too short to say what kind it is, is of no kind, or says
/// that it is empty, and else too large where it says that it has more than 50 mebibytes.
pub proof fn law_wire_refused(s: Seq<u8>)
    ensures
        s.len() < 5 ==> decode_wire(s) is Invalid,
        s.len() >= 5 && !(s[4] <= 8 || s[4] == 20) ==> decode_wire(s) is Invalid,
        s.len() >= 5 && big_endian(s.take(4)) == 0 ==> decode_wire(s) is Invalid,
        s.len() >= 5 && (s[4] <= 8 || s[4] == 20) && big_endian(s.take(4)) > 50 * 1024 * 1024
            ==> decode_wire(s) is TooLarge,
        readable_wire(s) && decode_wire(s) is TooLarge ==> s.len() >= 5 && big_endian(s.take(4))
            > 50 * 1024 * 1024,
{
    law_message_kinds(s[4]);
}

/// What a message that can be read says is what follows its kind.
pub proof fn law_wire_read(s: Seq<u8>)
    requires
        readable_wire(s),
        decode_wire(s) is Message,
    ensures
        ({
            let m = decode_wire(s)->Message_0;
            &&& s[4] == id_code(wire_id(m))
            &&& m matches Wire::Have { piece_index } ==> s.len() == 9 && big_endian(s.skip(5))
                == piece_index
            &&& m matches Wire::Bitfield { data } ==> data == s.skip(5)
            &&& m matches Wire::Extended { id, msg, payload } ==> s.len() >= 8 && id == s[5]
                && decode(s.skip(6)) == Some((msg, payload))
        }),
{
    law_message_kinds(s[4]);
    if s.len() >= 6 {
        assert(s.skip(5).skip(1) =~= s.skip(6));
    }
    if s[4] == 4 && s.len() == 9 {
        crate::bytes::lemma_big_endian_bound(s.skip(5));
        assert(vstd::arithmetic::power::pow(256, 4) == 0x1_0000_0000) by {
            reveal_with_fuel(vstd::arithmetic::power::pow, 5);
        }
    }
}

/// The first message is looked for behind four bytes as in what follows them, where these are
/// an empty message.
proof fn lemma_frame_shifted(s: Seq<u8>, front: Seq<u8>, at: int)
    requires
        front.len() == 4,
        0 <= at,
    ensures
        frame_of(front + s, at + 4) == (match frame_of(s, at) {
            Frame::Message(i, n) => Frame::Message(i + 4, n),
            other => other,
        }),
    decreases s.len() - at,
{
    let t = front + s;
    if s.len() - at >= 4 {
        assert(t.subrange(at + 4, at + 8) =~= s.subrange(at, at + 4));
        if big_endian(s.subrange(at, at + 4)) == 0 {
            lemma_frame_shifted(s, front, at + 4);
        }
    }
}

/// An empty message, which keeps a connection alive, is passed over.
pub proof fn law_frame_keep_alive(s: Seq<u8>)
    ensures
        frame_of(seq![0u8, 0, 0, 0] + s, 0) == (match frame_of(s, 0) {
            Frame::Message(at, len) => Frame::Message(at + 4, len),
            other => other,
        }),
{
    let zeros = seq![0u8, 0, 0, 0];
    let t = zeros + s;
    lemma_frame_shifted(s, zeros, 0);
    assert(t.subrange(0, 4) =~= zeros);
    crate::bytes::lemma_big_endian_4(zeros);
}

/// A message of which a part has come is waited for, and one that says that it has more than
/// 50 mebibytes is too large, whatever has come of it.
pub proof fn law_frame_parts(m: Wire, n: int, s: Seq<u8>)
    requires
        wire_payload(m).len() + 1 <= 50 * 1024 * 1024,
        0 <= n < wire_bytes(m).len(),
    ensures
        frame_of(wire_bytes(m).take(n), 0) is More,
        s.len() >= 4 && big_endian(s.take(4)) > 50 * 1024 * 1024 ==> frame_of(s, 0) is TooLarge,
{
    let part = wire_bytes(m).take(n);
    law_wire(m);
    lemma_big_endian_bytes_len((wire_payload(m).len() + 1) as nat, 4);
    if n >= 4 {
        assert(part.subrange(0, 4) =~= wire_bytes(m).take(4));
    }
    if s.len() >= 4 {
        assert(s.subrange(0, 4) =~= s.take(4));
    }
}

/// The first handshake has the length and the name of the protocol in its first 20 bytes,
/// the bit for extensions in the 26th byte and no other in the eight behind, and then the
/// torrent and the peer.
pub proof fn law_handshake_layout(hash: InfoHash, peer_id: PeerId, extensions: bool)
    ensures
        ({
            let s = handshake_bytes(hash@, peer_id@, extensions);
            &&& s.len() == 68
            &&& s[0] == 19
            &&& s.subrange(1, 20) == text("BitTorrent protocol")
            &&& forall|i: int| 20 <= i < 28 && i != 25 ==> #[trigger] s[i] == 0
            &&& s[25] == (if extensions {
                16u8
            } else {
                0
            })
            &&& s.subrange(28, 48) == hash@
            &&& s.subrange(48, 68) == peer_id@
        }),
{
    reveal_strlit("BitTorrent protocol");
    assert("BitTorrent protocol".is_ascii());
    assert(text("BitTorrent protocol").len() == 19);
    peer_id.lemma_len();
    let s = handshake_bytes(hash@, peer_id@, extensions);
    assert(s.subrange(1, 20) =~= text("BitTorrent protocol"));
    assert(s.subrange(28, 48) =~= hash@);
    assert(s.subrange(48, 68) =~= peer_id@);
}

/// What is read from a first handshake stands in its place there.
pub proof fn law_handshake_read(s: Seq<u8>, request: BtHandshakeRequest)
    requires
        s.len() == 68,
        handshake_read(s, request),
    ensures
        s[0] == 19,
        s.subrange(1, 20) == text("BitTorrent protocol"),
        request.extensions <==> s[25] / 16 % 2 == 1,
        request.hash@ == s.subrange(28, 48),
        request.peer_id@ == s.subrange(48, 68),
{
    reveal_strlit("BitTorrent protocol");
    assert("BitTorrent protocol".is_ascii());
    assert(text("BitTorrent protocol").len() == 19);
    assert(s.take(20)[0] == 19);
    assert(s.subrange(1, 20) =~= s.take(20).skip(1));
    assert(s.subrange(1, 20) =~= text("BitTorrent protocol"));
    let b = s[25];
    assert((b & 0x10 != 0) == (b / 16 % 2 == 1)) by (bit_vector);
}

/// The number of an extension is the one under its name in the dictionary under `m`, where
/// it is one of a byte.
pub proof fn law_extension_number(v: Value, m: Value, key: Seq<u8>)
    requires
        field(v, text("m")) == Some(m),
    ensures
        match int_field(m, key) {
            Some(id) if 0 <= id < 256 => extension_number(Some(v), key) matches Some(n) && n == id,
            _ => extension_number(Some(v), key) is None,
        },
        extension_number(None, key) is None,
{
}

/// The first number that is set makes a dictionary in which there is nothing else.
pub proof fn law_first_extension(key: Seq<u8>, id: u8)
    ensures
        with_extension(None, key, id) == Value::Dict(
            seq![(text("m"), Value::Dict(seq![(key, Value::Int(id as i64))]))],
        ),
{
    let none = no_entries();
    let m = text("m");
    reveal_with_fuel(dict_insert, 2);
    reveal_with_fuel(dict_get, 2);
    let first = dict_insert(none, m, Value::Dict(none));
    assert(first =~= seq![(m, Value::Dict(none))]);
    let numbers = dict_insert(none, key, Value::Int(id as i64));
    assert(numbers =~= seq![(key, Value::Int(id as i64))]);
    let r = dict_insert(first, m, Value::Dict(numbers));
    assert(r =~= seq![(m, Value::Dict(numbers))]);
}

} // verus!

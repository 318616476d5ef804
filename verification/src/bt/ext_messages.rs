//! Messages of the extension that exchanges metadata.

use crate::bencode::fields::int_field;
use crate::bencode::value::{dict_insert, Value};
use crate::bencode::{Dict, Object};
use crate::bytes::text;
use crate::krpc::messages::{lemma_inserted, no_entries};
use vstd::prelude::*;

verus! {

/// A message of the metadata extension.
#[derive(Clone, Debug, Copy, PartialEq, Eq, Structural)]
pub enum UtMetadataMessage {
    Request { piece: u64 },
    Data { piece: u64, total_size: u64 },
    Reject { piece: u64 },
    /// A message of a type that is not known.
    Unknown,
}

/// The dictionary of a message of a type for a piece.
pub open spec fn metadata_dict(msg_type: i64, piece: u64) -> Seq<(Seq<u8>, Value)> {
    dict_insert(
        dict_insert(no_entries(), text("msg_type"), Value::Int(msg_type)),
        text("piece"),
        Value::Int(piece as i64),
    )
}

/// The value of a message.
pub open spec fn metadata_value(message: UtMetadataMessage) -> Value {
    match message {
        UtMetadataMessage::Request { piece } => Value::Dict(metadata_dict(0, piece)),
        UtMetadataMessage::Data { piece, total_size } => Value::Dict(
            dict_insert(
                metadata_dict(1, piece),
                text("total_size"),
                Value::Int(total_size as i64),
            ),
        ),
        UtMetadataMessage::Reject { piece } => Value::Dict(metadata_dict(2, piece)),
        UtMetadataMessage::Unknown => arbitrary(),
    }
}

/// The message that a value stands for.
pub open spec fn metadata_of(v: Value) -> Option<UtMetadataMessage> {
    match int_field(v, text("msg_type")) {
        Some(t) => if t == 0 || t == 2 {
            match int_field(v, text("piece")) {
                Some(piece) => if t == 0 {
                    Some(UtMetadataMessage::Request { piece: piece as u64 })
                } else {
                    Some(UtMetadataMessage::Reject { piece: piece as u64 })
                },
                None => None,
            }
        } else if t == 1 {
            match (int_field(v, text("piece")), int_field(v, text("total_size"))) {
                (Some(piece), Some(total_size)) => Some(
                    UtMetadataMessage::Data { piece: piece as u64, total_size: total_size as u64 },
                ),
                _ => None,
            }
        } else {
            Some(UtMetadataMessage::Unknown)
        },
        None => None,
    }
}

impl UtMetadataMessage {
    fn make_dict(msg_type: i64, piece: u64) -> (r: Dict)
        ensures
            r@ == metadata_dict(msg_type, piece),
            r.wf(),
    {
        let mut dict = Dict::new();
        dict.set_int("msg_type", msg_type);
        dict.set_int(
            "piece",
            #[verifier::truncate]
            (piece as i64),
        );
        dict
    }

    /// The bencoded form of a message whose type is known.
    pub fn to_bencode(&self) -> (r: Object)
        requires
            !(*self is Unknown),
        ensures
            r@ == metadata_value(*self),
    {
        broadcast use Object::lemma_view;

        match *self {
            UtMetadataMessage::Request { piece } => Object::Dict(
                UtMetadataMessage::make_dict(0, piece),
            ),
            UtMetadataMessage::Data { piece, total_size } => {
                let mut dict = UtMetadataMessage::make_dict(1, piece);
                dict.set_int(
                    "total_size",
                    #[verifier::truncate]
                    (total_size as i64),
                );
                Object::Dict(dict)
            },
            UtMetadataMessage::Reject { piece } => Object::Dict(
                UtMetadataMessage::make_dict(2, piece),
            ),
            UtMetadataMessage::Unknown => Object::Dict(Dict::new()),
        }
    }

    /// The message that an object stands for.
    pub fn from_bencode(obj: &Object) -> (r: Option<UtMetadataMessage>)
        ensures
            r == metadata_of(obj@),
    {
        let msg_type: i64 = match obj.int_field("msg_type") {
            Some(t) => t,
            None => {
                return None;
            },
        };
        if msg_type != 0 && msg_type != 1 && msg_type != 2 {
            return Some(UtMetadataMessage::Unknown);
        }
        let piece: u64 = match obj.int_field("piece") {
            Some(piece) =>
                #[verifier::truncate]
                (piece as u64),
            None => {
                return None;
            },
        };
        if msg_type == 0 {
            Some(UtMetadataMessage::Request { piece })
        } else if msg_type == 2 {
            Some(UtMetadataMessage::Reject { piece })
        } else {
            match obj.int_field("total_size") {
                Some(size) => Some(
                    UtMetadataMessage::Data {
                        piece,
                        total_size: #[verifier::truncate]
                        (size as u64),
                    },
                ),
                None => None,
            }
        }
    }
}

/// A message survives its bencoded form.
pub proof fn law_metadata_round_trip(message: UtMetadataMessage)
    requires
        !(message is Unknown),
    ensures
        metadata_of(metadata_value(message)) == Some(message),
{
    reveal_strlit("msg_type");
    reveal_strlit("piece");
    reveal_strlit("total_size");
    assert("msg_type".is_ascii());
    assert("piece".is_ascii());
    assert("total_size".is_ascii());
    assert(text("msg_type").len() == 8);
    assert(text("piece").len() == 5);
    assert(text("total_size").len() == 10);
    let (t, piece) = match message {
        UtMetadataMessage::Request { piece } => (0i64, piece),
        UtMetadataMessage::Data { piece, .. } => (1i64, piece),
        UtMetadataMessage::Reject { piece } => (2i64, piece),
        UtMetadataMessage::Unknown => (3i64, 0u64),
    };
    let d = dict_insert(no_entries(), text("msg_type"), Value::Int(t));
    lemma_inserted(no_entries(), text("msg_type"), Value::Int(t));
    lemma_inserted(d, text("piece"), Value::Int(piece as i64));
    assert((piece as i64) as u64 == piece) by (bit_vector);
    if let UtMetadataMessage::Data { total_size, .. } = message {
        lemma_inserted(metadata_dict(1, piece), text("total_size"), Value::Int(total_size as i64));
        assert((total_size as i64) as u64 == total_size) by (bit_vector);
    }
}

/// A message says what type it has, 0 for a request, 1 for data and 2 for a refusal, which
/// piece it is about, and with data how large all of it is.
pub proof fn law_metadata_fields(piece: u64, total_size: u64)
    ensures
        ({
            let v = metadata_value(UtMetadataMessage::Request { piece });
            &&& int_field(v, text("msg_type")) == Some(0i64)
            &&& int_field(v, text("piece")) == Some(piece as i64)
            &&& int_field(v, text("total_size")) is None
        }),
        ({
            let v = metadata_value(UtMetadataMessage::Data { piece, total_size });
            &&& int_field(v, text("msg_type")) == Some(1i64)
            &&& int_field(v, text("piece")) == Some(piece as i64)
            &&& int_field(v, text("total_size")) == Some(total_size as i64)
        }),
        ({
            let v = metadata_value(UtMetadataMessage::Reject { piece });
            &&& int_field(v, text("msg_type")) == Some(2i64)
            &&& int_field(v, text("piece")) == Some(piece as i64)
            &&& int_field(v, text("total_size")) is None
        }),
{
    reveal_strlit("msg_type");
    reveal_strlit("piece");
    reveal_strlit("total_size");
    assert("msg_type".is_ascii());
    assert("piece".is_ascii());
    assert("total_size".is_ascii());
    assert(text("msg_type").len() == 8);
    assert(text("piece").len() == 5);
    assert(text("total_size").len() == 10);
    let none = no_entries();
    lemma_inserted(none, text("msg_type"), Value::Int(0));
    lemma_inserted(none, text("msg_type"), Value::Int(1));
    lemma_inserted(none, text("msg_type"), Value::Int(2));
    let of = |t: i64| dict_insert(none, text("msg_type"), Value::Int(t));
    lemma_inserted(of(0), text("piece"), Value::Int(piece as i64));
    lemma_inserted(of(1), text("piece"), Value::Int(piece as i64));
    lemma_inserted(of(2), text("piece"), Value::Int(piece as i64));
    lemma_inserted(metadata_dict(1, piece), text("total_size"), Value::Int(total_size as i64));
}

/// What a message is depends on its type: a request, data or a refusal about the piece that it
/// names, or a message of another type.
pub proof fn law_metadata_read(v: Value, t: i64, piece: u64, total_size: u64)
    requires
        int_field(v, text("msg_type")) == Some(t),
    ensures
        int_field(v, text("piece")) == Some(piece as i64) && t == 0 ==> metadata_of(v) == Some(
            UtMetadataMessage::Request { piece },
        ),
        int_field(v, text("piece")) == Some(piece as i64) && int_field(v, text("total_size"))
            == Some(total_size as i64) && t == 1 ==> metadata_of(v) == Some(
            UtMetadataMessage::Data { piece, total_size },
        ),
        int_field(v, text("piece")) == Some(piece as i64) && t == 2 ==> metadata_of(v) == Some(
            UtMetadataMessage::Reject { piece },
        ),
        t < 0 || t > 2 ==> metadata_of(v) == Some(UtMetadataMessage::Unknown),
        0 <= t <= 2 && int_field(v, text("piece")) is None ==> metadata_of(v) is None,
        t == 1 && int_field(v, text("total_size")) is None ==> metadata_of(v) is None,
{
    assert((piece as i64) as u64 == piece) by (bit_vector);
    assert((total_size as i64) as u64 == total_size) by (bit_vector);
}

} // verus!

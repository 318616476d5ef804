//! Requests to the tools of the user interface.

use crate::kad::addr::SocketAddr;
use crate::kad::nodeid::{
    from_hex_bytes, hex_of, hex_splits, id_from, law_hex_round_trip, lemma_id_from, InfoHash, NodeId,
};
use vstd::prelude::*;
use vstd::string::StringExecFns;
use vstd::utf8::encode_utf8;

verus! {

/// A request to a tool.
#[derive(Debug, Clone, Copy)]
pub enum ToolRequest {
    Ping(SocketAddr),
    SampleInfohashes(SocketAddr, NodeId),
    GetPeers(InfoHash),
    AddHash(InfoHash),
}

/// What a request holds: the address, where it is given, as an address or as what is wrong
/// with it, and the texts of the target and of the hash, where they are given.
#[derive(Debug)]
pub struct ToolArguments {
    pub address: Option<Result<SocketAddr, String>>,
    pub target: Option<String>,
    pub info_hash: Option<String>,
}

/// What is made of a request.
pub enum Parsed {
    Request(ToolRequest),
    Refused(Seq<char>),
}

/// What is made of the address in a request.
pub open spec fn address_view(address: Option<Result<SocketAddr, String>>) -> Result<
    SocketAddr,
    Seq<char>,
> {
    match address {
        Some(Ok(addr)) => Ok(addr),
        Some(Err(e)) => Err(e@),
        None => Err("Missing address in json"@),
    }
}

/// What is made of an identifier in a request.
pub open spec fn id_view(id: Option<String>, missing: Seq<char>, invalid: Seq<char>) -> Result<
    NodeId,
    Seq<char>,
> {
    match id {
        Some(s) => match from_hex_bytes(encode_utf8(s@)) {
            Some(bytes) => Ok(id_from(bytes)),
            None => Err(invalid),
        },
        None => Err(missing),
    }
}

/// What is made of a request to a tool.
pub open spec fn tool_view(tool: Seq<char>, arguments: ToolArguments) -> Parsed {
    if tool == "ping"@ {
        match address_view(arguments.address) {
            Ok(addr) => Parsed::Request(ToolRequest::Ping(addr)),
            Err(e) => Parsed::Refused(e),
        }
    } else if tool == "sample_infohashes"@ {
        match id_view(arguments.target, "Missing target in json"@, "Invalid target"@) {
            Ok(target) => match address_view(arguments.address) {
                Ok(addr) => Parsed::Request(ToolRequest::SampleInfohashes(addr, target)),
                Err(e) => Parsed::Refused(e),
            },
            Err(e) => Parsed::Refused(e),
        }
    } else if tool == "get_peers"@ || tool == "add_hash"@ {
        match id_view(arguments.info_hash, "Missing info_hash in json"@, "Invalid info_hash"@) {
            Ok(hash) => Parsed::Request(
                if tool == "get_peers"@ {
                    ToolRequest::GetPeers(hash)
                } else {
                    ToolRequest::AddHash(hash)
                },
            ),
            Err(e) => Parsed::Refused(e),
        }
    } else {
        Parsed::Refused("Invalid tool"@)
    }
}

/// Whether the texts that a tool uses can be cut into pairs of bytes.
pub open spec fn texts_split(tool: Seq<char>, arguments: ToolArguments) -> bool {
    &&& tool == "sample_infohashes"@ ==> (arguments.target matches Some(s) ==> hex_splits(
        encode_utf8(s@),
    ))
    &&& tool == "get_peers"@ || tool == "add_hash"@ ==> (arguments.info_hash matches Some(s)
        ==> hex_splits(encode_utf8(s@)))
}

/// What is made of the address in a request.
fn get_address(address: &Option<Result<SocketAddr, String>>) -> (r: Result<SocketAddr, String>)
    ensures
        match (r, address_view(*address)) {
            (Ok(addr), Ok(view)) => addr == view,
            (Err(e), Err(view)) => e@ == view,
            _ => false,
        },
{
    match address {
        Some(Ok(addr)) => Ok(*addr),
        Some(Err(e)) => Err(e.clone()),
        None => Err(String::from_str("Missing address in json")),
    }
}

/// What is made of an identifier in a request.
fn get_id(id: &Option<String>, missing: &str, invalid: &str) -> (r: Result<NodeId, String>)
    requires
        id matches Some(s) ==> hex_splits(encode_utf8(s@)),
    ensures
        match (r, id_view(*id, missing@, invalid@)) {
            (Ok(id), Ok(view)) => id == view,
            (Err(e), Err(view)) => e@ == view,
            _ => false,
        },
{
    match id {
        Some(s) => match NodeId::from_hex(s.as_str()) {
            Some(id) => {
                proof {
                    lemma_id_from(id);
                }
                Ok(id)
            },
            None => Err(String::from_str(invalid)),
        },
        None => Err(String::from_str(missing)),
    }
}

/// The request that is made to a tool, or why there is none.
pub fn parse_tool(tool: &str, arguments: &ToolArguments) -> (r: Result<ToolRequest, String>)
    requires
        texts_split(tool@, *arguments),
    ensures
        match (r, tool_view(tool@, *arguments)) {
            (Ok(request), Parsed::Request(view)) => request == view,
            (Err(e), Parsed::Refused(view)) => e@ == view,
            _ => false,
        },
{
    let tool: String = String::from_str(tool);
    if tool == String::from_str("ping") {
        return match get_address(&arguments.address) {
            Ok(addr) => Ok(ToolRequest::Ping(addr)),
            Err(e) => Err(e),
        };
    }
    if tool == String::from_str("sample_infohashes") {
        return match get_id(&arguments.target, "Missing target in json", "Invalid target") {
            Ok(target) => match get_address(&arguments.address) {
                Ok(addr) => Ok(ToolRequest::SampleInfohashes(addr, target)),
                Err(e) => Err(e),
            },
            Err(e) => Err(e),
        };
    }
    let get_peers: bool = tool == String::from_str("get_peers");
    if get_peers || tool == String::from_str("add_hash") {
        return match get_id(
            &arguments.info_hash,
            "Missing info_hash in json",
            "Invalid info_hash",
        ) {
            Ok(hash) => if get_peers {
                Ok(ToolRequest::GetPeers(hash))
            } else {
                Ok(ToolRequest::AddHash(hash))
            },
            Err(e) => Err(e),
        };
    }
    Err(String::from_str("Invalid tool"))
}

/// Each tool gets what it asks for: an address, an identifier in hexadecimal digits, or
/// both.
pub proof fn law_tool_requests(arguments: ToolArguments, id: NodeId, addr: SocketAddr, s: String)
    requires
        encode_utf8(s@) == hex_of(id@),
    ensures
        arguments.address == Some(Ok::<SocketAddr, String>(addr)) ==> tool_view("ping"@, arguments)
            == Parsed::Request(ToolRequest::Ping(addr)),
        arguments.address == Some(Ok::<SocketAddr, String>(addr)) && arguments.target == Some(s)
            ==> tool_view("sample_infohashes"@, arguments) == Parsed::Request(
            ToolRequest::SampleInfohashes(addr, id),
        ),
        arguments.info_hash == Some(s) ==> tool_view("get_peers"@, arguments) == Parsed::Request(
            ToolRequest::GetPeers(id),
        ),
        arguments.info_hash == Some(s) ==> tool_view("add_hash"@, arguments) == Parsed::Request(
            ToolRequest::AddHash(id),
        ),
{
    law_hex_round_trip(id);
    lemma_id_from(id);
    reveal_strlit("ping");
    reveal_strlit("sample_infohashes");
    reveal_strlit("get_peers");
    reveal_strlit("add_hash");
    assert("sample_infohashes"@[0] == 's');
    assert("ping"@[0] == 'p');
    assert("get_peers"@[0] == 'g');
    assert("add_hash"@[0] == 'a');
}

/// A request that lacks what its tool asks for, or holds what is no identifier, is refused.
pub proof fn law_tool_refused(tool: Seq<char>, arguments: ToolArguments)
    ensures
        arguments.address !is Some && (tool == "ping"@ || tool == "sample_infohashes"@)
            ==> tool_view(tool, arguments) is Refused,
        arguments.address !is Some && tool == "ping"@ ==> tool_view(tool, arguments)
            == Parsed::Refused("Missing address in json"@),
        arguments.target !is Some && tool == "sample_infohashes"@ ==> tool_view(tool, arguments)
            == Parsed::Refused("Missing target in json"@),
        arguments.info_hash !is Some && (tool == "get_peers"@ || tool == "add_hash"@) ==> tool_view(
            tool,
            arguments,
        ) == Parsed::Refused("Missing info_hash in json"@),
        (arguments.info_hash matches Some(s) && encode_utf8(s@).len() != 40) && (tool
            == "get_peers"@ || tool == "add_hash"@) ==> tool_view(tool, arguments)
            == Parsed::Refused("Invalid info_hash"@),
        tool != "ping"@ && tool != "sample_infohashes"@ && tool != "get_peers"@ && tool
            != "add_hash"@ ==> tool_view(tool, arguments) == Parsed::Refused("Invalid tool"@),
{
    reveal_strlit("ping");
    reveal_strlit("sample_infohashes");
    reveal_strlit("get_peers");
    reveal_strlit("add_hash");
    assert("sample_infohashes"@[0] == 's');
    assert("ping"@[0] == 'p');
    assert("get_peers"@[0] == 'g');
    assert("add_hash"@[0] == 'a');
}

} // verus!

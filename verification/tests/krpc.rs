use dht_rs::bencode::Object;
use dht_rs::kad::{IpAddr, SocketAddr};
use dht_rs::krpc::context::{extract_reply, make_reply, query_result};
use dht_rs::krpc::nodes::{encode_nodes_to, parse_nodes};
use dht_rs::krpc::{
    AnnouncePeerQuery, AnnouncePeerReply, ErrorReply, FindNodeQuery, FindNodeReply, GetPeersQuery,
    GetPeersReply, KrpcContext, KrpcError, KrpcProcess, Message, PingQuery, PingReply,
    SampleInfoHashesQuery, SampleInfoHashesReply,
};
use dht_rs::{InfoHash, NodeId};

fn localhost(port: u16) -> SocketAddr {
    SocketAddr::new(IpAddr::V4(0x7f00_0001), port)
}

fn encode_and_parse<T>(msg: T)
where
    T: Message + std::fmt::Debug + PartialEq,
{
    let obj = msg.to_bencode();
    let back = T::from_bencode(&obj);
    assert!(back.is_some(), "Failed to parse back the object");
    assert_eq!(msg, back.unwrap(), "Failed to parse back the object, not eq");
}

#[test]
fn test_find_node_query() {
    let id = NodeId::new([1u8; 20]);
    let target = NodeId::new([2u8; 20]);
    let msg = FindNodeQuery { id, target };
    encode_and_parse(msg);
}

#[test]
fn test_find_node_reply() {
    let id = NodeId::new([1u8; 20]);
    let nodes = vec![
        (NodeId::new([2u8; 20]), localhost(6881)),
        (NodeId::new([3u8; 20]), localhost(6882)),
    ];
    let msg = FindNodeReply { id, nodes };
    encode_and_parse(msg);
}

#[test]
fn test_ping_query() {
    let id = NodeId::new([1u8; 20]);
    let msg = PingQuery { id };
    encode_and_parse(msg);
}

#[test]
fn test_ping_reply() {
    let id = NodeId::new([1u8; 20]);
    let msg = PingReply { id };
    encode_and_parse(msg);
}

#[test]
fn test_get_peers_query() {
    let id = NodeId::new([1u8; 20]);
    let info_hash = InfoHash::new([2u8; 20]);
    let msg = GetPeersQuery { id, info_hash };
    encode_and_parse(msg);
}

#[test]
fn test_get_peers_reply() {
    let id = NodeId::new([1u8; 20]);
    let nodes = vec![
        (NodeId::new([2u8; 20]), localhost(6881)),
        (NodeId::new([3u8; 20]), localhost(6882)),
    ];
    let values = vec![localhost(6881), localhost(6882)];
    let msg = GetPeersReply {
        id,
        token: b"token".to_vec(),
        nodes,
        values,
    };
    encode_and_parse(msg);
}

#[test]
fn other_messages_survive() {
    let id = NodeId::new([1u8; 20]);
    encode_and_parse(AnnouncePeerQuery {
        id,
        info_hash: NodeId::new([2u8; 20]),
        port: 6881,
        token: b"aoeusnth".to_vec(),
        implied_port: true,
    });
    encode_and_parse(AnnouncePeerReply { id });
    encode_and_parse(SampleInfoHashesQuery { id, target: id });
    encode_and_parse(SampleInfoHashesReply {
        id,
        interval: 21600,
        nodes: vec![(id, localhost(1))],
        num: 2,
        info_hashes: vec![NodeId::new([8; 20]), NodeId::new([9; 20])],
    });
    encode_and_parse(ErrorReply {
        code: 203,
        msg: "Protocol Error".to_string(),
    });
}

#[test]
fn node_lists_survive() {
    let nodes = vec![
        (NodeId::new([2; 20]), localhost(6881)),
        (NodeId::new([3; 20]), localhost(6882)),
    ];
    let mut out = Vec::new();
    encode_nodes_to(&mut out, &nodes);
    assert_eq!(out.len(), 52);
    assert_eq!(parse_nodes(&out), Some(nodes));
    let nodes6 = vec![(NodeId::new([2; 20]), SocketAddr::new(IpAddr::V6(5), 1))];
    let mut out = Vec::new();
    encode_nodes_to(&mut out, &nodes6);
    assert_eq!(out.len(), 38);
    assert_eq!(parse_nodes(&out), Some(nodes6));
    assert_eq!(parse_nodes(&out[1..]), None);
}

#[test]
fn query_as_it_is_sent() {
    let mut context = KrpcContext::new(true);
    let ping = PingQuery { id: NodeId::new([b'a'; 20]) };
    let (tid, bytes) = context.send_krpc(&ping);
    assert_eq!(tid, 0);
    assert_eq!(
        bytes,
        b"d1:ad2:id20:aaaaaaaaaaaaaaaaaaaae1:q4:ping1:t2:\0\01:y1:qe"
    );
    let (next, _) = context.send_krpc(&ping);
    assert_eq!(next, 1);
}

#[test]
fn reply_reaches_its_query_once() {
    let mut context = KrpcContext::new(true);
    let id = NodeId::new([5; 20]);
    let (tid, _) = context.send_krpc(&PingQuery { id });
    let reply = make_reply(&tid.to_be_bytes(), &PingReply { id });
    match context.process_udp(&reply) {
        KrpcProcess::Reply(t, object) => {
            assert_eq!(t, tid);
            assert_eq!(extract_reply::<PingReply>(&object), Some(PingReply { id }));
            assert_eq!(query_result::<PingQuery>(&object), Ok(PingReply { id }));
        }
        other => panic!("{:?}", other),
    }
    assert_eq!(context.process_udp(&reply), KrpcProcess::InvalidMessage);
}

#[test]
fn cancelled_query_gets_no_reply() {
    let mut context = KrpcContext::new(true);
    let id = NodeId::new([5; 20]);
    let (tid, _) = context.send_krpc(&PingQuery { id });
    context.cancel(tid);
    let reply = make_reply(&tid.to_be_bytes(), &PingReply { id });
    assert_eq!(context.process_udp(&reply), KrpcProcess::InvalidMessage);
    assert_eq!(context.process_udp(b"rubbish"), KrpcProcess::InvalidMessage);
}

#[test]
fn query_is_seen_as_one() {
    let mut a = KrpcContext::new(true);
    let mut b = KrpcContext::new(true);
    let (_, bytes) = a.send_krpc(&PingQuery { id: NodeId::zero() });
    assert!(matches!(b.process_udp(&bytes), KrpcProcess::Query(_)));
}

#[test]
fn errors_of_queries() {
    let error = Object::parse(b"d1:rli201e13:Generic Errore1:t2:aa1:y1:re").unwrap();
    assert_eq!(
        extract_reply::<ErrorReply>(&error),
        Some(ErrorReply {
            code: 201,
            msg: "Generic Error".to_string(),
        })
    );
    assert_eq!(query_result::<PingQuery>(&error), Err(KrpcError::InvalidReply));
    let rubbish = Object::parse(b"d1:rd2:id3:abce1:t2:aa1:y1:re").unwrap();
    assert_eq!(query_result::<PingQuery>(&rubbish), Err(KrpcError::InvalidReply));
}

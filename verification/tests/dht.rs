use dht_rs::bencode::Object;
use dht_rs::dht::search::sort_node_and_unique;
use dht_rs::dht::{CallOutcome, DhtSession, GetPeersSearch, Lookup, RoutingTable, UpdateNodeError};
use dht_rs::kad::{IpAddr, SocketAddr, KBUCKET_SIZE};
use dht_rs::krpc::context::extract_reply;
use dht_rs::krpc::{
    AnnouncePeerQuery, AnnouncePeerReply, ErrorReply, FindNodeQuery, FindNodeReply, GetPeersQuery,
    GetPeersReply, KrpcContext, PingQuery, PingReply, SampleInfoHashesQuery,
};
use dht_rs::NodeId;

fn make_addr(ip: u32, port: u16) -> SocketAddr {
    SocketAddr::new(IpAddr::V4(ip), port)
}

fn session() -> DhtSession {
    DhtSession::new(NodeId::new([0x11; 20]), KrpcContext::new(true))
}

#[test]
fn test_routing_table_basic() {
    let id = NodeId::new([1; 20]);
    let mut table = RoutingTable::new(id);

    // Test empty table
    assert_eq!(table.buckets_len(), 1);
    assert!(table.find_node(NodeId::new([2; 20])).is_empty());

    // Test adding nodes
    let addr = make_addr(0, 80);
    let node_id = NodeId::new([2; 20]);
    assert!(table.update_node(node_id, &addr).is_ok());

    // Test finding added node
    let closest = table.find_node(node_id);
    assert_eq!(closest.len(), 1);
    assert_eq!(closest[0].0, node_id);
    assert_eq!(closest[0].1, addr);

    // Test removing node
    let removed = table.remove_node(node_id);
    assert!(removed.is_some());
    assert_eq!(removed.unwrap().0, node_id);
    assert_eq!(removed.unwrap().1, addr);

    // Test bucket need split
    for i in 0..KBUCKET_SIZE {
        let test_addr = make_addr(i as u32 + 1, 80);
        let test_id = NodeId::new([(i + 2) as u8; 20]);
        assert!(table.update_node(test_id, &test_addr).is_ok());
    }
}

#[test]
fn test_bucket_split() {
    let id = NodeId::new([0; 20]);
    let mut table = RoutingTable::new(id);

    // Fill first bucket
    for i in 0..KBUCKET_SIZE {
        let test_id = NodeId::new([(i + 1) as u8; 20]);
        let addr = make_addr(0x7f00_0000 + i as u32 + 1, 8000);
        assert!(table.update_node(test_id, &addr).is_ok());
    }

    // Trigger split
    let mut split_id = NodeId::new([1; 20]);
    split_id.data[19] = 0;
    let split_addr = make_addr(0x7f00_0000 + 99, 8000);
    assert!(matches!(
        table.update_node(split_id, &split_addr),
        Err(UpdateNodeError::NeedSplit)
    ));
    table.split_bucket();
    assert_eq!(table.buckets_len(), 2);
}

#[test]
fn own_identifier_is_not_taken() {
    let id = NodeId::new([1; 20]);
    let mut table = RoutingTable::new(id);
    assert!(matches!(
        table.update_node(id, &make_addr(1, 1)),
        Err(UpdateNodeError::Failed)
    ));
    assert_eq!(table.nodes_len(), 0);
}

#[test]
fn splitting_loses_no_node() {
    let mut table = RoutingTable::new(NodeId::zero());
    for i in 0..KBUCKET_SIZE {
        let test_id = NodeId::new([(1u8) << i; 20]);
        assert!(table.update_node_at(test_id, &make_addr(i as u32, 1), 7).is_ok());
    }
    let before = table.iter().len();
    table.split_bucket();
    table.split_bucket();
    assert_eq!(table.buckets_len(), 3);
    assert_eq!(table.iter().len(), before);
    assert_eq!(table.nodes_len(), KBUCKET_SIZE);
    assert!(!table.less_node_buckets_indexes(KBUCKET_SIZE).is_empty());
}

#[test]
fn quiet_nodes_are_refreshed_and_then_dropped() {
    let mut table = RoutingTable::new(NodeId::zero());
    let id = NodeId::new([9; 20]);
    let addr = make_addr(9, 9);
    assert!(table.update_node_at(id, &addr, 1_000).is_ok());
    assert!(table.next_refresh_node_at(5_000, 2_000).is_none());
    assert_eq!(
        table.next_refresh_node_at(500, 2_000).map(|(i, a, _)| (i, a)),
        Some((id, addr))
    );
    table.node_timeout(id);
    table.node_timeout(id);
    table.node_timeout(id);
    assert!(table.find_node(id).is_empty());
}

#[test]
fn search_nodes_are_sorted_and_single() {
    let target = NodeId::zero();
    let mut nodes = vec![
        (NodeId::new([4; 20]), make_addr(4, 1)),
        (NodeId::new([1; 20]), make_addr(1, 1)),
        (NodeId::new([4; 20]), make_addr(5, 1)),
        (NodeId::new([2; 20]), make_addr(2, 1)),
    ];
    sort_node_and_unique(&mut nodes, target);
    let ids: Vec<u8> = nodes.iter().map(|n| n.0.data[0]).collect();
    assert_eq!(ids, vec![1, 2, 4]);
}

#[test]
fn search_finds_the_nearest_nodes() {
    let target = NodeId::zero();
    let start = vec![(NodeId::new([8; 20]), make_addr(8, 1))];
    let mut search = Lookup::new(start, target, true);
    let mut rounds = 0;
    while !search.is_finished() {
        let queries = search.next_queries();
        for (id, ip) in queries {
            let near = id.data[0] / 2;
            let nodes = if near > 0 {
                vec![(NodeId::new([near; 20]), make_addr(near as u32, 1))]
            } else {
                vec![]
            };
            if !search.is_finished() {
                search.query_replied(ip, vec![], &nodes);
            }
        }
        rounds += 1;
        assert!(rounds < 100);
    }
    let found = search.find_node_result().unwrap();
    assert_eq!(found[0].0, NodeId::new([1; 20]));
}

#[test]
fn search_without_replies_fails() {
    let mut search = Lookup::new(vec![(NodeId::new([8; 20]), make_addr(8, 1))], NodeId::zero(), true);
    while !search.is_finished() {
        for (_, ip) in search.next_queries() {
            search.query_failed(ip);
        }
    }
    assert!(search.find_node_result().is_err());
}

#[test]
fn search_for_peers_collects_them() {
    let node = NodeId::new([8; 20]);
    let ip = make_addr(8, 1);
    let mut search = GetPeersSearch::new(vec![(node, ip)], NodeId::zero(), true);
    let queries = search.next_queries();
    assert_eq!(queries, vec![(node, ip)]);
    let peers = vec![make_addr(7, 7), make_addr(6, 6), make_addr(7, 7)];
    let near = NodeId::new([4; 20]);
    let near_ip = make_addr(4, 1);
    search.query_replied(ip, b"far".to_vec(), &vec![(near, near_ip)], &peers);
    assert_eq!(search.next_queries(), vec![(near, near_ip)]);
    search.query_replied(near_ip, b"tok".to_vec(), &vec![], &vec![]);
    while !search.is_finished() {
        search.next_queries();
    }
    let result = search.result().unwrap();
    assert_eq!(result.peers, vec![make_addr(6, 6), make_addr(7, 7)]);
    assert_eq!(result.nodes.len(), 1);
    assert_eq!(result.nodes[0].id, near);
    assert_eq!(result.nodes[0].ip, near_ip);
    assert_eq!(result.nodes[0].token, b"tok");
}

fn ask<T: dht_rs::krpc::KrpcQuery>(session: &mut DhtSession, query: &T, from: &SocketAddr) -> dht_rs::dht::UdpOutcome {
    let (_, bytes) = KrpcContext::new(true).send_krpc(query);
    session.process_udp(&bytes, from, b"127.0.0.9")
}

fn answer<T: dht_rs::krpc::KrpcReply>(outcome: &dht_rs::dht::UdpOutcome) -> Option<T> {
    let (object, _) = Object::decode(outcome.reply.as_ref().unwrap()).unwrap();
    extract_reply::<T>(&object)
}

#[test]
fn session_answers_queries() {
    let mut session = session();
    let other = NodeId::new([0x22; 20]);
    let from = make_addr(0x7f00_0009, 4000);

    let outcome = ask(&mut session, &PingQuery { id: other }, &from);
    assert!(outcome.handled);
    assert_eq!(answer::<PingReply>(&outcome).unwrap().id, NodeId::new([0x11; 20]));
    assert_eq!(outcome.queried, Some(b"ping".to_vec()));
    assert_eq!(session.routing_table().iter(), vec![(other, from)]);

    let outcome = ask(&mut session, &FindNodeQuery { id: other, target: other }, &from);
    assert_eq!(answer::<FindNodeReply>(&outcome).unwrap().nodes, vec![(other, from)]);
}

#[test]
fn announced_peers_are_handed_out() {
    let mut session = session();
    let other = NodeId::new([0x22; 20]);
    let hash = NodeId::new([0x33; 20]);
    let from = make_addr(0x7f00_0009, 4000);

    let outcome = ask(&mut session, &GetPeersQuery { id: other, info_hash: hash }, &from);
    let reply = answer::<GetPeersReply>(&outcome).unwrap();
    assert!(reply.values.is_empty());

    let refused = ask(
        &mut session,
        &AnnouncePeerQuery {
            id: other,
            info_hash: hash,
            port: 7000,
            token: b"wrong".to_vec(),
            implied_port: false,
        },
        &from,
    );
    assert!(refused.announced.is_none());
    assert_eq!(
        answer::<ErrorReply>(&refused),
        Some(ErrorReply { code: 203, msg: "Invalid token".to_string() })
    );

    let outcome = ask(
        &mut session,
        &AnnouncePeerQuery {
            id: other,
            info_hash: hash,
            port: 7000,
            token: reply.token,
            implied_port: false,
        },
        &from,
    );
    assert_eq!(answer::<AnnouncePeerReply>(&outcome).unwrap().id, NodeId::new([0x11; 20]));
    assert_eq!(outcome.announced, Some((hash, make_addr(0x7f00_0009, 7000))));

    let outcome = ask(&mut session, &GetPeersQuery { id: other, info_hash: hash }, &from);
    assert_eq!(
        answer::<GetPeersReply>(&outcome).unwrap().values,
        vec![make_addr(0x7f00_0009, 7000)]
    );

    let outcome = ask(&mut session, &SampleInfoHashesQuery { id: other, target: hash }, &from);
    assert_eq!(
        answer::<ErrorReply>(&outcome),
        Some(ErrorReply { code: 202, msg: "Unknown method: sample_infohashes".to_string() })
    );

    session.clear_peers();
    let outcome = ask(&mut session, &GetPeersQuery { id: other, info_hash: hash }, &from);
    assert!(answer::<GetPeersReply>(&outcome).unwrap().values.is_empty());
}

#[test]
fn calls_that_time_out_are_tried_again() {
    let mut session = session();
    let id = NodeId::new([0x22; 20]);
    let ip = make_addr(2, 2);
    assert!(session.call_ended(0, CallOutcome::TimedOut, id, ip));
    assert!(!session.call_ended(1, CallOutcome::TimedOut, id, ip));
    assert!(!session.call_ended(0, CallOutcome::Replied, id, ip));
    assert!(!session.call_ended(0, CallOutcome::Failed, id, ip));
}

#[test]
fn rubbish_is_not_handled() {
    let mut session = session();
    let outcome = session.process_udp(b"rubbish", &make_addr(1, 1), b"0.0.0.1");
    assert!(!outcome.handled);
    assert!(outcome.reply.is_none());
    assert!(session.needs_bootstrap());
    assert!(session.next_refresh().is_none());
}

#[test]
fn bootstrap_starts_at_the_routers() {
    let mut session = session();
    let routers = vec![make_addr(1, 6881), SocketAddr::new(IpAddr::V6(1), 6881)];
    let queue = session.bootstrap_queue(&routers);
    assert!(queue.iter().any(|n| n.1 == make_addr(1, 6881)));
    let search = session.find_node_from(queue, NodeId::new([0x11; 20]));
    assert!(!search.is_finished());
}

#[test]
fn nodes_of_the_own_bucket_are_the_nearest() {
    let mut table = RoutingTable::new(NodeId::zero());
    // Three nodes that start with 1, eight that start with 01, and two that start with 001.
    let firsts: [u8; 13] =
        [0x80, 0x90, 0xa0, 0x40, 0x41, 0x42, 0x43, 0x44, 0x45, 0x46, 0x47, 0x20, 0x30];
    for (i, first) in firsts.iter().enumerate() {
        let mut id = NodeId::zero();
        id.data[0] = *first;
        id.data[19] = 1;
        assert!(table.add_node(id, &make_addr(i as u32 + 1, 80)).is_ok());
    }
    assert!(table.buckets_len() >= 3);
    let mut target = NodeId::zero();
    target.data[0] = 0x5f;
    let found: Vec<u8> = table.find_node(target).iter().map(|node| node.0.data[0]).collect();
    assert_eq!(found, vec![0x47, 0x46, 0x45, 0x44, 0x43, 0x42, 0x41, 0x40]);

    // The bucket of the target is not full: its nodes come first.
    target.data[0] = 0xff;
    let found: Vec<u8> = table.find_node(target).iter().map(|node| node.0.data[0]).collect();
    assert_eq!(found[..3], [0xa0, 0x90, 0x80]);
    assert_eq!(found.len(), KBUCKET_SIZE);
}

fn id_with(first: u8) -> NodeId {
    let mut id = NodeId::zero();
    id.data[0] = first;
    id.data[19] = 1;
    id
}

#[test]
fn nearest_nodes_come_from_all_buckets() {
    let mut table = RoutingTable::new(NodeId::zero());
    // Four nodes that start with 1, and six that start with 01 or 001.
    let firsts: [u8; 10] = [0x80, 0x90, 0xa0, 0xb0, 0x40, 0x41, 0x42, 0x20, 0x21, 0x22];
    for (i, first) in firsts.iter().enumerate() {
        assert_eq!(table.add_node(id_with(*first), &make_addr(i as u32 + 1, 80)), Ok(()));
    }
    assert!(table.buckets_len() >= 2);
    let found: Vec<u8> =
        table.find_node(id_with(0xff)).iter().map(|node| node.0.data[0]).collect();
    assert_eq!(found, vec![0xb0, 0xa0, 0x90, 0x80, 0x42, 0x41, 0x40, 0x22]);
}

#[test]
fn node_that_is_there_is_updated() {
    let mut table = RoutingTable::new(NodeId::zero());
    let id = id_with(0x80);
    // Two nodes with one identifier, at two addresses.
    assert_eq!(table.add_node(id, &make_addr(1, 1)), Ok(()));
    assert_eq!(table.add_node(id, &make_addr(2, 2)), Ok(()));
    assert_eq!(table.nodes_len(), 2);
    assert_eq!(table.add_node(id, &make_addr(2, 2)), Ok(()));
    assert_eq!(table.add_node(id, &make_addr(1, 1)), Ok(()));
    assert_eq!(table.nodes_len(), 2);
    assert_eq!(table.iter().len(), 2);
    // The address of another node is not taken for a new one.
    assert_eq!(table.add_node(id_with(0x90), &make_addr(2, 2)), Err(UpdateNodeError::Failed));
    assert_eq!(table.nodes_len(), 2);
}

#[test]
fn dropped_node_is_no_longer_counted() {
    let mut table = RoutingTable::new(NodeId::zero());
    let id = id_with(0x80);
    let ip = make_addr(1, 1);
    assert_eq!(table.add_node(id, &ip), Ok(()));
    table.node_timeout(id);
    table.node_timeout(id);
    assert_eq!(table.nodes_len(), 1);
    table.node_timeout(id);
    assert_eq!(table.nodes_len(), 0);
    // Its address can be taken again.
    assert_eq!(table.add_node(id_with(0x90), &ip), Ok(()));
    assert_eq!(table.nodes_len(), 1);
}

#[test]
fn bootstrap_searches_are_counted() {
    let mut session = session();
    assert!(session.bootstrap_search(0).is_none());
    let other = NodeId::new([0x22; 20]);
    let from = make_addr(0x7f00_0009, 4000);
    ask(&mut session, &PingQuery { id: other }, &from);
    let (_, nodes, searches) = session.bootstrap_search(2).unwrap();
    assert_eq!(nodes, vec![(other, from)]);
    assert_eq!(searches, 3);
    assert!(session.bootstrap_search(1_000_000).is_none());
}

use dht_rs::kad::addr::{add_addrs, SocketAddr};
use dht_rs::kad::compact::{encode_ip_to, encode_your_ip, parse_ip, parse_your_ip};
use dht_rs::kad::distance::sort_nodes;
use dht_rs::kad::nodeid::hex_string;
use dht_rs::kad::{IpAddr, RoutingTable, UpdateNodeError, KBUCKET_SIZE};
use dht_rs::NodeId;

fn local(last: u8, port: u16) -> SocketAddr {
    SocketAddr::new(IpAddr::V4(0x7f00_0000 + last as u32), port)
}

#[test]
fn test_leading_zeros() {
    assert_eq!(NodeId::zero().leading_zeros(), 160)
}

#[test]
fn test_bitxor() {
    let id1 = NodeId::new([10u8; 20]);
    let id2 = NodeId::new([5u8; 20]); // 00001010 ^ 00000101 = 00001111 (15)
    let expected_xor_data = [10u8 ^ 5u8; 20];
    assert_eq!(id1 ^ id2, NodeId::new(expected_xor_data));

    let zero = NodeId::zero();
    let rand_id = NodeId::rand();
    assert_eq!(rand_id ^ zero, rand_id);
    assert_eq!(rand_id ^ rand_id, zero);
}

#[test]
fn test_hex() {
    let id = NodeId::new([
        0x12, 0x34, 0x56, 0x78, 0x9a, 0xbc, 0xde, 0xf0, 0x12, 0x34, 0x56, 0x78, 0x9a, 0xbc, 0xde,
        0xf0, 0x12, 0x34, 0x56, 0x78,
    ]);
    assert_eq!(id.hex(), "123456789abcdef0123456789abcdef012345678");

    for i in 0..20 {
        let id = NodeId::rand();
        let hex = id.hex();
        let parsed_id = NodeId::from_hex(&hex).unwrap();
        assert_eq!(id, parsed_id, "Failed to parse hex for id {}", i);
    }
}

#[test]
fn test_bit_test() {
    let mut id = NodeId::new([0b00000000; 20]);
    id.bit_set(0, true);
    id.bit_set(1, true);
    id.bit_set(2, true);
    assert!(id.bit_test(0));
    assert!(id.bit_test(1));
    assert!(id.bit_test(2));
    assert!(!id.bit_test(3));

    id.bit_flip(0);
    assert!(!id.bit_test(0));
}

#[test]
fn test_rand_with_prefix() {
    for _ in 0..100 {
        let id = NodeId::rand();
        let prefix = fastrand::usize(0..160);
        let new_id = NodeId::rand_with_prefix(id, prefix);
        let xor = (id ^ new_id).leading_zeros();
        assert_eq!(
            xor, prefix as u32,
            "Failed for id: {:?}, new id {:?}, prefix: {}",
            id, new_id, prefix
        );
    }
}

#[test]
fn routing_table_test_routing_table_basic() {
    let id = NodeId::new([1; 20]);
    let mut table = RoutingTable::new(id);

    // Test empty table
    assert_eq!(table.buckets_len(), 1);
    assert!(table.find_closest_nodes(NodeId::new([2; 20])).is_empty());

    // Test adding nodes
    let addr = local(1, 8000);
    let node_id = NodeId::new([2; 20]);
    assert!(table.update_node(node_id, &addr).is_ok());

    // Test finding added node
    let closest = table.find_closest_nodes(node_id);
    assert_eq!(closest.len(), 1);
    assert_eq!(closest[0].0, node_id);
    assert_eq!(closest[0].1, addr);

    // Test removing node
    let removed = table.remove_node(node_id);
    assert!(removed.is_some());
    assert_eq!(removed.unwrap().0, node_id);
    assert_eq!(removed.unwrap().1, addr);

    // Test bucket need split
    for i in 0..KBUCKET_SIZE {
        let test_addr = local(i as u8, 8000);
        let test_id = NodeId::new([i as u8; 20]);
        assert!(table.update_node(test_id, &test_addr).is_ok());
    }

    // Test duplicate IP error
    let dup_id = NodeId::new([99; 20]);
    assert!(matches!(
        table.update_node(dup_id, &addr),
        Err(UpdateNodeError::Mismatch)
    ));
}

#[test]
fn routing_table_test_bucket_split() {
    let id = NodeId::new([1; 20]);
    let mut table = RoutingTable::new(id);

    // Fill first bucket
    for i in 0..KBUCKET_SIZE {
        let test_id = NodeId::new([(i + 1) as u8; 20]);
        let addr = local((i + 1) as u8, 8000);
        assert!(table.update_node(test_id, &addr).is_ok());
    }

    // Trigger split
    let split_id = NodeId::new([0xFF; 20]);
    let split_addr = local(99, 8000);
    assert!(matches!(
        table.update_node(split_id, &split_addr),
        Err(UpdateNodeError::NeedSplit)
    ));
    table.split_bucket();
    assert_eq!(table.buckets_len(), 2);
}

#[test]
fn full_far_bucket_takes_no_more() {
    let mut table = RoutingTable::new(NodeId::zero());
    for i in 0..KBUCKET_SIZE {
        let mut id = NodeId::new([0xf0; 20]);
        id.data[19] = i as u8;
        assert!(table.update_node_at(id, &local(i as u8, 1), 5).is_ok());
    }
    let more = NodeId::new([0xf1; 20]);
    assert!(matches!(
        table.update_node_at(more, &local(77, 1), 5),
        Err(UpdateNodeError::Full)
    ));
    assert_eq!(table.nodes_len(), KBUCKET_SIZE);
}

#[test]
fn exclusive_or_is_its_own_inverse() {
    let a = NodeId::new([0xa5; 20]);
    let b = NodeId::new([0x3c; 20]);
    assert_eq!((a ^ b) ^ b, a);
    assert_eq!((a ^ b).hex(), "99".repeat(20));
}

#[test]
fn shared_prefix_is_the_leading_zeros_of_the_distance() {
    let id = NodeId::new([0x80; 20]);
    let tail = NodeId::new([0xff; 20]);
    for n in 0..=160 {
        let other = NodeId::with_prefix(id, n, tail);
        assert_eq!((id ^ other).leading_zeros(), n as u32);
    }
}

#[test]
fn hex_that_is_no_identifier() {
    assert!(NodeId::from_hex("").is_none());
    assert!(NodeId::from_hex(&"zz".repeat(20)).is_none());
    assert!(NodeId::from_hex(&"0".repeat(39)).is_none());
    assert_eq!(
        NodeId::from_hex("+123456789ABCDEF0123456789abcdef01234567"),
        Some(NodeId::new([
            0x01, 0x23, 0x45, 0x67, 0x89, 0xab, 0xcd, 0xef, 0x01, 0x23, 0x45, 0x67, 0x89, 0xab,
            0xcd, 0xef, 0x01, 0x23, 0x45, 0x67,
        ]))
    );
    assert!(NodeId::can_split_hex(&"0".repeat(40)));
    assert!(!NodeId::can_split_hex(&format!("0é{}", "0".repeat(37))));
}

#[test]
fn binary_digits() {
    let mut id = NodeId::zero();
    id.bit_set(7, true);
    assert_eq!(id.bin(), format!("00000001{}", "0".repeat(152)));
    assert_eq!(hex_string(&[0, 255, 16]), "00ff10");
    assert!(!id.is_zero());
    assert!(NodeId::zero().is_zero());
    assert_eq!(id.leading_zeros(), 7);
}

#[test]
fn compact_addresses() {
    let v4 = SocketAddr::new(IpAddr::V4(0x0102_0304), 0x1a2b);
    let mut out = Vec::new();
    assert_eq!(encode_ip_to(&mut out, &v4), 6);
    assert_eq!(out, [1, 2, 3, 4, 0x1a, 0x2b]);
    assert_eq!(parse_ip(&out), Some(v4));
    let v6 = SocketAddr::new(IpAddr::V6(1), 80);
    let mut out = Vec::new();
    assert_eq!(encode_ip_to(&mut out, &v6), 18);
    assert_eq!(parse_ip(&out), Some(v6));
    assert_eq!(parse_ip(&out[1..]), None);
    assert_eq!(encode_your_ip(&IpAddr::V4(0x0a00_0001)), [10, 0, 0, 1]);
    assert_eq!(parse_your_ip(&[10, 0, 0, 1]), Some(IpAddr::V4(0x0a00_0001)));
    assert_eq!(parse_your_ip(&[0; 16]), Some(IpAddr::V6(0)));
    assert_eq!(parse_your_ip(&[0; 5]), None);
}

#[test]
fn addresses_are_sorted_and_single() {
    let mut addrs = vec![];
    let more = vec![
        SocketAddr::new(IpAddr::V6(1), 1),
        local(2, 1),
        local(1, 9),
        local(1, 3),
        local(2, 1),
    ];
    add_addrs(&mut addrs, &more);
    assert_eq!(
        addrs,
        vec![local(1, 3), local(1, 9), local(2, 1), SocketAddr::new(IpAddr::V6(1), 1)]
    );
}

#[test]
fn nodes_are_sorted_by_distance() {
    let target = NodeId::new([1; 20]);
    let nodes = vec![
        (NodeId::new([7; 20]), local(7, 1)),
        (NodeId::new([1; 20]), local(1, 1)),
        (NodeId::new([3; 20]), local(3, 1)),
    ];
    let sorted = sort_nodes(&target, &nodes);
    assert_eq!(sorted[0].1, local(1, 1));
    assert_eq!(sorted[1].1, local(3, 1));
    assert_eq!(sorted[2].1, local(7, 1));
}

#[test]
fn closest_nodes_are_the_nearest_of_the_table() {
    let mut table = RoutingTable::new(NodeId::zero());
    let firsts: [u8; 9] = [0x80, 0x90, 0xa0, 0xb0, 0x40, 0x41, 0x42, 0x43, 0x20];
    for (i, first) in firsts.iter().enumerate() {
        let mut id = NodeId::zero();
        id.data[0] = *first;
        let ip = local(i as u8 + 1, 80);
        if let Err(UpdateNodeError::NeedSplit) = table.update_node(id, &ip) {
            table.split_bucket();
            assert_eq!(table.update_node(id, &ip), Ok(()));
        }
    }
    let mut target = NodeId::zero();
    target.data[0] = 0xff;
    let found: Vec<u8> =
        table.find_closest_nodes(target).iter().map(|node| node.0.data[0]).collect();
    assert_eq!(found, vec![0xb0, 0xa0, 0x90, 0x80, 0x43, 0x42, 0x41, 0x40]);
    assert!(found.iter().all(|near| near ^ 0xff < 0x20 ^ 0xff));
}

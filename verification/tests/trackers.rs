use dht_rs::bencode::Object;
use dht_rs::bt::http_tracker::{check_failure, parse_peers, replace, TrackerUrl};
use dht_rs::bt::tracker_manager::{TrackerInstance, MILLISECOND, RETRY_AFTER};
use dht_rs::bt::udp_tracker::{
    announce_reply, connect_reply, reply_data, scrape_reply, Action, ConnectionStep, UdpProcess,
    CONNECTION_EXPIRY, PROTOCOL_ID,
};
use dht_rs::bt::{
    AnnounceInfo, AnnounceResult, AnnounceTask, Event, HttpTracker, PeerId, ScrapedItem,
    TrackerError, TrackerManager, UdpTracker, MAX_SCRAPE,
};
use dht_rs::kad::{IpAddr, SocketAddr};
use dht_rs::NodeId;

fn addr(ip: u32, port: u16) -> SocketAddr {
    SocketAddr::new(IpAddr::V4(ip), port)
}

fn info() -> AnnounceInfo {
    let mut hash = [b'a'; 20];
    hash[0] = 0x12;
    hash[1] = b'~';
    AnnounceInfo {
        hash: NodeId::new(hash),
        peer_id: PeerId::from([b'-'; 20]),
        port: 6881,
        downloaded: 1,
        uploaded: 2,
        left: 3,
        event: Event::Started,
        num_want: None,
    }
}

#[test]
fn udp_requests() {
    let mut tracker = UdpTracker::with_key(addr(1, 80), 0x0a0b_0c0d);
    assert_eq!(tracker.peer_addr(), addr(1, 80));
    let (tid, bytes) = tracker.connect();
    assert_eq!(tid, 0);
    assert_eq!(bytes, [0, 0, 4, 0x17, 0x27, 0x10, 0x19, 0x80, 0, 0, 0, 0, 0, 0, 0, 0]);
    assert_eq!(&bytes[..8], &PROTOCOL_ID.to_be_bytes());
    let (tid, bytes) = tracker.announce(77, &info());
    assert_eq!(tid, 1);
    assert_eq!(bytes.len(), 98);
    assert_eq!(&bytes[..16], &[0, 0, 0, 0, 0, 0, 0, 77, 0, 0, 0, 1, 0, 0, 0, 1]);
    assert_eq!(&bytes[36..56], &[b'-'; 20]);
    assert_eq!(&bytes[80..84], &[0, 0, 0, 2]);
    assert_eq!(&bytes[88..92], &[0x0a, 0x0b, 0x0c, 0x0d]);
    assert_eq!(&bytes[92..], &[0xff, 0xff, 0xff, 0xff, 0x1a, 0xe1]);
    let (tid, bytes) = tracker.scrape(77, &[NodeId::new([5; 20])]).unwrap();
    assert_eq!(tid, 2);
    assert_eq!(bytes.len(), 36);
    assert_eq!(
        tracker.scrape(77, &vec![NodeId::zero(); MAX_SCRAPE + 1]),
        Err(TrackerError::MaxScrapeReached)
    );
}

#[test]
fn udp_reply_reaches_its_request_once() {
    let mut tracker = UdpTracker::new(addr(1, 80));
    let (tid, _) = tracker.connect();
    let reply = [0, 0, 0, 0, 0, 0, 0, 0, 0, 0, 0, 0, 0, 0, 0, 9];
    assert!(matches!(tracker.process_udp(&reply, &addr(2, 80)), UdpProcess::NotOurs));
    assert!(matches!(tracker.process_udp(&reply[..7], &addr(1, 80)), UdpProcess::NotOurs));
    match tracker.process_udp(&reply, &addr(1, 81)) {
        UdpProcess::Reply(t, data) => {
            assert_eq!(t, tid);
            assert_eq!(connect_reply(&data.unwrap()), Ok(9));
        }
        other => panic!("{:?}", other),
    }
    assert!(matches!(tracker.process_udp(&reply, &addr(1, 80)), UdpProcess::Unknown));
    let (tid, _) = tracker.connect();
    tracker.cancel(tid);
    assert!(matches!(
        tracker.process_udp(&[0, 0, 0, 0, 0, 0, 0, 1], &addr(1, 80)),
        UdpProcess::Unknown
    ));
}

#[test]
fn udp_replies() {
    assert_eq!(
        reply_data(Action::Announce, 3, b"no \xff"),
        Err(TrackerError::Error("no \u{fffd}".to_string()))
    );
    assert_eq!(reply_data(Action::Announce, 2, b""), Err(TrackerError::InvalidReply));
    assert_eq!(reply_data(Action::Announce, 1, b"x"), Ok(b"x".to_vec()));
    assert_eq!(connect_reply(&[0; 7]), Err(TrackerError::InvalidReply));
    let reply = [0, 0, 0, 60, 0, 0, 0, 2, 0, 0, 0, 3, 1, 2, 3, 4, 0, 80, 5, 6, 7, 8, 0, 81];
    let result = announce_reply(&reply, &addr(1, 80)).unwrap();
    assert_eq!(result.interval, 60);
    assert_eq!(result.leechers, 2);
    assert_eq!(result.seeders, 3);
    assert_eq!(result.peers, vec![addr(0x0102_0304, 80), addr(0x0506_0708, 81)]);
    assert!(announce_reply(&reply[..11], &addr(1, 80)).is_err());
    assert!(announce_reply(&reply[..13], &addr(1, 80)).is_err());
    let items = scrape_reply(&[0, 0, 0, 1, 0, 0, 0, 2, 0, 0, 0, 3]).unwrap();
    assert_eq!(items, vec![ScrapedItem { seeders: 1, leechers: 2, completed: 3 }]);
    assert_eq!(scrape_reply(&[0; 13]), Err(TrackerError::InvalidReply));
}

#[test]
fn udp_tracker_with_ipv6_gives_ipv6_peers() {
    let tracker = SocketAddr::new(IpAddr::V6(1), 80);
    let mut reply = vec![0, 0, 0, 60, 0, 0, 0, 2, 0, 0, 0, 3];
    reply.extend_from_slice(&[0x20, 1, 0xd, 0xb8, 0, 0, 0, 0, 0, 0, 0, 0, 0, 0, 0, 9, 0x1a, 0xe1]);
    let peer = SocketAddr::new(IpAddr::V6(0x2001_0db8_0000_0000_0000_0000_0000_0009), 6881);
    assert_eq!(announce_reply(&reply, &tracker).unwrap().peers, vec![peer]);
    assert_eq!(announce_reply(&reply, &addr(1, 80)).unwrap().peers.len(), 3);
    // What does not come out even for IPv6 addresses holds IPv4 addresses.
    let some = announce_reply(&reply[..18], &tracker).unwrap();
    assert_eq!(some.peers, vec![addr(0x2001_0db8, 0)]);
    assert_eq!(
        announce_reply(&reply[..17], &tracker).unwrap_err(),
        TrackerError::InvalidReply
    );
}

#[test]
fn udp_connection_expires() {
    let mut tracker = UdpTracker::new(addr(1, 80));
    assert_eq!(tracker.connection_id(5), ConnectionStep::Connect);
    assert_eq!(tracker.connection_id(6), ConnectionStep::Wait);
    assert_eq!(tracker.connected(Err(TrackerError::TimedOut), 7), Err(TrackerError::TimedOut));
    assert_eq!(tracker.connection_id(8), ConnectionStep::Connect);
    assert_eq!(tracker.connected(Ok(44), 10), Ok(44));
    assert_eq!(tracker.connection_id(9 + CONNECTION_EXPIRY), ConnectionStep::Use(44));
    assert_eq!(tracker.connection_id(10 + CONNECTION_EXPIRY), ConnectionStep::Connect);
}

#[test]
fn urls_are_parsed() {
    let url = TrackerUrl::parse("HTTP://Example.org:80/announce").unwrap();
    assert_eq!(url.scheme, "http");
    assert_eq!(url.text, "http://example.org/announce");
    assert!(TrackerUrl::parse("no url").is_none());
    let udp = TrackerUrl::parse("udp://example.org:1337/announce").unwrap();
    assert!(HttpTracker::new(&udp).is_none());
}

#[test]
fn http_requests() {
    let url = TrackerUrl::parse("https://example.org/announce").unwrap();
    let tracker = HttpTracker::with_key(&url, 99).unwrap();
    assert_eq!(
        tracker.announce_url(&info()),
        "https://example.org/announce?info_hash=%12~aaaaaaaaaaaaaaaaaa&peer_id=--------------------&port=6881&uploaded=2&downloaded=1&left=3&event=started&compact=1&key=99"
    );
    let hashes = [NodeId::new([b'b'; 20]), NodeId::new([0xff; 20])];
    assert_eq!(
        tracker.scrape_url(&hashes),
        format!(
            "https://example.org/scrape?info_hash=bbbbbbbbbbbbbbbbbbbb&info_hash={}",
            "%FF".repeat(20)
        )
    );
    assert_eq!(tracker.scrape_url(&[]), "https://example.org/scrape");
    assert_eq!(tracker.url().text, "https://example.org/announce");
    assert_eq!(replace("aaXaaa", "aa", "b"), "bXba");
}

#[test]
fn http_announce_replies() {
    let reply = b"d8:completei5e11:external ip4:abcd10:incompletei-1e8:intervali900e5:peers6:\x01\x02\x03\x04\0\x50e";
    let result = HttpTracker::announce(reply).unwrap();
    assert_eq!(result.interval, 900);
    assert_eq!(result.peers, vec![addr(0x0102_0304, 80)]);
    assert_eq!(result.seeders, Some(5));
    assert_eq!(result.leechers, None);
    assert_eq!(result.completed, None);
    assert_eq!(result.external_ip, None);

    let failure = HttpTracker::announce(b"d14:failure reason4:nopee");
    assert!(matches!(failure, Err(TrackerError::Error(text)) if text == "nope"));
    let wrong: [&[u8]; 5] = [
        b"rubbish",
        b"d8:intervali900ee",
        b"d5:peers0:e",
        b"d8:intervali-1e5:peers0:e",
        b"d8:intervali900e5:peers5:abcdee",
    ];
    for reply in wrong {
        assert!(matches!(HttpTracker::announce(reply), Err(TrackerError::InvalidReply)));
    }
}

#[test]
fn http_lists_of_peers() {
    let list = Object::parse(b"ld2:ip4:\x7f\0\0\x017:peer id2:ab4:porti6881eee").unwrap();
    assert_eq!(parse_peers(&list, 6), Ok(vec![addr(0x7f00_0001, 6881)]));
    let no_port = Object::parse(b"ld2:ip4:\x7f\0\0\x017:peer id2:abee").unwrap();
    assert_eq!(parse_peers(&no_port, 6), Err(TrackerError::InvalidReply));
    let big_port = Object::parse(b"ld2:ip4:\x7f\0\0\x017:peer id2:ab4:porti70000eee").unwrap();
    assert_eq!(parse_peers(&big_port, 6), Err(TrackerError::InvalidReply));
    assert_eq!(parse_peers(&Object::Int(1), 6), Err(TrackerError::InvalidReply));
    let mut six = vec![0; 15];
    six.extend_from_slice(&[9, 0, 7]);
    assert_eq!(
        parse_peers(&Object::String(six), 18),
        Ok(vec![SocketAddr::new(IpAddr::V6(9), 7)])
    );
    assert!(check_failure(&Object::Int(1)).is_ok());
}

#[test]
fn http_scrape_replies() {
    let mut reply = b"d5:filesd20:".to_vec();
    reply.extend_from_slice(&[7; 20]);
    reply.extend_from_slice(b"d8:completei1e10:downloadedi2e10:incompletei3eeee");
    assert_eq!(
        HttpTracker::scrape(&reply),
        Ok(vec![(
            NodeId::new([7; 20]),
            ScrapedItem { seeders: 1, leechers: 3, completed: 2 }
        )])
    );
    assert_eq!(HttpTracker::scrape(b"de"), Err(TrackerError::InvalidReply));
    assert_eq!(
        HttpTracker::scrape(b"d5:filesd2:abd8:completei1e10:downloadedi2e10:incompletei3eeee"),
        Err(TrackerError::InvalidReply)
    );
    assert_eq!(
        HttpTracker::scrape(b"d14:failure reason1:xe"),
        Err(TrackerError::Error("x".to_string()))
    );
}

fn manager() -> TrackerManager {
    let mut manager = TrackerManager::new();
    let urls = [
        "http://a.org/announce".to_string(),
        "".to_string(),
        "http://A.org:80/announce".to_string(),
        "udp://b.org/announce".to_string(),
        "https://c.org/announce".to_string(),
        "rubbish".to_string(),
    ];
    assert_eq!(manager.add_tracker_list(&urls), 2);
    manager
}

#[test]
fn trackers_are_added_once() {
    let mut manager = manager();
    assert_eq!(manager.trackers(), ["http://a.org/announce", "https://c.org/announce"]);
    assert_eq!(manager.add_tracker("http://a.org/announce"), None);
    assert_eq!(manager.add_tracker("http://d.org/announce"), Some(()));
    let url = TrackerUrl::parse("https://c.org/announce").unwrap();
    let tracker = HttpTracker::with_key(&url, 1).unwrap();
    manager.add_tracker_instance(TrackerInstance::Http(tracker));
    assert_eq!(manager.trackers().len(), 3);
    // A tracker that is asked in another way is known by its URL.
    let url = TrackerUrl::parse("udp://b.org:80/announce").unwrap();
    manager.add_tracker_instance(TrackerInstance::Other(url));
    assert_eq!(manager.trackers()[3], "udp://b.org:80/announce");
    assert!(!manager.process_udp(b"data", &addr(1, 1)));
}

fn result(interval: u32) -> AnnounceResult {
    AnnounceResult {
        interval,
        peers: vec![],
        seeders: None,
        leechers: None,
        completed: None,
        external_ip: None,
    }
}

#[test]
fn trackers_are_told_in_time() {
    let mut task = AnnounceTask::new(&manager(), info());
    assert_eq!(task.avg_next_announce(100), Some(100));
    let first = task.announce(100);
    assert_eq!(first.len(), 2);
    assert_eq!(first[1].0, 1);
    assert_eq!(first[1].1.event, Event::Started);
    assert!(task.announced(0, Ok(result(2)), 100).is_some());
    assert!(task.announced(1, Err(TrackerError::TimedOut), 100).is_none());
    assert_eq!(task.trackers()[1].last_error, Some(TrackerError::TimedOut));
    let next = 100 + (2 * MILLISECOND + RETRY_AFTER) / 2;
    assert_eq!(task.avg_next_announce(100), Some(next));
    assert!(task.announce(99 + 2 * MILLISECOND).is_empty());
    let again = task.announce(100 + 2 * MILLISECOND);
    assert_eq!(again.len(), 1);
    assert_eq!(again[0].1.event, Event::Empty);
    let (told, last) = task.shutdown();
    assert_eq!(told.len(), 2);
    assert_eq!(last.event, Event::Stopped);
    assert_eq!(task.avg_next_announce(100), None);
}

#[test]
fn trackers_that_were_not_told_are_not_told_of_the_end() {
    let mut task = AnnounceTask::new(&manager(), info());
    assert!(task.announced(0, Ok(result(2)), 5).is_some());
    let (told, _) = task.shutdown();
    assert_eq!(told.len(), 1);
    assert_eq!(told[0].url().text, "http://a.org/announce");
}

#[test]
fn messages_of_tracker_errors() {
    assert_eq!(
        TrackerError::MaxScrapeReached.message(),
        "Invalid request to tracker, we can't send more than 74 scrape requests at once"
    );
    assert_eq!(
        TrackerError::Error("x".to_string()).message(),
        "Error reply from tracker: x"
    );
    assert_eq!(TrackerError::NetworkError("y".to_string()).message(), "Network error: y");
    assert_eq!(TrackerError::TimedOut.message(), "Request Timed out");
    assert_eq!(Event::Completed.code(), 1);
}

use dht_rs::bencode::Object;
use dht_rs::bt::bt_stream::BtHandshakeInfo;
use dht_rs::bt::{BtError, BtMessage, PeerId, UtMetadataMessage};
use dht_rs::crawler::crawler::{make_peer_id, packet_kinds, Notice, PacketKind};
use dht_rs::crawler::downloader::{
    answer_request, make_handshake_info, your_ip, Download, Downloader, PeerAdded, Worker,
    WorkerAction, MAX_CONCURRENT, MAX_PENDING_PEERS,
};
use dht_rs::crawler::peer_finder::FindStep;
use dht_rs::crawler::recent::RecentKeys;
use dht_rs::crawler::sampler::{collect_peers, sort_ids, Sample, FAILED_RETRY, SECOND};
use dht_rs::crawler::{
    Crawler, CrawlerConfig, CrawlerController, DualStack, PeerFinder, PeerFinderConfig, Sampler,
};
use dht_rs::kad::{IpAddr, SocketAddr};
use dht_rs::krpc::SampleInfoHashesReply;
use dht_rs::{InfoHash, NodeId};
use std::cell::RefCell;

fn addr(ip: u32, port: u16) -> SocketAddr {
    SocketAddr::new(IpAddr::V4(ip), port)
}

#[test]
fn least_recently_used_is_forgotten() {
    let mut keys = RecentKeys::new(2);
    assert_eq!(keys.put(b"a", Some(1)), None);
    assert_eq!(keys.put(b"b", None), None);
    assert_eq!(keys.get(b"a"), Some(Some(1)));
    assert_eq!(keys.put(b"c", Some(3)), None);
    assert!(!keys.contains(b"b"));
    assert_eq!(keys.keys(), [b"c".to_vec(), b"a".to_vec()]);
    assert_eq!(keys.put(b"a", Some(9)), Some(Some(1)));
    assert_eq!(keys.keys(), [b"a".to_vec(), b"c".to_vec()]);
    assert_eq!(keys.pop(b"a"), Some(Some(9)));
    assert_eq!(keys.pop(b"a"), None);
    assert_eq!(keys.get(b"a"), None);
}

#[test]
fn dual_stack_selects_by_family() {
    let mut both: DualStack<u32> = DualStack::new();
    assert!(both.is_empty());
    both.set_v6(6);
    assert_eq!(both.select(&addr(1, 1)), None);
    both.set_v4(4);
    assert_eq!(both.select(&addr(1, 1)), Some(&4));
    assert_eq!(both.select(&SocketAddr::new(IpAddr::V6(1), 1)), Some(&6));
    assert_eq!(both.all(), vec![&4, &6]);
    let same = both.clone();
    assert_eq!(same.v4(), Some(&4));
    assert_eq!(same.v6(), Some(&6));
    assert!(!same.is_empty());
}

fn peer_info(size: i64) -> BtHandshakeInfo {
    let mut info = make_handshake_info(PeerId::make(), NodeId::zero(), &addr(1, 1));
    let text = format!("d1:md11:ut_metadatai7ee13:metadata_sizei{}ee", size);
    info.extensions = Object::parse(text.as_bytes());
    info
}

fn local_info() -> BtHandshakeInfo {
    make_handshake_info(PeerId::make(), NodeId::zero(), &addr(0x0102_0304, 1))
}

fn digest(data: &[u8]) -> InfoHash {
    let digest: [u8; 20] = <sha1::Sha1 as sha1::Digest>::digest(data).into();
    NodeId::new(digest)
}

fn data_message(piece: u64, payload: &[u8]) -> BtMessage {
    BtMessage::Extended {
        id: 1,
        msg: UtMetadataMessage::Data { piece, total_size: 20000 }.to_bencode(),
        payload: payload.to_vec(),
    }
}

#[test]
fn own_handshake() {
    let info = local_info();
    assert_eq!(info.metadata_id(), Some(1));
    assert_eq!(
        info.extensions.as_ref().unwrap().encode(),
        b"d1:md11:ut_metadatai1ee1:v11:DHT Indexer6:yourip4:\x01\x02\x03\x04e"
    );
    assert_eq!(your_ip(&info), Some(IpAddr::V4(0x0102_0304)));
    let refused = answer_request(true, PeerId::make(), NodeId::zero(), &addr(1, 1));
    assert!(matches!(refused, Err(BtError::UserDefined(text)) if text == "Already have metadata"));
    assert!(answer_request(false, PeerId::make(), NodeId::zero(), &addr(1, 1)).is_ok());
}

#[test]
fn metadata_is_downloaded_piece_by_piece() {
    let metadata: Vec<u8> = (0..20000u32).map(|i| i as u8).collect();
    let mut download = Download::start(&peer_info(20000), &local_info(), digest(&metadata)).unwrap();
    let mut pieces = 0;
    while let Some(request) = download.request() {
        match request {
            BtMessage::Extended { id, msg, payload } => {
                assert_eq!(id, 7);
                assert!(payload.is_empty());
                assert_eq!(
                    UtMetadataMessage::from_bencode(&msg),
                    Some(UtMetadataMessage::Request { piece: pieces })
                );
            }
            other => panic!("{:?}", other),
        }
        assert_eq!(download.receive(&BtMessage::Choke), Ok(false));
        let from = pieces as usize * 16384;
        let to = std::cmp::min(from + 16384, metadata.len());
        assert_eq!(download.receive(&data_message(pieces, &metadata[from..to])), Ok(true));
        pieces += 1;
    }
    assert_eq!(pieces, 2);
    assert_eq!(download.finish(), Ok(metadata));
}

#[test]
fn wrong_metadata_is_refused() {
    let mut download = Download::start(&peer_info(3), &local_info(), digest(b"abc")).unwrap();
    assert_eq!(download.receive(&data_message(0, b"abd")), Ok(true));
    assert!(matches!(download.finish(), Err(BtError::UserDefined(text)) if text == "Hash mismatch"));
}

#[test]
fn downloads_that_fail() {
    let mut bare = peer_info(3);
    bare.extensions = None;
    assert!(matches!(
        Download::start(&bare, &local_info(), NodeId::zero()),
        Err(BtError::UnsupportedExtension)
    ));
    assert!(matches!(
        Download::start(&peer_info(-1), &local_info(), NodeId::zero()),
        Err(BtError::UserDefined(text)) if text == "Peer doesn't have metadata"
    ));
    assert!(matches!(
        Download::start(&peer_info(3), &bare, NodeId::zero()),
        Err(BtError::UnsupportedExtension)
    ));
    let mut download = Download::start(&peer_info(3), &local_info(), NodeId::zero()).unwrap();
    assert_eq!(download.receive(&data_message(1, b"abc")), Err(BtError::InvalidMessage));
    let reject = |piece: u64| BtMessage::Extended {
        id: 1,
        msg: UtMetadataMessage::Reject { piece }.to_bencode(),
        payload: vec![],
    };
    assert_eq!(download.receive(&reject(1)), Err(BtError::InvalidMessage));
    assert!(matches!(
        download.receive(&reject(0)),
        Err(BtError::UserDefined(text)) if text == "Peer reject too many times"
    ));
    let other = BtMessage::Extended { id: 9, msg: Object::Int(1), payload: vec![] };
    assert_eq!(download.receive(&other), Ok(false));
}

#[test]
fn workers_start_wait_and_end() {
    let mut worker = Worker::new(addr(0, 1));
    for i in 1..=MAX_CONCURRENT as u32 {
        assert!(worker.send(addr(i, 1)));
    }
    for i in 0..MAX_CONCURRENT as u32 {
        assert!(matches!(worker.next(), WorkerAction::Start(a) if a == addr(i, 1)));
    }
    assert!(matches!(worker.next(), WorkerAction::Wait));
    assert_eq!(worker.finished(None), None);
    assert!(matches!(worker.next(), WorkerAction::Start(_)));
    for _ in 0..MAX_CONCURRENT - 1 {
        assert_eq!(worker.finished(Some(Err(BtError::InvalidMessage))), None);
    }
    assert_eq!(worker.finished(Some(Ok(vec![1]))), Some(vec![1]));
    assert!(matches!(worker.next(), WorkerAction::Sleep));
    assert!(matches!(worker.next(), WorkerAction::Exit));
}

#[test]
fn peers_wait_for_their_worker() {
    let mut downloader = Downloader::new(PeerId::make());
    let hash = NodeId::new([5; 20]);
    downloader.add_self_ip(&IpAddr::V4(9));
    assert_eq!(downloader.add_peer(hash, addr(9, 1)), PeerAdded::Own);
    assert!(downloader.collect_hashes().is_empty());
    assert_eq!(downloader.add_peer(hash, addr(1, 1)), PeerAdded::Started);
    for i in 1..MAX_PENDING_PEERS as u32 {
        assert_eq!(downloader.add_peer(hash, addr(i + 100, 2)), PeerAdded::Queued);
    }
    assert_eq!(downloader.add_peer(hash, addr(2, 2)), PeerAdded::Busy);
    downloader.add_hash(NodeId::new([6; 20]));
    assert_eq!(downloader.collect_hashes(), vec![NodeId::new([6; 20]), hash]);
    assert!(matches!(downloader.worker_next(hash), Some(WorkerAction::Start(_))));
    assert_eq!(downloader.worker_finished(hash, Some(Ok(vec![2]))), Some(vec![2]));
    assert!(downloader.worker_next(NodeId::zero()).is_none());
    assert!(downloader.cancel(hash));
    assert!(!downloader.cancel(hash));
    assert_eq!(downloader.collect_hashes(), vec![NodeId::new([6; 20])]);
}

#[test]
fn peers_are_looked_for_once() {
    let mut finder = PeerFinder::new(PeerFinderConfig {
        max_concurrent: 20,
        max_retries: 2,
        bind_ip: addr(0, 0),
        peer_id: PeerId::make(),
    });
    let hash = NodeId::new([1; 20]);
    assert_eq!(finder.add_hash(hash), Some(1));
    assert_eq!(finder.add_hash(hash), None);
    assert_eq!(finder.add_hash(NodeId::new([2; 20])), Some(2));
    assert_eq!(finder.cancel(hash), Some(1));
    assert_eq!(finder.cancel(hash), None);
    assert_eq!(finder.finish(hash), 1);
    assert_eq!(finder.find_peers(0), FindStep::Search(0));
    assert_eq!(finder.find_peers(1), FindStep::Search(900));
    assert_eq!(finder.find_peers(2), FindStep::Done);
    assert!(finder.is_same_family(&addr(1, 1)));
    assert!(!finder.is_same_family(&SocketAddr::new(IpAddr::V6(1), 1)));
    assert_eq!(finder.cancel_all(), 0);
    assert_eq!(finder.pending_len(), 0);
}

#[test]
fn nodes_are_sampled_in_time() {
    let mut sampler = Sampler::new();
    let node = addr(7, 7);
    assert!(sampler.add_sample_node(&node, 10));
    assert!(!sampler.add_sample_node(&node, 11));
    sampler.finish(&node, 5, 20);
    assert!(!sampler.add_sample_node(&node, 19 + 5 * SECOND));
    assert!(sampler.add_sample_node(&node, 20 + 5 * SECOND));
    assert!(sampler.add_sample_node(&addr(7, 8), 0));
}

#[test]
fn samples_are_sorted_and_single() {
    let ids = vec![NodeId::new([3; 20]), NodeId::new([1; 20]), NodeId::new([3; 20])];
    assert_eq!(sort_ids(&ids), vec![NodeId::new([1; 20]), NodeId::new([3; 20])]);
    let sample = Sample::replied(&SampleInfoHashesReply {
        id: NodeId::zero(),
        interval: 60,
        nodes: vec![],
        num: 3,
        info_hashes: ids,
    });
    assert_eq!(sample.duration, 60);
    assert_eq!(sample.wanted(&vec![true, false]), vec![NodeId::new([3; 20])]);
    assert_eq!(Sample::failed(true).duration, 4 * 3600);
    assert_eq!(Sample::failed(false).duration, FAILED_RETRY);
    let peers = collect_peers(&vec![(NodeId::zero(), vec![addr(2, 1), addr(1, 1), addr(2, 1)])]);
    assert_eq!(peers, vec![(NodeId::zero(), vec![addr(1, 1), addr(2, 1)])]);
}

#[test]
fn packets_are_told_apart() {
    assert!(packet_kinds(b"").is_empty());
    assert_eq!(packet_kinds(b"d1:ad"), [PacketKind::Krpc, PacketKind::Utp]);
    assert_eq!(packet_kinds(&[0, 0, 0, 3, 0, 0, 0, 1]), [PacketKind::Tracker, PacketKind::Utp]);
    assert_eq!(packet_kinds(&[0, 0, 0, 4, 0, 0, 0, 1]), [PacketKind::Utp]);
    assert_eq!(packet_kinds(&[0, 0, 0, 3, 0, 0, 0]), [PacketKind::Utp]);
    assert_eq!(&make_peer_id().as_slice()[..6], b"DI0001");
}

struct Controller {
    known: Vec<InfoHash>,
    found: RefCell<Vec<InfoHash>>,
    downloaded: RefCell<Vec<Vec<u8>>>,
    messages: RefCell<Vec<String>>,
}

impl CrawlerController for Controller {
    fn on_info_hash_found(&self, hash: InfoHash) {
        self.found.borrow_mut().push(hash);
    }

    fn on_metadata_downloaded(&self, _hash: InfoHash, data: Vec<u8>) {
        self.downloaded.borrow_mut().push(data);
    }

    fn on_message(&self, message: String) {
        self.messages.borrow_mut().push(message);
    }

    fn has_metadata(&self, hash: InfoHash) -> bool {
        self.known.contains(&hash)
    }
}

fn controller() -> Controller {
    Controller {
        known: vec![NodeId::new([9; 20])],
        found: RefCell::new(vec![]),
        downloaded: RefCell::new(vec![]),
        messages: RefCell::new(vec![]),
    }
}

fn crawler() -> Crawler {
    Crawler::new(&CrawlerConfig {
        id: NodeId::new([1; 20]),
        ip: addr(0, 0),
        hash_lru_cache_size: 100,
        trackers: vec!["http://a.org/announce".to_string(), "x".to_string()],
    })
}

#[test]
fn hashes_are_found_once() {
    let mut crawler = crawler();
    let controller = controller();
    let hash = NodeId::new([5; 20]);
    assert_eq!(crawler.trackers.trackers().len(), 1);
    assert!(crawler.on_peer_announce(&controller, NodeId::new([9; 20]), addr(1, 1)).is_none());
    let (outcome, added) = crawler.on_peer_announce(&controller, hash, addr(1, 1)).unwrap();
    assert!(outcome.found && outcome.search);
    assert_eq!(added, PeerAdded::Started);
    let (outcome, added) = crawler.on_peer_announce(&controller, hash, addr(2, 1)).unwrap();
    assert!(!outcome.found && !outcome.search);
    assert_eq!(added, PeerAdded::Queued);
    let sampled = NodeId::new([6; 20]);
    assert!(crawler.on_hash_sampled(&controller, sampled).found);
    assert!(!crawler.on_hash_sampled(&controller, sampled).found);
    assert!(!crawler.on_hash_sampled(&controller, NodeId::new([9; 20])).found);
    assert_eq!(*controller.found.borrow(), vec![hash, sampled]);
    assert!(crawler.downloader.collect_hashes().contains(&sampled));
    assert!(crawler.on_metadata_downloaded(&controller, hash, vec![1, 2]));
    assert!(!crawler.on_metadata_downloaded(&controller, hash, vec![3]));
    assert_eq!(*controller.downloaded.borrow(), vec![vec![1, 2], vec![3]]);
    assert!(crawler.peers_found(true, hash, &vec![addr(3, 3)]).is_empty());
    assert_eq!(
        crawler.peers_found(false, sampled, &vec![addr(3, 3), addr(4, 4)]),
        vec![PeerAdded::Started, PeerAdded::Queued]
    );
    let known = NodeId::new([9; 20]);
    assert!(crawler.on_peers_found(&controller, known, &vec![addr(3, 3)]).is_empty());
    assert_eq!(
        crawler.on_peers_found(&controller, sampled, &vec![addr(5, 5)]),
        vec![PeerAdded::Queued]
    );
}

#[test]
fn sampling_stops_with_too_many_torrents() {
    let mut crawler = crawler();
    assert!(!crawler.on_query(&addr(1, 1), 5));
    assert!(!crawler.set_auto_sample(true));
    assert!(crawler.set_auto_sample(true));
    assert!(crawler.auto_sample());
    assert!(crawler.on_query(&addr(1, 1), 5));
    assert!(!crawler.on_query(&addr(1, 1), 6));
    assert_eq!(crawler.on_tasks_count_changed(1000), None);
    assert_eq!(crawler.on_tasks_count_changed(1001), Some(Notice::TooMany));
    assert_eq!(crawler.on_tasks_count_changed(2000), None);
    assert!(!crawler.on_query(&addr(2, 1), 5));
    assert_eq!(crawler.on_tasks_count_changed(20), None);
    assert_eq!(crawler.on_tasks_count_changed(19), Some(Notice::Normal));
    assert!(crawler.on_query(&addr(2, 1), 5));
    assert_eq!(Notice::TooMany.text(), "Too many hash, auto sample is disabled");
}

#[test]
fn searches_are_counted() {
    let mut crawler = crawler();
    let controller = controller();
    for i in 0..=1000u32 {
        let mut id = NodeId::zero();
        id.data[..4].copy_from_slice(&i.to_be_bytes());
        id.data[19] = 1;
        crawler.on_hash_sampled(&controller, id);
    }
    assert_eq!(*controller.messages.borrow(), vec![Notice::TooMany.text().to_string()]);
    let mut id = NodeId::zero();
    id.data[19] = 1;
    assert_eq!(crawler.search_ended(id), None);
    assert_eq!(crawler.peer_finder.pending_len(), 1000);
    assert!(crawler.add_hash(id).search);
    assert_eq!(crawler.dht_session().routing_table().nodes_len(), 0);
}

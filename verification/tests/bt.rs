use dht_rs::bencode::{Dict, Object};
use dht_rs::bt::bt_stream::{
    read_handshake, write_handshake, BtHandshakeRequest, BtMessageId,
};
use dht_rs::bt::crypto::KeyStream;
use dht_rs::bt::dh::{make_private_key, make_public_key, make_shared_key};
use dht_rs::bt::pe_stream::{make_req_hash1, make_skey_hash, sync_for, xor_hash, Sync};
use dht_rs::bt::{
    BtError, BtHandshakeInfo, BtMessage, BtStream, PeClient, PeError, PeServer, PeStream, PeerId,
    Torrent, UtMetadataMessage,
};
use dht_rs::{InfoHash, NodeId};

#[test]
fn test_torrent_basic() {
    // Create a basic torrent with minimal info
    let info = Object::from(Dict::from_pairs(vec![
        (b"name".to_vec(), Object::from(b"test.txt".as_slice())),
        (b"piece length".to_vec(), Object::from(16384i64)),
        (b"length".to_vec(), Object::from(1000i64)),
    ]));

    let torrent = Torrent::from_info(info).unwrap();
    assert_eq!(torrent.name(), "test.txt");
    assert_eq!(torrent.piece_length(), 16384);
    assert_eq!(torrent.length(), 1000);
}

#[test]
fn torrent_with_files() {
    let bytes = b"d4:infod5:filesld6:lengthi5e4:pathl1:a1:beed6:lengthi7e4:pathl1:ceee4:name4:test12:piece lengthi16384eee";
    let torrent = Torrent::from_bytes(bytes).unwrap();
    assert!(torrent.length_fits());
    assert_eq!(torrent.length(), 12);
    assert_eq!(torrent.files(), vec![("a/b".to_string(), 5), ("c".to_string(), 7)]);
    assert_eq!(torrent.encode(), bytes);
    let info = &bytes[7..bytes.len() - 1];
    let same = Torrent::from_info_bytes(info).unwrap();
    assert_eq!(same.info_hash(), torrent.info_hash());
    assert!(Torrent::from_bytes(b"d4:infod4:name4:testee").is_none());
    assert!(Torrent::from_bytes(b"rubbish").is_none());
}

#[test]
fn info_hash_is_the_digest_of_the_info() {
    let info = b"d6:lengthi1e4:name1:a12:piece lengthi2ee";
    let torrent = Torrent::from_info_bytes(info).unwrap();
    let digest: [u8; 20] = <sha1::Sha1 as sha1::Digest>::digest(info).into();
    assert_eq!(torrent.info_hash(), NodeId::new(digest));
}

/// Runs both sides of the handshake until neither has anything to say.
fn shake(mut server: PeServer, mut client: PeClient, hello: Vec<u8>) -> (PeServer, PeClient) {
    let mut to_server = hello;
    loop {
        let to_client = server.server_handshake(&to_server);
        to_server = client.client_handshake(&to_client);
        if to_client.is_empty() && to_server.is_empty() {
            return (server, client);
        }
    }
}

fn send(from: &mut PeStream, to: &mut PeStream, data: &[u8]) -> Vec<u8> {
    assert!(from.can_take(data.len()));
    from.start_write(data);
    let bytes = from.unsent().to_vec();
    let first = to.read_first(1024);
    let got = to.receive(&bytes);
    from.sent(bytes.len());
    [first, got].concat()
}

#[test]
fn test_pe_stream() {
    let hash = InfoHash::zero();
    // Start handshake...
    let (client, hello) = PeClient::new(hash);
    let server = PeServer::new(vec![hash]);
    let (server, client) = shake(server, client, hello);
    let mut left = server.outcome().unwrap().unwrap();
    let mut right = client.outcome().unwrap().unwrap();

    // Try to write some data
    let data = b"Hello, world!";
    let buf = send(&mut left, &mut right, data);
    let n = buf.len();
    assert_eq!(n, data.len());
    assert_eq!(&buf[..n], data);
    assert!(left.has_encryption());
    assert!(right.has_encryption());
    assert_eq!(send(&mut right, &mut left, b"And back"), b"And back");
}

#[test]
fn encrypted_bytes_differ_from_the_data() {
    let hash = NodeId::new([7; 20]);
    let (client, hello) = PeClient::new(hash);
    let (server, _) = shake(PeServer::new(vec![NodeId::zero(), hash]), client, hello);
    let mut left = server.outcome().unwrap().unwrap();
    left.start_write(&[0u8; 64]);
    assert_ne!(left.unsent(), &[0u8; 64]);
}

#[test]
fn unknown_hash_is_refused() {
    let (client, hello) = PeClient::new(NodeId::new([1; 20]));
    let (server, _) = shake(PeServer::new(vec![NodeId::new([2; 20])]), client, hello);
    assert!(matches!(server.outcome(), Some(Err(PeError::InfoHashMismatch))));
}

#[test]
fn plain_peer_passes_through() {
    let hash = NodeId::new([3; 20]);
    let mut server = PeServer::new(vec![hash]);
    let hello = write_handshake(&BtHandshakeInfo {
        hash,
        peer_id: PeerId::make(),
        extensions: None,
    });
    assert!(server.server_handshake(&hello).is_empty());
    let mut stream = server.outcome().unwrap().unwrap();
    assert!(!stream.has_encryption());
    let first = stream.read_first(1024);
    let rest = stream.receive(&[]);
    assert_eq!([first, rest].concat(), hello);
}

#[test]
fn handshake_works_byte_by_byte() {
    let hash = NodeId::new([3; 20]);
    let (mut client, hello) = PeClient::new(hash);
    let mut server = PeServer::new(vec![hash]);
    let mut to_server = hello;
    loop {
        let mut to_client = Vec::new();
        for byte in &to_server {
            to_client.extend(server.server_handshake(&[*byte]));
        }
        to_server = Vec::new();
        for byte in &to_client {
            to_server.extend(client.client_handshake(&[*byte]));
        }
        if to_client.is_empty() && to_server.is_empty() {
            break;
        }
    }
    let mut left = server.outcome().unwrap().unwrap();
    let mut right = client.outcome().unwrap().unwrap();
    assert_eq!(send(&mut left, &mut right, b"in parts"), b"in parts");
    assert_eq!(send(&mut right, &mut left, b"back again"), b"back again");
}

#[test]
fn plain_peer_passes_through_in_parts() {
    let hash = NodeId::new([3; 20]);
    let hello = write_handshake(&BtHandshakeInfo {
        hash,
        peer_id: PeerId::make(),
        extensions: None,
    });
    let mut at_once = PeServer::new(vec![hash]);
    at_once.server_handshake(&hello);
    let mut in_parts = PeServer::new(vec![hash]);
    for byte in &hello {
        assert!(in_parts.server_handshake(&[*byte]).is_empty());
    }
    for server in [at_once, in_parts] {
        let mut stream = server.outcome().unwrap().unwrap();
        assert_eq!(stream.read_first(1024), &hello[..20]);
        assert_eq!(stream.receive(b"more"), [&hello[20..], b"more"].concat());
    }
}

#[test]
fn handshake_without_a_mark_fails() {
    let (mut client, _) = PeClient::new(NodeId::zero());
    client.client_handshake(&[5u8; 96]);
    client.client_handshake(&[5u8; 4096]);
    assert!(matches!(client.outcome(), Some(Err(PeError::HanshakeFailed))));
}

#[test]
fn shared_secrets_agree() {
    let a = make_private_key();
    let b = make_private_key();
    let public_a = make_public_key(&a);
    let public_b = make_public_key(&b);
    assert_ne!(public_a, a);
    assert_eq!(make_shared_key(&a, &public_b), make_shared_key(&b, &public_a));
    assert_eq!(make_public_key(&[1]), vec![2]);
    assert_eq!(make_public_key(&[8]), vec![1, 0]);
}

#[test]
fn digests_of_the_handshake() {
    let digest: [u8; 20] = <sha1::Sha1 as sha1::Digest>::digest(b"req1abc").into();
    assert_eq!(make_req_hash1(b"abc"), digest);
    let mut text = b"req2".to_vec();
    text.extend_from_slice(&[9; 20]);
    let digest: [u8; 20] = <sha1::Sha1 as sha1::Digest>::digest(&text).into();
    assert_eq!(make_skey_hash(NodeId::new([9; 20])), digest);
    assert_eq!(xor_hash(&[5; 20], &[3; 20]), [6; 20]);
}

#[test]
fn key_stream_is_that_of_rc4() {
    let mut stream = KeyStream::new([b'k'; 20], 0);
    let mut other = KeyStream::new([b'k'; 20], 0);
    let zeros = stream.apply(&[0; 8]);
    let mut cipher = <rc4::Rc4<rc4::consts::U20> as rc4::KeyInit>::new(&[b'k'; 20].into());
    let mut expected = [0; 8];
    rc4::StreamCipher::apply_keystream(&mut cipher, &mut expected);
    assert_eq!(zeros, expected);
    assert_eq!(other.apply(&zeros), [0; 8]);
    let more = stream.apply(&[0; 8]);
    assert_eq!(other.apply(&more), [0; 8]);
    assert_eq!(stream.used(), 16);
}

#[test]
fn marks_are_found() {
    assert_eq!(sync_for(b"xxmark", b"mark", 10), Sync::Found(2));
    assert_eq!(sync_for(b"xxma", b"mark", 10), Sync::More);
    assert_eq!(sync_for(&[b'x'; 40], b"mark", 10), Sync::Failed);
}

fn roundtrip(message: &BtMessage) -> Vec<u8> {
    let mut out = Vec::new();
    message.encode_to(&mut out);
    assert!(BtMessage::can_decode(&out));
    assert_eq!(&BtMessage::decode(&out).unwrap(), message);
    out
}

#[test]
fn wire_messages_survive() {
    assert_eq!(roundtrip(&BtMessage::Choke), [0, 0, 0, 1, 0]);
    assert_eq!(roundtrip(&BtMessage::Unchoke), [0, 0, 0, 1, 1]);
    assert_eq!(roundtrip(&BtMessage::Interested), [0, 0, 0, 1, 2]);
    assert_eq!(roundtrip(&BtMessage::NotInterested), [0, 0, 0, 1, 3]);
    assert_eq!(
        roundtrip(&BtMessage::Have { piece_index: 0x0102_0304 }),
        [0, 0, 0, 5, 4, 1, 2, 3, 4]
    );
    assert_eq!(
        roundtrip(&BtMessage::Bitfield { data: vec![0xff, 0x80] }),
        [0, 0, 0, 3, 5, 0xff, 0x80]
    );
    let extended = BtMessage::Extended {
        id: 3,
        msg: Object::parse(b"d1:ai1ee").unwrap(),
        payload: b"rest".to_vec(),
    };
    assert_eq!(roundtrip(&extended), b"\0\0\0\x0e\x14\x03d1:ai1eerest");
    assert_eq!(extended.id(), BtMessageId::Extended);
}

#[test]
fn wrong_wire_messages() {
    assert_eq!(BtMessage::decode(&[0, 0, 0, 1]), Err(BtError::InvalidMessage));
    assert_eq!(BtMessage::decode(&[0, 0, 0, 1, 9]), Err(BtError::InvalidMessage));
    assert_eq!(BtMessage::decode(&[0, 0, 0, 0, 1]), Err(BtError::InvalidMessage));
    assert_eq!(BtMessage::decode(&[0xff, 0, 0, 0, 1]), Err(BtError::MessageTooLarge));
    assert_eq!(BtMessage::decode(&[0, 0, 0, 2, 4, 1]), Err(BtError::InvalidMessage));
    assert_eq!(BtMessage::decode(&[0, 0, 0, 3, 20, 1, 1]), Err(BtError::InvalidMessage));
    assert!(!BtMessage::can_decode(&[0, 0, 0, 1, 6]));
    assert_eq!(BtMessageId::try_from(7), Ok(BtMessageId::Piece));
    assert_eq!(BtMessageId::try_from(21), Err(BtError::InvalidMessage));
}

fn info(hash: InfoHash) -> BtHandshakeInfo {
    let mut info = BtHandshakeInfo {
        hash,
        peer_id: PeerId::from([b'p'; 20]),
        extensions: None,
    };
    info.set_metadata_id(3);
    info.set_pex_id(4);
    info
}

#[test]
fn extension_numbers() {
    let info = info(NodeId::zero());
    assert_eq!(info.metadata_id(), Some(3));
    assert_eq!(info.pex_id(), Some(4));
    assert_eq!(info.extension_id(b"other"), None);
    assert_eq!(info.metadata_size(), None);
    let mut info = info.clone();
    info.extensions = Object::parse(b"d1:md11:ut_metadatai300ee13:metadata_sizei77ee");
    assert_eq!(info.metadata_id(), None);
    assert_eq!(info.metadata_size(), Some(77));
    info.extensions = Object::parse(b"d13:metadata_sizei-1ee");
    assert_eq!(info.metadata_size(), None);
}

#[test]
fn first_handshake() {
    let hash = NodeId::new([7; 20]);
    let bytes = write_handshake(&info(hash));
    assert_eq!(bytes.len(), 68);
    assert_eq!(&bytes[..20], b"\x13BitTorrent protocol");
    assert_eq!(bytes[25], 0x10);
    let request = read_handshake(&bytes).unwrap();
    assert_eq!(request.hash, hash);
    assert_eq!(request.peer_id.as_slice(), &[b'p'; 20]);
    assert!(request.extensions);
    let mut wrong = bytes.clone();
    wrong[0] = 18;
    let mut start = [0u8; 20];
    start.copy_from_slice(&wrong[..20]);
    assert!(matches!(
        read_handshake(&wrong),
        Err(BtError::InvalidProtocolString(s)) if s == start
    ));
    assert!(matches!(
        BtStream::client_handshake(&info(NodeId::new([8; 20])), &bytes),
        Err(BtError::InfoHashMismatch(h)) if h == hash
    ));
    assert!(BtStream::client_handshake(&info(hash), &bytes).is_ok());
    assert!(BtStream::server_handshake(&bytes).is_ok());
}

fn request(extensions: bool) -> BtHandshakeRequest {
    BtHandshakeRequest {
        hash: NodeId::new([7; 20]),
        peer_id: PeerId::from([b'q'; 20]),
        extensions,
    }
}

#[test]
fn extension_handshake() {
    let own = info(NodeId::new([7; 20]));
    assert!(BtStream::extension_handshake(&request(false), &own).is_none());
    let bytes = BtStream::extension_handshake(&request(true), &own).unwrap();
    let reply = BtMessage::decode(&bytes).unwrap();
    let stream = BtStream::build(request(true), own.clone(), Some(reply)).unwrap();
    assert_eq!(stream.peer_info().metadata_id(), Some(3));
    assert_eq!(stream.local_info().pex_id(), Some(4));
    let failed = BtStream::build(request(true), own.clone(), Some(BtMessage::Choke));
    assert!(matches!(failed, Err(BtError::ExtHanshakeFailed)));
    assert!(BtStream::build(request(false), own, None).is_ok());
}

#[test]
fn messages_come_out_of_the_stream_whole() {
    let own = info(NodeId::new([7; 20]));
    let mut stream = BtStream::build(request(false), own, None).unwrap();
    let have = stream.write_message(&BtMessage::Have { piece_index: 5 });
    let mut bytes = vec![0, 0, 0, 0];
    bytes.extend_from_slice(&have);
    bytes.extend_from_slice(&[0, 0, 0, 1, 1, 0xff]);
    for byte in &bytes[..10] {
        stream.receive(&[*byte]);
        assert_eq!(stream.read_message(), Ok(None));
    }
    stream.receive(&bytes[10..]);
    assert_eq!(stream.read_message(), Ok(Some(have)));
    assert_eq!(stream.read_message(), Ok(Some(vec![0, 0, 0, 1, 1])));
    assert_eq!(stream.read_message(), Ok(None));
    stream.receive(&[0xff, 0, 0, 0]);
    assert_eq!(stream.read_message(), Err(BtError::MessageTooLarge));
}

#[test]
fn peer_identifiers() {
    assert_eq!(&PeerId::make().as_slice()[..9], b"-IL00000-");
    assert!(PeerId::from_slice(&[1; 19]).is_none());
    assert_eq!(PeerId::from_slice(&[1; 20]).unwrap().as_slice(), &[1; 20]);
    assert_ne!(PeerId::rand().as_slice(), PeerId::rand().as_slice());
}

#[test]
fn metadata_messages() {
    let messages = [
        UtMetadataMessage::Request { piece: 3 },
        UtMetadataMessage::Data { piece: 1, total_size: 34256 },
        UtMetadataMessage::Reject { piece: 0 },
    ];
    for message in messages {
        assert_eq!(UtMetadataMessage::from_bencode(&message.to_bencode()), Some(message));
    }
    assert_eq!(messages[1].to_bencode().encode(), b"d8:msg_typei1e5:piecei1e10:total_sizei34256ee");
    let unknown = Object::parse(b"d8:msg_typei9ee").unwrap();
    assert_eq!(
        UtMetadataMessage::from_bencode(&unknown),
        Some(UtMetadataMessage::Unknown)
    );
    let broken = Object::parse(b"d8:msg_typei1e5:piecei1ee").unwrap();
    assert_eq!(UtMetadataMessage::from_bencode(&broken), None);
}

//! Message stream encryption.
//!
//! The handshakes are driven by the bytes that arrive: each side keeps what it has not
//! used yet and says what to send. A stream that was set up encrypts and decrypts.

use super::crypto::{crypt, sha1, sha1_digest, KeyStream};
use super::dh::{
    key_bytes, make_key_to_bytes, make_private_key, make_public_key, make_shared_key, public_key,
    shared_key, PE_KEY_LEN,
};
use crate::bytes::{
    append_slice, big_endian, big_endian_bytes, bytes_equal, copy_slice, push_u16, push_u32,
    read_u16, read_u32, sub_slice, text,
};
use crate::kad::nodeid::{xor, InfoHash};
use crate::random::{random_below, random_bytes};
use vstd::prelude::*;

verus! {

/// How long the padding between messages is at most.
pub const PE_MAX_PAD_LEN: usize = 512;

/// How many bytes of a key stream are skipped.
pub const PE_DISCARD: usize = 1024;

/// How a stream is encrypted.
#[derive(Debug, Copy, Clone, PartialEq, Eq, Structural)]
pub enum Cipher {
    /// There was no encryption handshake.
    PassThrough,
    /// After the handshake nothing is encrypted.
    PlainText,
    /// After the handshake all is encrypted.
    Rc4,
}

/// Why a handshake failed.
#[derive(Debug, PartialEq, Eq)]
pub enum PeError {
    /// The other side did not keep to the protocol.
    HanshakeFailed,
    /// The other side wants a torrent that is not served.
    InfoHashMismatch,
    /// The network failed; the text says how.
    NetworkError(String),
}

/// Eight zeros, by which a side tells that decryption works.
pub open spec fn verification() -> Seq<u8> {
    seq![0, 0, 0, 0, 0, 0, 0, 0]
}

/// What a peer sends first that does not encrypt.
pub open spec fn protocol_header() -> Seq<u8> {
    seq![19u8] + text("BitTorrent protocol")
}

/// The hash that marks the end of the client's padding.
pub open spec fn req_hash1(share: Seq<u8>) -> Seq<u8> {
    sha1_digest(text("req1") + share)
}

/// The hash of an info hash.
pub open spec fn skey_hash(hash: Seq<u8>) -> Seq<u8> {
    sha1_digest(text("req2") + hash)
}

/// The hash that hides the hash of the info hash.
pub open spec fn share_hash(share: Seq<u8>) -> Seq<u8> {
    sha1_digest(text("req3") + share)
}

/// The key of what the client sends.
pub open spec fn key_a(share: Seq<u8>, hash: Seq<u8>) -> Seq<u8> {
    sha1_digest(text("keyA") + share + hash)
}

/// The key of what the server sends.
pub open spec fn key_b(share: Seq<u8>, hash: Seq<u8>) -> Seq<u8> {
    sha1_digest(text("keyB") + share + hash)
}

/// The first message of either side: its public key, and padding.
pub open spec fn key_message(private_key: Seq<u8>, pad: Seq<u8>) -> Seq<u8> {
    key_bytes(public_key(private_key)) + pad
}

/// What the client's request says, before encryption: the verification, the ciphers that
/// it provides, padding with its length, and that no data follows.
pub open spec fn request_plain(pad: Seq<u8>) -> Seq<u8> {
    verification() + big_endian_bytes(3, 4) + big_endian_bytes(pad.len(), 2) + pad
        + big_endian_bytes(0, 2)
}

/// The client's request for a torrent.
pub open spec fn request(share: Seq<u8>, hash: Seq<u8>, pad: Seq<u8>) -> Seq<u8> {
    req_hash1(share) + xor(skey_hash(hash), share_hash(share)) + crypt(
        key_a(share, hash),
        PE_DISCARD as int,
        request_plain(pad),
    )
}

/// The number by which a cipher is known.
pub open spec fn cipher_code(cipher: Cipher) -> nat {
    match cipher {
        Cipher::PassThrough => 0,
        Cipher::PlainText => 1,
        Cipher::Rc4 => 2,
    }
}

/// What the server's response says, before encryption.
pub open spec fn response_plain(cipher: Cipher, pad: Seq<u8>) -> Seq<u8> {
    verification() + big_endian_bytes(cipher_code(cipher), 4) + big_endian_bytes(pad.len(), 2) + pad
}

/// The server's response: the cipher that it selects.
pub open spec fn response(share: Seq<u8>, hash: Seq<u8>, cipher: Cipher, pad: Seq<u8>) -> Seq<u8> {
    crypt(key_b(share, hash), PE_DISCARD as int, response_plain(cipher, pad))
}

/// The first place of a mark, from a position on.
pub open spec fn mark_from(s: Seq<u8>, mark: Seq<u8>, i: int) -> Option<int>
    decreases s.len() - i,
{
    if i < 0 || i >= s.len() || i + mark.len() > s.len() {
        None
    } else if s.subrange(i, i + mark.len()) == mark {
        Some(i)
    } else {
        mark_from(s, mark, i + 1)
    }
}

/// What came of looking for a mark.
#[derive(Debug, Copy, Clone, PartialEq, Eq, Structural)]
pub enum Sync {
    /// The mark is at that position.
    Found(usize),
    /// More data is needed.
    More,
    /// There was too much data without the mark.
    Failed,
}

/// What comes of looking for a mark in data, where `max` bytes are enough.
pub open spec fn synced(s: Seq<u8>, mark: Seq<u8>, max: int) -> Sync {
    match mark_from(s, mark, 0) {
        Some(i) => Sync::Found(i as usize),
        None => if s.len() >= max {
            Sync::Failed
        } else {
            Sync::More
        },
    }
}

/// Looks for a mark in the data that has come.
pub fn sync_for(data: &[u8], mark: &[u8], max: usize) -> (r: Sync)
    requires
        mark@.len() > 0,
    ensures
        r == synced(data@, mark@, max as int),
        r matches Sync::Found(i) ==> i + mark@.len() <= data@.len(),
{
    let mut i: usize = 0;
    while i < data.len() && mark.len() <= data.len() - i
        invariant
            i <= data@.len(),
            mark_from(data@, mark@, 0) == mark_from(data@, mark@, i as int),
        decreases data@.len() - i,
    {
        if bytes_equal(sub_slice(data, i, i + mark.len()), mark) {
            return Sync::Found(i);
        }
        i += 1;
    }
    if data.len() >= max {
        Sync::Failed
    } else {
        Sync::More
    }
}

/// The keys of an encrypted stream, and how much of their streams was used.
#[derive(Debug, Copy, Clone)]
pub struct StreamKeys {
    pub recv_key: [u8; 20],
    pub recv_at: usize,
    pub send_key: [u8; 20],
    pub send_at: usize,
}

/// The keys of an encrypted stream, and how much of their streams was used.
pub struct Keys {
    pub recv_key: Seq<u8>,
    pub recv_at: int,
    pub send_key: Seq<u8>,
    pub send_at: int,
}

impl View for StreamKeys {
    type V = Keys;

    open spec fn view(&self) -> Keys {
        Keys {
            recv_key: self.recv_key@,
            recv_at: self.recv_at as int,
            send_key: self.send_key@,
            send_at: self.send_at as int,
        }
    }
}

/// Joins up to three parts and makes their digest.
fn digest_of(a: &str, b: &[u8], c: &[u8]) -> (r: [u8; 20])
    ensures
        r@ == sha1_digest(text(a) + b@ + c@),
{
    let mut data = copy_slice(a.as_bytes());
    append_slice(&mut data, b);
    append_slice(&mut data, c);
    sha1(data.as_slice())
}

/// The hash that marks the end of the client's padding.
pub fn make_req_hash1(share_key: &[u8]) -> (r: [u8; 20])
    ensures
        r@ == req_hash1(share_key@),
{
    let empty: Vec<u8> = Vec::new();
    assert(text("req1") + share_key@ + empty@ =~= text("req1") + share_key@);
    digest_of("req1", share_key, empty.as_slice())
}

/// The hash of an info hash.
pub fn make_skey_hash(hash: InfoHash) -> (r: [u8; 20])
    ensures
        r@ == skey_hash(hash@),
{
    let empty: Vec<u8> = Vec::new();
    assert(text("req2") + hash@ + empty@ =~= text("req2") + hash@);
    digest_of("req2", hash.as_slice(), empty.as_slice())
}

/// The hash that hides the hash of the info hash.
fn make_share_hash(share_key: &[u8]) -> (r: [u8; 20])
    ensures
        r@ == share_hash(share_key@),
{
    let empty: Vec<u8> = Vec::new();
    assert(text("req3") + share_key@ + empty@ =~= text("req3") + share_key@);
    digest_of("req3", share_key, empty.as_slice())
}

/// The hash of the info hash, hidden.
pub fn make_req_hash2(skey_hash: &[u8], share_key: &[u8]) -> (r: [u8; 20])
    requires
        skey_hash@.len() == 20,
    ensures
        r@ == xor(skey_hash@, share_hash(share_key@)),
{
    let h = make_share_hash(share_key);
    xor_hash(skey_hash, h.as_slice())
}

/// The bytewise exclusive or of two hashes.
pub fn xor_hash(a: &[u8], b: &[u8]) -> (r: [u8; 20])
    requires
        a@.len() == 20,
        b@.len() == 20,
    ensures
        r@ == xor(a@, b@),
{
    let mut out: [u8; 20] = [0u8;20];
    let mut i: usize = 0;
    while i < 20
        invariant
            i <= 20,
            a@.len() == 20,
            b@.len() == 20,
            forall|j: int| 0 <= j < i ==> out@[j] == a@[j] ^ b@[j],
        decreases 20 - i,
    {
        out[i] = a[i] ^ b[i];
        i += 1;
    }
    assert(out@ =~= xor(a@, b@));
    out
}

/// Appends padding of a random length, which is returned.
pub fn make_pad_to(buf: &mut Vec<u8>) -> (r: usize)
    ensures
        r < PE_MAX_PAD_LEN,
        final(buf)@.len() == old(buf)@.len() + r,
        final(buf)@.take(old(buf)@.len() as int) == old(buf)@,
{
    let n: usize = random_below(PE_MAX_PAD_LEN);
    make_pad_with(buf, n);
    n
}

/// Appends random padding of the given length.
pub fn make_pad_with(buf: &mut Vec<u8>, n: usize)
    requires
        n <= PE_MAX_PAD_LEN,
    ensures
        final(buf)@.len() == old(buf)@.len() + n,
        final(buf)@.take(old(buf)@.len() as int) == old(buf)@,
{
    let bytes = random_bytes(n);
    append_slice(buf, bytes.as_slice());
    assert(buf@.take(old(buf)@.len() as int) =~= old(buf)@);
}

/// Encrypts or decrypts data with a part of a key stream.
fn crypt_bytes(key: [u8; 20], at: usize, data: &[u8]) -> (r: Vec<u8>)
    requires
        at + data@.len() <= usize::MAX,
    ensures
        r@ == crypt(key@, at as int, data@),
{
    let mut stream = KeyStream::new(key, at);
    stream.apply(data)
}

/// Takes the first `n` bytes out.
fn take_front(data: &mut Vec<u8>, n: usize) -> (r: Vec<u8>)
    requires
        n <= old(data)@.len(),
    ensures
        r@ == old(data)@.take(n as int),
        final(data)@ == old(data)@.skip(n as int),
{
    let mut front = data.split_off(n);
    std::mem::swap(&mut front, data);
    assert(front@ =~= old(data)@.take(n as int));
    assert(data@ =~= old(data)@.skip(n as int));
    front
}

/// Eight zeros.
fn make_verification() -> (r: Vec<u8>)
    ensures
        r@ == verification(),
{
    let a: [u8; 8] = [0u8;8];
    let r = copy_slice(a.as_slice());
    assert(r@ =~= verification());
    r
}

/// The first message of either side.
fn make_key_message(private_key: &[u8], pad: &[u8]) -> (r: Vec<u8>)
    ensures
        r@ == key_message(private_key@, pad@),
{
    let public_key = make_public_key(private_key);
    let key = make_key_to_bytes(public_key.as_slice());
    let mut buf = copy_slice(key.as_slice());
    append_slice(&mut buf, pad);
    buf
}

/// The client's request for a torrent.
fn make_request(share: &[u8], hash: InfoHash, pad: &[u8]) -> (r: Vec<u8>)
    requires
        pad@.len() <= PE_MAX_PAD_LEN,
    ensures
        r@ == request(share@, hash@, pad@),
{
    let hash1 = make_req_hash1(share);
    let skey = make_skey_hash(hash);
    let hash2 = make_req_hash2(skey.as_slice(), share);
    let key = digest_of("keyA", share, hash.as_slice());
    let mut plain = make_verification();
    push_u32(&mut plain, 3);
    push_u16(&mut plain, pad.len() as u16);
    append_slice(&mut plain, pad);
    push_u16(&mut plain, 0);
    assert(plain@ =~= request_plain(pad@));
    proof {
        lemma_plain_lengths(pad@, Cipher::Rc4);
    }
    let encrypted = crypt_bytes(key, PE_DISCARD, plain.as_slice());
    let mut out = copy_slice(hash1.as_slice());
    append_slice(&mut out, hash2.as_slice());
    append_slice(&mut out, encrypted.as_slice());
    assert(out@ =~= request(share@, hash@, pad@));
    out
}

/// The server's response.
fn make_response(share: &[u8], hash: InfoHash, cipher: Cipher, pad: &[u8]) -> (r: Vec<u8>)
    requires
        pad@.len() <= PE_MAX_PAD_LEN,
    ensures
        r@ == response(share@, hash@, cipher, pad@),
{
    let key = digest_of("keyB", share, hash.as_slice());
    let code: u32 = match cipher {
        Cipher::PassThrough => 0,
        Cipher::PlainText => 1,
        Cipher::Rc4 => 2,
    };
    let mut plain = make_verification();
    push_u32(&mut plain, code);
    push_u16(&mut plain, pad.len() as u16);
    append_slice(&mut plain, pad);
    assert(plain@ =~= response_plain(cipher, pad@));
    proof {
        lemma_plain_lengths(pad@, cipher);
    }
    crypt_bytes(key, PE_DISCARD, plain.as_slice())
}

/// The lengths of what the messages say.
proof fn lemma_plain_lengths(pad: Seq<u8>, cipher: Cipher)
    ensures
        request_plain(pad).len() == 16 + pad.len(),
        response_plain(cipher, pad).len() == 14 + pad.len(),
{
    crate::bytes::lemma_big_endian_bytes_len(3, 4);
    crate::bytes::lemma_big_endian_bytes_len(cipher_code(cipher), 4);
    crate::bytes::lemma_big_endian_bytes_len(pad.len(), 2);
    crate::bytes::lemma_big_endian_bytes_len(0, 2);
}

/// The parts of data, one behind the other.
pub open spec fn joined(parts: Seq<Seq<u8>>) -> Seq<u8>
    decreases parts.len(),
{
    if parts.len() == 0 {
        seq![]
    } else {
        joined(parts.drop_last()) + parts.last()
    }
}

/// Where a server's handshake stands.
#[allow(inconsistent_fields)]
pub enum ServerPhase {
    /// It waits for the first bytes, which say whether there is a handshake.
    First,
    /// It waits for the client's public key.
    Key,
    /// It looks for the end of the client's padding.
    Sync { share: Seq<u8> },
    /// It waits for the hash of the torrent.
    Hash { share: Seq<u8> },
    /// It waits for the start of the encrypted request.
    Header { share: Seq<u8>, hash: Seq<u8> },
    /// It waits for the padding of the request.
    Padding { cipher: Cipher, keys: Keys, len: nat },
    /// It waits for the length of the data that follows the request.
    DataLen { cipher: Cipher, keys: Keys },
    /// It waits for the data that follows the request.
    Data { cipher: Cipher, keys: Keys, len: nat },
    /// It is done; there is data to be read first.
    Done { cipher: Cipher, keys: Option<Keys>, payload: Seq<u8> },
    Failed(PeError),
}

/// The state of a server's handshake.
pub struct Server {
    pub private_key: Seq<u8>,
    /// The padding behind the public key.
    pub key_pad: Seq<u8>,
    /// The padding of the response.
    pub response_pad: Seq<u8>,
    /// The torrents that are served.
    pub hashes: Seq<InfoHash>,
    /// What has come and was not used.
    pub inbox: Seq<u8>,
    pub phase: ServerPhase,
}

/// The first torrent with that hash of its info hash.
pub open spec fn select_hash(hashes: Seq<InfoHash>, skey: Seq<u8>) -> Option<InfoHash>
    decreases hashes.len(),
{
    if hashes.len() == 0 {
        None
    } else if skey_hash(hashes[0]@) == skey {
        Some(hashes[0])
    } else {
        select_hash(hashes.skip(1), skey)
    }
}

/// The cipher that a server selects of those that a client provides.
pub open spec fn select_cipher(provided: nat) -> Option<Cipher> {
    if provided == 1 {
        Some(Cipher::PlainText)
    } else if provided == 2 || provided == 3 {
        Some(Cipher::Rc4)
    } else {
        None
    }
}

/// The keys that are kept: those of an encrypted stream.
pub open spec fn kept_keys(cipher: Cipher, keys: Keys) -> Option<Keys> {
    if cipher == Cipher::Rc4 {
        Some(keys)
    } else {
        None
    }
}

impl Server {
    /// The state once more data has come.
    pub open spec fn fed(self, data: Seq<u8>) -> Server {
        Server { inbox: self.inbox + data, ..self }
    }

    /// The state in another phase, with the first `n` bytes used.
    pub open spec fn goes(self, n: int, phase: ServerPhase) -> Server {
        Server { inbox: self.inbox.skip(n), phase, ..self }
    }

    /// The state once the handshake failed.
    pub open spec fn fails(self, e: PeError) -> Server {
        Server { phase: ServerPhase::Failed(e), ..self }
    }

    /// The next state, and what to send, where enough has come.
    pub open spec fn step(self) -> Option<(Server, Seq<u8>)> {
        let inbox = self.inbox;
        let n = inbox.len();
        match self.phase {
            ServerPhase::First => if n < 20 {
                None
            } else if inbox.take(20) == protocol_header() {
                Some(
                    (
                        self.goes(
                            20,
                            ServerPhase::Done {
                                cipher: Cipher::PassThrough,
                                keys: None,
                                payload: protocol_header(),
                            },
                        ),
                        seq![],
                    ),
                )
            } else {
                Some((self.goes(0, ServerPhase::Key), seq![]))
            },
            ServerPhase::Key => if n < PE_KEY_LEN {
                None
            } else {
                let share = shared_key(self.private_key, inbox.take(PE_KEY_LEN as int));
                Some(
                    (
                        self.goes(PE_KEY_LEN as int, ServerPhase::Sync { share }),
                        key_message(self.private_key, self.key_pad),
                    ),
                )
            },
            ServerPhase::Sync { share } => match synced(
                inbox,
                req_hash1(share),
                PE_MAX_PAD_LEN + 20,
            ) {
                Sync::Found(i) => Some(
                    (
                        self.goes(i + req_hash1(share).len(), ServerPhase::Hash { share }),
                        seq![],
                    ),
                ),
                Sync::More => None,
                Sync::Failed => Some((self.fails(PeError::HanshakeFailed), seq![])),
            },
            ServerPhase::Hash { share } => if n < 20 {
                None
            } else {
                match select_hash(self.hashes, xor(inbox.take(20), share_hash(share))) {
                    Some(hash) => Some(
                        (self.goes(20, ServerPhase::Header { share, hash: hash@ }), seq![]),
                    ),
                    None => Some((self.fails(PeError::InfoHashMismatch), seq![])),
                }
            },
            ServerPhase::Header { share, hash } => if n < 14 {
                None
            } else {
                Some(self.header(share, hash))
            },
            ServerPhase::Padding { cipher, keys, len } => if n < len {
                None
            } else {
                let keys = Keys { recv_at: keys.recv_at + len, ..keys };
                Some((self.goes(len as int, ServerPhase::DataLen { cipher, keys }), seq![]))
            },
            ServerPhase::DataLen { cipher, keys } => if n < 2 {
                None
            } else {
                let len = big_endian(crypt(keys.recv_key, keys.recv_at, inbox.take(2)));
                let keys = Keys { recv_at: keys.recv_at + 2, ..keys };
                Some((self.goes(2, ServerPhase::Data { cipher, keys, len }), seq![]))
            },
            ServerPhase::Data { cipher, keys, len } => if n < len {
                None
            } else {
                let payload = crypt(keys.recv_key, keys.recv_at, inbox.take(len as int));
                let keys = Keys { recv_at: keys.recv_at + len, ..keys };
                Some(
                    (
                        self.goes(
                            len as int,
                            ServerPhase::Done { cipher, keys: kept_keys(cipher, keys), payload },
                        ),
                        seq![],
                    ),
                )
            },
            ServerPhase::Done { .. } => None,
            ServerPhase::Failed(_) => None,
        }
    }

    /// The step at the start of the encrypted request.
    pub open spec fn header(self, share: Seq<u8>, hash: Seq<u8>) -> (Server, Seq<u8>) {
        let header = crypt(key_a(share, hash), PE_DISCARD as int, self.inbox.take(14));
        let pad_len = big_endian(header.subrange(12, 14));
        match select_cipher(big_endian(header.subrange(8, 12))) {
            Some(cipher) => if header.take(8) != verification() {
                (self.fails(PeError::HanshakeFailed), seq![])
            } else if pad_len > PE_MAX_PAD_LEN {
                (
                    self.fails(PeError::HanshakeFailed),
                    response(share, hash, cipher, self.response_pad),
                )
            } else {
                let keys = Keys {
                    recv_key: key_a(share, hash),
                    recv_at: PE_DISCARD + 14,
                    send_key: key_b(share, hash),
                    send_at: PE_DISCARD + 14 + self.response_pad.len(),
                };
                (
                    self.goes(14, ServerPhase::Padding { cipher, keys, len: pad_len }),
                    response(share, hash, cipher, self.response_pad),
                )
            },
            None => (self.fails(PeError::HanshakeFailed), seq![]),
        }
    }

    /// Whether so much has come without the mark that the search for it is given up.
    pub open spec fn gives_up(self) -> bool {
        self.phase matches ServerPhase::Sync { share } && synced(
            self.inbox,
            req_hash1(share),
            PE_MAX_PAD_LEN + 20,
        ) == Sync::Failed
    }

    /// Whether the search for the mark is given up in one of the steps for which enough has
    /// come.
    pub open spec fn overruns(self) -> bool
        decreases self.rank(),
    {
        match self.step() {
            Some((next, _)) => self.gives_up() || next.overruns(),
            None => false,
        }
    }

    /// How many steps are left at most.
    pub open spec fn rank(self) -> nat {
        match self.phase {
            ServerPhase::First => 8,
            ServerPhase::Key => 7,
            ServerPhase::Sync { .. } => 6,
            ServerPhase::Hash { .. } => 5,
            ServerPhase::Header { .. } => 4,
            ServerPhase::Padding { .. } => 3,
            ServerPhase::DataLen { .. } => 2,
            ServerPhase::Data { .. } => 1,
            ServerPhase::Done { .. } => 0,
            ServerPhase::Failed(_) => 0,
        }
    }

    /// The state after all steps for which enough has come, and what to send.
    pub open spec fn run(self) -> (Server, Seq<u8>)
        decreases self.rank(),
    {
        match self.step() {
            Some((next, out)) => {
                let (end, more) = next.run();
                (end, out + more)
            },
            None => (self, seq![]),
        }
    }

    /// The state after data has come in parts, and what to send in all.
    pub open spec fn takes(self, parts: Seq<Seq<u8>>) -> (Server, Seq<u8>)
        decreases parts.len(),
    {
        if parts.len() == 0 {
            (self, seq![])
        } else {
            let (before, sent) = self.takes(parts.drop_last());
            let (end, more) = before.fed(parts.last()).run();
            (end, sent + more)
        }
    }
}

/// Where a server's handshake stands.
#[derive(Debug)]
enum ServerState {
    First,
    Key,
    Sync(Vec<u8>),
    Hash(Vec<u8>),
    Header(Vec<u8>, InfoHash),
    Padding(Cipher, StreamKeys, usize),
    DataLen(Cipher, StreamKeys),
    Data(Cipher, StreamKeys, usize),
    Done(Cipher, Option<StreamKeys>, Vec<u8>),
    Failed(PeError),
}

/// A server's handshake.
#[derive(Debug)]
pub struct PeServer {
    private_key: Vec<u8>,
    key_pad: Vec<u8>,
    response_pad: Vec<u8>,
    hashes: Vec<InfoHash>,
    inbox: Vec<u8>,
    state: ServerState,
}

/// The keys, where there are any.
pub open spec fn keys_view(keys: Option<StreamKeys>) -> Option<Keys> {
    match keys {
        Some(keys) => Some(keys@),
        None => None,
    }
}

impl PeServer {
    spec fn phase(&self) -> ServerPhase {
        match self.state {
            ServerState::First => ServerPhase::First,
            ServerState::Key => ServerPhase::Key,
            ServerState::Sync(share) => ServerPhase::Sync { share: share@ },
            ServerState::Hash(share) => ServerPhase::Hash { share: share@ },
            ServerState::Header(share, hash) => ServerPhase::Header { share: share@, hash: hash@ },
            ServerState::Padding(cipher, keys, len) => ServerPhase::Padding {
                cipher,
                keys: keys@,
                len: len as nat,
            },
            ServerState::DataLen(cipher, keys) => ServerPhase::DataLen { cipher, keys: keys@ },
            ServerState::Data(cipher, keys, len) => ServerPhase::Data {
                cipher,
                keys: keys@,
                len: len as nat,
            },
            ServerState::Done(cipher, keys, payload) => ServerPhase::Done {
                cipher,
                keys: keys_view(keys),
                payload: payload@,
            },
            ServerState::Failed(e) => ServerPhase::Failed(e),
        }
    }

    /// The state of the handshake.
    pub closed spec fn server(&self) -> Server {
        Server {
            private_key: self.private_key@,
            key_pad: self.key_pad@,
            response_pad: self.response_pad@,
            hashes: self.hashes@,
            inbox: self.inbox@,
            phase: self.phase(),
        }
    }

    /// Whether paddings and positions are in range.
    pub closed spec fn wf(&self) -> bool {
        &&& self.key_pad@.len() <= PE_MAX_PAD_LEN
        &&& self.response_pad@.len() <= PE_MAX_PAD_LEN
        &&& match self.state {
            ServerState::Padding(_, keys, len) => keys.recv_at == PE_DISCARD + 14 && len
                <= PE_MAX_PAD_LEN,
            ServerState::DataLen(_, keys) => keys.recv_at <= PE_DISCARD + 14 + PE_MAX_PAD_LEN,
            ServerState::Data(_, keys, len) => keys.recv_at <= PE_DISCARD + 16 + PE_MAX_PAD_LEN
                && len <= 0xffff,
            _ => true,
        }
    }

    /// A handshake that waits for the first bytes, with random secrets.
    pub fn new(hashes: Vec<InfoHash>) -> (r: PeServer)
        ensures
            r.wf(),
            r.server().hashes == hashes@,
            r.server().inbox == Seq::<u8>::empty(),
            r.server().phase == ServerPhase::First,
            r.server().private_key.len() == 20,
            r.server().key_pad.len() < PE_MAX_PAD_LEN,
            r.server().response_pad.len() <= PE_MAX_PAD_LEN,
    {
        let private_key = make_private_key();
        let mut key_pad: Vec<u8> = Vec::new();
        make_pad_to(&mut key_pad);
        let response_pad = random_bytes(random_below(PE_MAX_PAD_LEN + 1));
        PeServer::with_secrets(hashes, private_key, key_pad, response_pad)
    }

    /// A handshake that waits for the first bytes, with the given secrets.
    pub fn with_secrets(
        hashes: Vec<InfoHash>,
        private_key: Vec<u8>,
        key_pad: Vec<u8>,
        response_pad: Vec<u8>,
    ) -> (r: PeServer)
        requires
            key_pad@.len() <= PE_MAX_PAD_LEN,
            response_pad@.len() <= PE_MAX_PAD_LEN,
        ensures
            r.wf(),
            r.server() == (Server {
                private_key: private_key@,
                key_pad: key_pad@,
                response_pad: response_pad@,
                hashes: hashes@,
                inbox: Seq::empty(),
                phase: ServerPhase::First,
            }),
    {
        let r = PeServer {
            private_key,
            key_pad,
            response_pad,
            hashes,
            inbox: Vec::new(),
            state: ServerState::First,
        };
        assert(r.inbox@ =~= Seq::<u8>::empty());
        r
    }

    /// Takes in data that has come; the result is to be sent.
    pub fn server_handshake(&mut self, data: &[u8]) -> (r: Vec<u8>)
        requires
            old(self).wf(),
        ensures
            final(self).wf(),
            (final(self).server(), r@) == old(self).server().fed(data@).run(),
    {
        append_slice(&mut self.inbox, data);
        let ghost start = self.server();
        assert(start == old(self).server().fed(data@));
        let mut out: Vec<u8> = Vec::new();
        assert(out@ + start.run().1 =~= start.run().1);
        loop
            invariant
                self.wf(),
                start == old(self).server().fed(data@),
                self.server().run().0 == start.run().0,
                out@ + self.server().run().1 == start.run().1,
            decreases self.server().rank(),
        {
            let ghost before = self.server();
            let ghost sent = out@;
            match self.step() {
                Some(part) => {
                    append_slice(&mut out, part.as_slice());
                    assert(out@ + self.server().run().1 =~= sent + before.run().1);
                },
                None => {
                    assert(out@ + seq![] =~= out@);
                    return out;
                },
            }
        }
    }

    /// Does one step, where enough has come; the result is to be sent.
    fn step(&mut self) -> (r: Option<Vec<u8>>)
        requires
            old(self).wf(),
        ensures
            final(self).wf(),
            match r {
                Some(out) => old(self).server().step() == Some((final(self).server(), out@)),
                None => old(self).server().step() is None && *final(self) == *old(self),
            },
    {
        let ghost s = self.server();
        assert(s.inbox.skip(0) =~= s.inbox);
        match &self.state {
            ServerState::First => {
                if self.inbox.len() < 20 {
                    return None;
                }
                let mut header: Vec<u8> = Vec::new();
                header.push(19);
                append_slice(&mut header, "BitTorrent protocol".as_bytes());
                assert(header@ =~= protocol_header());
                if bytes_equal(sub_slice(self.inbox.as_slice(), 0, 20), header.as_slice()) {
                    let payload = take_front(&mut self.inbox, 20);
                    self.state = ServerState::Done(Cipher::PassThrough, None, payload);
                } else {
                    self.state = ServerState::Key;
                }
                Some(Vec::new())
            },
            ServerState::Key => {
                if self.inbox.len() < PE_KEY_LEN {
                    return None;
                }
                let peer_key = take_front(&mut self.inbox, PE_KEY_LEN);
                let share = make_shared_key(self.private_key.as_slice(), peer_key.as_slice());
                let out = make_key_message(self.private_key.as_slice(), self.key_pad.as_slice());
                self.state = ServerState::Sync(share);
                Some(out)
            },
            ServerState::Sync(share) => {
                let hash1 = make_req_hash1(share.as_slice());
                match sync_for(self.inbox.as_slice(), hash1.as_slice(), PE_MAX_PAD_LEN + 20) {
                    Sync::Found(i) => {
                        let share = copy_slice(share.as_slice());
                        let n: usize = self.inbox.len();
                        assert(hash1@.len() == 20 && i + 20 <= n);
                        take_front(&mut self.inbox, i + 20);
                        self.state = ServerState::Hash(share);
                        Some(Vec::new())
                    },
                    Sync::More => None,
                    Sync::Failed => {
                        self.state = ServerState::Failed(PeError::HanshakeFailed);
                        Some(Vec::new())
                    },
                }
            },
            ServerState::Hash(share) => {
                if self.inbox.len() < 20 {
                    return None;
                }
                let com = make_share_hash(share.as_slice());
                let share = copy_slice(share.as_slice());
                let skey = xor_hash(sub_slice(self.inbox.as_slice(), 0, 20), com.as_slice());
                assert(s.inbox.subrange(0, 20) =~= s.inbox.take(20));
                match find_hash(&self.hashes, skey.as_slice()) {
                    Some(hash) => {
                        take_front(&mut self.inbox, 20);
                        self.state = ServerState::Header(share, hash);
                    },
                    None => {
                        self.state = ServerState::Failed(PeError::InfoHashMismatch);
                    },
                }
                Some(Vec::new())
            },
            ServerState::Header(share, hash) => {
                if self.inbox.len() < 14 {
                    return None;
                }
                let share = copy_slice(share.as_slice());
                let hash: InfoHash = *hash;
                Some(self.read_header(share, hash))
            },
            ServerState::Padding(cipher, keys, len) => {
                let (cipher, mut keys, len): (Cipher, StreamKeys, usize) = (*cipher, *keys, *len);
                if self.inbox.len() < len {
                    return None;
                }
                take_front(&mut self.inbox, len);
                keys.recv_at = keys.recv_at + len;
                self.state = ServerState::DataLen(cipher, keys);
                Some(Vec::new())
            },
            ServerState::DataLen(cipher, keys) => {
                if self.inbox.len() < 2 {
                    return None;
                }
                let (cipher, mut keys): (Cipher, StreamKeys) = (*cipher, *keys);
                let front = take_front(&mut self.inbox, 2);
                let plain = crypt_bytes(keys.recv_key, keys.recv_at, front.as_slice());
                assert(plain@.subrange(0, 2) =~= plain@);
                let len: usize = read_u16(plain.as_slice(), 0) as usize;
                keys.recv_at = keys.recv_at + 2;
                self.state = ServerState::Data(cipher, keys, len);
                Some(Vec::new())
            },
            ServerState::Data(cipher, keys, len) => {
                let (cipher, mut keys, len): (Cipher, StreamKeys, usize) = (*cipher, *keys, *len);
                if self.inbox.len() < len {
                    return None;
                }
                let front = take_front(&mut self.inbox, len);
                let payload = crypt_bytes(keys.recv_key, keys.recv_at, front.as_slice());
                keys.recv_at = keys.recv_at + len;
                let kept = if cipher == Cipher::Rc4 {
                    Some(keys)
                } else {
                    None
                };
                self.state = ServerState::Done(cipher, kept, payload);
                Some(Vec::new())
            },
            ServerState::Done(_, _, _) => None,
            ServerState::Failed(_) => None,
        }
    }

    /// The step at the start of the encrypted request.
    fn read_header(&mut self, share: Vec<u8>, hash: InfoHash) -> (r: Vec<u8>)
        requires
            old(self).wf(),
            old(self).inbox@.len() >= 14,
        ensures
            final(self).wf(),
            (final(self).server(), r@) == old(self).server().header(share@, hash@),
    {
        let recv_key = digest_of("keyA", share.as_slice(), hash.as_slice());
        let send_key = digest_of("keyB", share.as_slice(), hash.as_slice());
        assert(self.inbox@.subrange(0, 14) =~= self.inbox@.take(14));
        let header = crypt_bytes(recv_key, PE_DISCARD, sub_slice(self.inbox.as_slice(), 0, 14));
        let vc = make_verification();
        assert(header@.subrange(0, 8) =~= header@.take(8));
        if !bytes_equal(sub_slice(header.as_slice(), 0, 8), vc.as_slice()) {
            self.state = ServerState::Failed(PeError::HanshakeFailed);
            return Vec::new();
        }
        let provided: u32 = read_u32(header.as_slice(), 8);
        let cipher: Cipher = if provided == 1 {
            Cipher::PlainText
        } else if provided == 2 || provided == 3 {
            Cipher::Rc4
        } else {
            self.state = ServerState::Failed(PeError::HanshakeFailed);
            return Vec::new();
        };
        let out = make_response(share.as_slice(), hash, cipher, self.response_pad.as_slice());
        let pad_len: usize = read_u16(header.as_slice(), 12) as usize;
        if pad_len > PE_MAX_PAD_LEN {
            self.state = ServerState::Failed(PeError::HanshakeFailed);
            return out;
        }
        take_front(&mut self.inbox, 14);
        let keys = StreamKeys {
            recv_key,
            recv_at: PE_DISCARD + 14,
            send_key,
            send_at: PE_DISCARD + 14 + self.response_pad.len(),
        };
        self.state = ServerState::Padding(cipher, keys, pad_len);
        out
    }

    /// Whether the handshake is over.
    pub fn is_over(&self) -> (r: bool)
        requires
            self.wf(),
        ensures
            r == (self.server().phase is Done || self.server().phase is Failed),
    {
        match &self.state {
            ServerState::Done(..) => true,
            ServerState::Failed(_) => true,
            _ => false,
        }
    }

    /// What came of the handshake, once it is over.
    pub fn outcome(self) -> (r: Option<Result<PeStream, PeError>>)
        requires
            self.wf(),
        ensures
            match (r, self.server().phase) {
                (Some(Ok(stream)), ServerPhase::Done { cipher, keys, payload }) => {
                    &&& stream.wf()
                    &&& stream.cipher() == cipher
                    &&& stream.fresh(keys)
                    &&& stream.payload() == payload
                    &&& stream.raw() == self.server().inbox
                },
                (Some(Err(e)), ServerPhase::Failed(f)) => e == f,
                (None, ServerPhase::Done { .. }) => false,
                (None, ServerPhase::Failed(_)) => false,
                (None, _) => true,
                _ => false,
            },
    {
        match self.state {
            ServerState::Done(cipher, keys, payload) => Some(
                Ok(PeStream::new(cipher, keys, payload, self.inbox)),
            ),
            ServerState::Failed(e) => Some(Err(e)),
            _ => None,
        }
    }
}

/// The first torrent with that hash of its info hash.
fn find_hash(hashes: &Vec<InfoHash>, skey: &[u8]) -> (r: Option<InfoHash>)
    ensures
        r == select_hash(hashes@, skey@),
{
    let mut i: usize = 0;
    assert(hashes@.skip(0) =~= hashes@);
    while i < hashes.len()
        invariant
            i <= hashes@.len(),
            select_hash(hashes@, skey@) == select_hash(hashes@.skip(i as int), skey@),
        decreases hashes@.len() - i,
    {
        let h = make_skey_hash(hashes[i]);
        if bytes_equal(h.as_slice(), skey) {
            return Some(hashes[i]);
        }
        assert(hashes@.skip(i as int).skip(1) =~= hashes@.skip(i + 1));
        i += 1;
    }
    None
}

/// Where a client's handshake stands.
#[allow(inconsistent_fields)]
pub enum ClientPhase {
    /// It waits for the server's public key.
    Key,
    /// It looks for the end of the server's padding.
    Sync { share: Seq<u8> },
    /// It waits for the rest of the response's start.
    Header { share: Seq<u8> },
    /// It waits for the padding of the response.
    Padding { cipher: Cipher, keys: Keys, len: nat },
    Done { cipher: Cipher, keys: Option<Keys> },
    Failed(PeError),
}

/// The state of a client's handshake.
pub struct Client {
    pub private_key: Seq<u8>,
    /// The padding of the request.
    pub request_pad: Seq<u8>,
    /// The torrent that is asked for.
    pub hash: InfoHash,
    /// What has come and was not used.
    pub inbox: Seq<u8>,
    pub phase: ClientPhase,
}

/// The cipher that a response selects.
pub open spec fn selected_cipher(code: nat) -> Option<Cipher> {
    if code == 1 {
        Some(Cipher::PlainText)
    } else if code == 2 {
        Some(Cipher::Rc4)
    } else {
        None
    }
}

impl Client {
    /// The state once more data has come.
    pub open spec fn fed(self, data: Seq<u8>) -> Client {
        Client { inbox: self.inbox + data, ..self }
    }

    /// The state in another phase, with the first `n` bytes used.
    pub open spec fn goes(self, n: int, phase: ClientPhase) -> Client {
        Client { inbox: self.inbox.skip(n), phase, ..self }
    }

    /// The state once the handshake failed.
    pub open spec fn fails(self, e: PeError) -> Client {
        Client { phase: ClientPhase::Failed(e), ..self }
    }

    /// The next state, and what to send, where enough has come.
    pub open spec fn step(self) -> Option<(Client, Seq<u8>)> {
        let inbox = self.inbox;
        let n = inbox.len();
        match self.phase {
            ClientPhase::Key => if n < PE_KEY_LEN {
                None
            } else {
                let share = shared_key(self.private_key, inbox.take(PE_KEY_LEN as int));
                Some(
                    (
                        self.goes(PE_KEY_LEN as int, ClientPhase::Sync { share }),
                        request(share, self.hash@, self.request_pad),
                    ),
                )
            },
            ClientPhase::Sync { share } => match synced(
                inbox,
                crypt(key_b(share, self.hash@), PE_DISCARD as int, verification()),
                PE_MAX_PAD_LEN + 8,
            ) {
                Sync::Found(i) => Some((self.goes(i + 8, ClientPhase::Header { share }), seq![])),
                Sync::More => None,
                Sync::Failed => Some((self.fails(PeError::HanshakeFailed), seq![])),
            },
            ClientPhase::Header { share } => if n < 6 {
                None
            } else {
                let header = crypt(key_b(share, self.hash@), PE_DISCARD + 8, inbox.take(6));
                let pad_len = big_endian(header.subrange(4, 6));
                match selected_cipher(big_endian(header.subrange(0, 4))) {
                    Some(cipher) => if pad_len > PE_MAX_PAD_LEN {
                        Some((self.fails(PeError::HanshakeFailed), seq![]))
                    } else {
                        let keys = Keys {
                            recv_key: key_b(share, self.hash@),
                            recv_at: PE_DISCARD + 14,
                            send_key: key_a(share, self.hash@),
                            send_at: PE_DISCARD + 16 + self.request_pad.len(),
                        };
                        Some(
                            (
                                self.goes(6, ClientPhase::Padding { cipher, keys, len: pad_len }),
                                seq![],
                            ),
                        )
                    },
                    None => Some((self.fails(PeError::HanshakeFailed), seq![])),
                }
            },
            ClientPhase::Padding { cipher, keys, len } => if n < len {
                None
            } else {
                let keys = Keys { recv_at: keys.recv_at + len, ..keys };
                Some(
                    (
                        self.goes(
                            len as int,
                            ClientPhase::Done { cipher, keys: kept_keys(cipher, keys) },
                        ),
                        seq![],
                    ),
                )
            },
            ClientPhase::Done { .. } => None,
            ClientPhase::Failed(_) => None,
        }
    }

    /// Whether so much has come without the mark that the search for it is given up.
    pub open spec fn gives_up(self) -> bool {
        self.phase matches ClientPhase::Sync { share } && synced(
            self.inbox,
            crypt(key_b(share, self.hash@), PE_DISCARD as int, verification()),
            PE_MAX_PAD_LEN + 8,
        ) == Sync::Failed
    }

    /// Whether the search for the mark is given up in one of the steps for which enough has
    /// come.
    pub open spec fn overruns(self) -> bool
        decreases self.rank(),
    {
        match self.step() {
            Some((next, _)) => self.gives_up() || next.overruns(),
            None => false,
        }
    }

    /// How many steps are left at most.
    pub open spec fn rank(self) -> nat {
        match self.phase {
            ClientPhase::Key => 4,
            ClientPhase::Sync { .. } => 3,
            ClientPhase::Header { .. } => 2,
            ClientPhase::Padding { .. } => 1,
            ClientPhase::Done { .. } => 0,
            ClientPhase::Failed(_) => 0,
        }
    }

    /// The state after all steps for which enough has come, and what to send.
    pub open spec fn run(self) -> (Client, Seq<u8>)
        decreases self.rank(),
    {
        match self.step() {
            Some((next, out)) => {
                let (end, more) = next.run();
                (end, out + more)
            },
            None => (self, seq![]),
        }
    }

    /// The state after data has come in parts, and what to send in all.
    pub open spec fn takes(self, parts: Seq<Seq<u8>>) -> (Client, Seq<u8>)
        decreases parts.len(),
    {
        if parts.len() == 0 {
            (self, seq![])
        } else {
            let (before, sent) = self.takes(parts.drop_last());
            let (end, more) = before.fed(parts.last()).run();
            (end, sent + more)
        }
    }
}

/// Where a client's handshake stands.
#[derive(Debug)]
enum ClientState {
    Key,
    Sync(Vec<u8>),
    Header(Vec<u8>),
    Padding(Cipher, StreamKeys, usize),
    Done(Cipher, Option<StreamKeys>),
    Failed(PeError),
}

/// A client's handshake.
#[derive(Debug)]
pub struct PeClient {
    private_key: Vec<u8>,
    request_pad: Vec<u8>,
    hash: InfoHash,
    inbox: Vec<u8>,
    state: ClientState,
}

impl PeClient {
    spec fn phase(&self) -> ClientPhase {
        match self.state {
            ClientState::Key => ClientPhase::Key,
            ClientState::Sync(share) => ClientPhase::Sync { share: share@ },
            ClientState::Header(share) => ClientPhase::Header { share: share@ },
            ClientState::Padding(cipher, keys, len) => ClientPhase::Padding {
                cipher,
                keys: keys@,
                len: len as nat,
            },
            ClientState::Done(cipher, keys) => ClientPhase::Done { cipher, keys: keys_view(keys) },
            ClientState::Failed(e) => ClientPhase::Failed(e),
        }
    }

    /// The state of the handshake.
    pub closed spec fn client(&self) -> Client {
        Client {
            private_key: self.private_key@,
            request_pad: self.request_pad@,
            hash: self.hash,
            inbox: self.inbox@,
            phase: self.phase(),
        }
    }

    /// Whether paddings and positions are in range.
    pub closed spec fn wf(&self) -> bool {
        &&& self.request_pad@.len() <= PE_MAX_PAD_LEN
        &&& match self.state {
            ClientState::Padding(_, keys, len) => keys.recv_at == PE_DISCARD + 14 && len
                <= PE_MAX_PAD_LEN,
            _ => true,
        }
    }

    /// A handshake for a torrent, with random secrets, and the first message to send.
    pub fn new(hash: InfoHash) -> (r: (PeClient, Vec<u8>))
        ensures
            r.0.wf(),
            r.0.client().hash == hash,
            r.0.client().inbox == Seq::<u8>::empty(),
            r.0.client().phase == ClientPhase::Key,
            r.0.client().private_key.len() == 20,
            r.0.client().request_pad.len() <= PE_MAX_PAD_LEN,
            exists|pad: Seq<u8>|
                pad.len() < PE_MAX_PAD_LEN && r.1@ == #[trigger] key_message(
                    r.0.client().private_key,
                    pad,
                ),
    {
        let private_key = make_private_key();
        let mut key_pad: Vec<u8> = Vec::new();
        make_pad_to(&mut key_pad);
        let request_pad = random_bytes(random_below(PE_MAX_PAD_LEN + 1));
        let message = make_key_message(private_key.as_slice(), key_pad.as_slice());
        let ghost key = private_key@;
        let client = PeClient::with_secrets(hash, private_key, request_pad);
        assert(client.client().private_key == key);
        assert(message@ == key_message(client.client().private_key, key_pad@));
        (client, message)
    }

    /// A handshake for a torrent, with the given secrets, whose first message was sent.
    pub fn with_secrets(hash: InfoHash, private_key: Vec<u8>, request_pad: Vec<u8>) -> (r: PeClient)
        requires
            request_pad@.len() <= PE_MAX_PAD_LEN,
        ensures
            r.wf(),
            r.client() == (Client {
                private_key: private_key@,
                request_pad: request_pad@,
                hash,
                inbox: Seq::empty(),
                phase: ClientPhase::Key,
            }),
    {
        let r = PeClient {
            private_key,
            request_pad,
            hash,
            inbox: Vec::new(),
            state: ClientState::Key,
        };
        assert(r.inbox@ =~= Seq::<u8>::empty());
        r
    }

    /// Takes in data that has come; the result is to be sent.
    pub fn client_handshake(&mut self, data: &[u8]) -> (r: Vec<u8>)
        requires
            old(self).wf(),
        ensures
            final(self).wf(),
            (final(self).client(), r@) == old(self).client().fed(data@).run(),
    {
        append_slice(&mut self.inbox, data);
        let ghost start = self.client();
        assert(start == old(self).client().fed(data@));
        let mut out: Vec<u8> = Vec::new();
        assert(out@ + start.run().1 =~= start.run().1);
        loop
            invariant
                self.wf(),
                start == old(self).client().fed(data@),
                self.client().run().0 == start.run().0,
                out@ + self.client().run().1 == start.run().1,
            decreases self.client().rank(),
        {
            let ghost before = self.client();
            let ghost sent = out@;
            match self.step() {
                Some(part) => {
                    append_slice(&mut out, part.as_slice());
                    assert(out@ + self.client().run().1 =~= sent + before.run().1);
                },
                None => {
                    assert(out@ + seq![] =~= out@);
                    return out;
                },
            }
        }
    }

    /// Does one step, where enough has come; the result is to be sent.
    fn step(&mut self) -> (r: Option<Vec<u8>>)
        requires
            old(self).wf(),
        ensures
            final(self).wf(),
            match r {
                Some(out) => old(self).client().step() == Some((final(self).client(), out@)),
                None => old(self).client().step() is None && *final(self) == *old(self),
            },
    {
        let ghost s = self.client();
        match &self.state {
            ClientState::Key => {
                if self.inbox.len() < PE_KEY_LEN {
                    return None;
                }
                let peer_key = take_front(&mut self.inbox, PE_KEY_LEN);
                let share = make_shared_key(self.private_key.as_slice(), peer_key.as_slice());
                let out = make_request(share.as_slice(), self.hash, self.request_pad.as_slice());
                self.state = ClientState::Sync(share);
                Some(out)
            },
            ClientState::Sync(share) => {
                let key = digest_of("keyB", share.as_slice(), self.hash.as_slice());
                let vc = make_verification();
                let mark = crypt_bytes(key, PE_DISCARD, vc.as_slice());
                match sync_for(self.inbox.as_slice(), mark.as_slice(), PE_MAX_PAD_LEN + 8) {
                    Sync::Found(i) => {
                        let share = copy_slice(share.as_slice());
                        let n: usize = self.inbox.len();
                        assert(mark@.len() == 8 && i + 8 <= n);
                        take_front(&mut self.inbox, i + 8);
                        self.state = ClientState::Header(share);
                        Some(Vec::new())
                    },
                    Sync::More => None,
                    Sync::Failed => {
                        self.state = ClientState::Failed(PeError::HanshakeFailed);
                        Some(Vec::new())
                    },
                }
            },
            ClientState::Header(share) => {
                if self.inbox.len() < 6 {
                    return None;
                }
                let recv_key = digest_of("keyB", share.as_slice(), self.hash.as_slice());
                let send_key = digest_of("keyA", share.as_slice(), self.hash.as_slice());
                assert(s.inbox.subrange(0, 6) =~= s.inbox.take(6));
                let header = crypt_bytes(
                    recv_key,
                    PE_DISCARD + 8,
                    sub_slice(self.inbox.as_slice(), 0, 6),
                );
                let code: u32 = read_u32(header.as_slice(), 0);
                let pad_len: usize = read_u16(header.as_slice(), 4) as usize;
                let cipher: Cipher = if code == 1 {
                    Cipher::PlainText
                } else if code == 2 {
                    Cipher::Rc4
                } else {
                    self.state = ClientState::Failed(PeError::HanshakeFailed);
                    return Some(Vec::new());
                };
                if pad_len > PE_MAX_PAD_LEN {
                    self.state = ClientState::Failed(PeError::HanshakeFailed);
                    return Some(Vec::new());
                }
                take_front(&mut self.inbox, 6);
                let keys = StreamKeys {
                    recv_key,
                    recv_at: PE_DISCARD + 14,
                    send_key,
                    send_at: PE_DISCARD + 16 + self.request_pad.len(),
                };
                self.state = ClientState::Padding(cipher, keys, pad_len);
                Some(Vec::new())
            },
            ClientState::Padding(cipher, keys, len) => {
                let (cipher, mut keys, len): (Cipher, StreamKeys, usize) = (*cipher, *keys, *len);
                if self.inbox.len() < len {
                    return None;
                }
                take_front(&mut self.inbox, len);
                keys.recv_at = keys.recv_at + len;
                let kept = if cipher == Cipher::Rc4 {
                    Some(keys)
                } else {
                    None
                };
                self.state = ClientState::Done(cipher, kept);
                Some(Vec::new())
            },
            ClientState::Done(_, _) => None,
            ClientState::Failed(_) => None,
        }
    }

    /// Whether the handshake is over.
    pub fn is_over(&self) -> (r: bool)
        requires
            self.wf(),
        ensures
            r == (self.client().phase is Done || self.client().phase is Failed),
    {
        match &self.state {
            ClientState::Done(..) => true,
            ClientState::Failed(_) => true,
            _ => false,
        }
    }

    /// What came of the handshake, once it is over.
    pub fn outcome(self) -> (r: Option<Result<PeStream, PeError>>)
        requires
            self.wf(),
        ensures
            match (r, self.client().phase) {
                (Some(Ok(stream)), ClientPhase::Done { cipher, keys }) => {
                    &&& stream.wf()
                    &&& stream.cipher() == cipher
                    &&& stream.fresh(keys)
                    &&& stream.payload() == Seq::<u8>::empty()
                    &&& stream.raw() == self.client().inbox
                },
                (Some(Err(e)), ClientPhase::Failed(f)) => e == f,
                (None, ClientPhase::Done { .. }) => false,
                (None, ClientPhase::Failed(_)) => false,
                (None, _) => true,
                _ => false,
            },
    {
        match self.state {
            ClientState::Done(cipher, keys) => {
                let payload: Vec<u8> = Vec::new();
                assert(payload@ =~= Seq::<u8>::empty());
                Some(Ok(PeStream::new(cipher, keys, payload, self.inbox)))
            },
            ClientState::Failed(e) => Some(Err(e)),
            _ => None,
        }
    }
}

/// A stream after the handshake.
pub struct PeStream {
    cipher: Cipher,
    /// Data that is to be read first.
    init_payload: Vec<u8>,
    /// Data that has come and is still encrypted.
    raw: Vec<u8>,
    decryptor: Option<KeyStream>,
    encryptor: Option<KeyStream>,
    /// Encrypted data that is being sent, and how much of it was.
    encryptor_buf: Vec<u8>,
    encryptor_buf_offset: usize,
}

impl PeStream {
    /// How the stream is encrypted.
    pub closed spec fn cipher(&self) -> Cipher {
        self.cipher
    }

    /// The data that is to be read first.
    pub closed spec fn payload(&self) -> Seq<u8> {
        self.init_payload@
    }

    /// The data that has come and is still encrypted.
    pub closed spec fn raw(&self) -> Seq<u8> {
        self.raw@
    }

    /// The encrypted data that is still to be sent.
    pub closed spec fn unsent_data(&self) -> Seq<u8> {
        self.encryptor_buf@.skip(self.encryptor_buf_offset as int)
    }

    /// The keys, and how much of their streams was used.
    pub closed spec fn keys(&self) -> Option<Keys> {
        match (self.decryptor, self.encryptor) {
            (Some(decryptor), Some(encryptor)) => Some(
                Keys {
                    recv_key: decryptor.key(),
                    recv_at: decryptor.position(),
                    send_key: encryptor.key(),
                    send_at: encryptor.position(),
                },
            ),
            _ => None,
        }
    }

    /// Whether the stream has those keys, and is sending nothing.
    pub open spec fn fresh(&self, keys: Option<Keys>) -> bool {
        self.keys() == keys && self.unsent_data() == Seq::<u8>::empty()
    }

    /// Whether the parts are well formed.
    pub closed spec fn wf(&self) -> bool {
        &&& match (self.decryptor, self.encryptor) {
            (Some(decryptor), Some(encryptor)) => decryptor.wf() && encryptor.wf(),
            (None, None) => true,
            _ => false,
        }
        &&& self.encryptor_buf_offset <= self.encryptor_buf@.len()
    }

    /// What data that comes is read as.
    pub open spec fn decrypted(&self, data: Seq<u8>) -> Seq<u8> {
        match self.keys() {
            Some(keys) => crypt(keys.recv_key, keys.recv_at, data),
            None => data,
        }
    }

    /// What data that is written is sent as.
    pub open spec fn encrypted(&self, data: Seq<u8>) -> Seq<u8> {
        match self.keys() {
            Some(keys) => crypt(keys.send_key, keys.send_at, data),
            None => data,
        }
    }

    /// The keys once `n` more bytes have come.
    pub open spec fn keys_after_read(&self, n: int) -> Option<Keys> {
        match self.keys() {
            Some(keys) => Some(Keys { recv_at: keys.recv_at + n, ..keys }),
            None => None,
        }
    }

    /// The keys once `n` more bytes were written.
    pub open spec fn keys_after_write(&self, n: int) -> Option<Keys> {
        match self.keys() {
            Some(keys) => Some(Keys { send_at: keys.send_at + n, ..keys }),
            None => None,
        }
    }

    /// Whether the key streams reach for `n` more bytes either way.
    pub open spec fn has_room(&self, n: int) -> bool {
        match self.keys() {
            Some(keys) => keys.recv_at + n <= usize::MAX && keys.send_at + n <= usize::MAX,
            None => true,
        }
    }

    fn new(
        cipher: Cipher,
        keys: Option<StreamKeys>,
        init_payload: Vec<u8>,
        raw: Vec<u8>,
    ) -> (r: PeStream)
        ensures
            r.wf(),
            r.cipher() == cipher,
            r.fresh(keys_view(keys)),
            r.payload() == init_payload@,
            r.raw() == raw@,
    {
        let (decryptor, encryptor) = match keys {
            Some(keys) => (
                Some(KeyStream::new(keys.recv_key, keys.recv_at)),
                Some(KeyStream::new(keys.send_key, keys.send_at)),
            ),
            None => (None, None),
        };
        let r = PeStream {
            cipher,
            init_payload,
            raw,
            decryptor,
            encryptor,
            encryptor_buf: Vec::new(),
            encryptor_buf_offset: 0,
        };
        assert(r.unsent_data() =~= Seq::<u8>::empty());
        r
    }

    /// Whether the stream is encrypted.
    pub fn has_encryption(&self) -> (r: bool)
        ensures
            r == (self.cipher() == Cipher::Rc4),
    {
        self.cipher == Cipher::Rc4
    }

    /// Whether the key streams reach for `n` more bytes either way.
    pub fn can_take(&self, n: usize) -> (r: bool)
        requires
            self.wf(),
        ensures
            r == self.has_room(n as int),
    {
        match (&self.decryptor, &self.encryptor) {
            (Some(decryptor), Some(encryptor)) => decryptor.used() <= usize::MAX - n
                && encryptor.used() <= usize::MAX - n,
            _ => true,
        }
    }

    /// Up to `max` bytes of the data that is to be read before anything that comes later.
    pub fn read_first(&mut self, max: usize) -> (r: Vec<u8>)
        requires
            old(self).wf(),
        ensures
            final(self).wf(),
            r@ == old(self).payload().take(
                if max < old(self).payload().len() {
                    max as int
                } else {
                    old(self).payload().len() as int
                },
            ),
            final(self).payload() == old(self).payload().skip(r@.len() as int),
            final(self).keys() == old(self).keys(),
            final(self).raw() == old(self).raw(),
            final(self).cipher() == old(self).cipher(),
            final(self).unsent_data() == old(self).unsent_data(),
    {
        let n: usize = if max < self.init_payload.len() {
            max
        } else {
            self.init_payload.len()
        };
        take_front(&mut self.init_payload, n)
    }

    /// What data that has come is read as; data that came with the handshake is read
    /// before it.
    pub fn receive(&mut self, data: &[u8]) -> (r: Vec<u8>)
        requires
            old(self).wf(),
            old(self).has_room((old(self).raw().len() + data@.len()) as int),
        ensures
            final(self).wf(),
            r@ == old(self).decrypted(old(self).raw() + data@),
            final(self).keys() == old(self).keys_after_read(
                (old(self).raw().len() + data@.len()) as int,
            ),
            final(self).raw() == Seq::<u8>::empty(),
            final(self).payload() == old(self).payload(),
            final(self).cipher() == old(self).cipher(),
            final(self).unsent_data() == old(self).unsent_data(),
    {
        let mut all: Vec<u8> = Vec::new();
        std::mem::swap(&mut all, &mut self.raw);
        append_slice(&mut all, data);
        assert(self.raw@ =~= Seq::<u8>::empty());
        match &mut self.decryptor {
            Some(decryptor) => decryptor.apply(all.as_slice()),
            None => all,
        }
    }

    /// Starts to send data, unless other data is still being sent.
    pub fn start_write(&mut self, data: &[u8]) -> (r: bool)
        requires
            old(self).wf(),
            old(self).has_room(data@.len() as int),
        ensures
            final(self).wf(),
            r == (old(self).unsent_data().len() == 0),
            r ==> final(self).unsent_data() == old(self).encrypted(data@),
            r ==> final(self).keys() == old(self).keys_after_write(data@.len() as int),
            !r ==> final(self).unsent_data() == old(self).unsent_data(),
            !r ==> final(self).keys() == old(self).keys(),
            final(self).payload() == old(self).payload(),
            final(self).raw() == old(self).raw(),
            final(self).cipher() == old(self).cipher(),
    {
        if self.encryptor_buf_offset < self.encryptor_buf.len() {
            return false;
        }
        let out: Vec<u8> = match &mut self.encryptor {
            Some(encryptor) => encryptor.apply(data),
            None => copy_slice(data),
        };
        self.encryptor_buf = out;
        self.encryptor_buf_offset = 0;
        assert(self.unsent_data() =~= self.encryptor_buf@);
        true
    }

    /// The encrypted data that is still to be sent.
    pub fn unsent(&self) -> (r: &[u8])
        requires
            self.wf(),
        ensures
            r@ == self.unsent_data(),
    {
        let r = sub_slice(
            self.encryptor_buf.as_slice(),
            self.encryptor_buf_offset,
            self.encryptor_buf.len(),
        );
        assert(r@ =~= self.unsent_data());
        r
    }

    /// Notes that `n` bytes of it were sent; the result says whether that was all.
    pub fn sent(&mut self, n: usize) -> (r: bool)
        requires
            old(self).wf(),
            n <= old(self).unsent_data().len(),
        ensures
            final(self).wf(),
            final(self).unsent_data() == old(self).unsent_data().skip(n as int),
            r == (final(self).unsent_data().len() == 0),
            final(self).keys() == old(self).keys(),
            final(self).payload() == old(self).payload(),
            final(self).raw() == old(self).raw(),
            final(self).cipher() == old(self).cipher(),
    {
        let len: usize = self.encryptor_buf.len();
        assert(self.encryptor_buf_offset + n <= len);
        self.encryptor_buf_offset = self.encryptor_buf_offset + n;
        assert(self.unsent_data() =~= old(self).unsent_data().skip(n as int));
        self.encryptor_buf_offset == self.encryptor_buf.len()
    }
}

/// What is written to one side of a stream is read at the other, and the two sides stay at
/// the same place for what comes next. Encrypted data is that of the key stream, and data
/// that is not encrypted is sent and read as it is.
pub proof fn law_stream_read_back(sender: PeStream, receiver: PeStream, data: Seq<u8>, more: Seq<u8>)
    requires
        match (sender.keys(), receiver.keys()) {
            (Some(a), Some(b)) => a.send_key == b.recv_key && a.send_at == b.recv_at,
            (None, None) => true,
            _ => false,
        },
    ensures
        receiver.decrypted(sender.encrypted(data)) == data,
        match (sender.keys_after_write(data.len() as int), receiver.keys_after_read(
            data.len() as int,
        )) {
            (Some(a), Some(b)) => {
                &&& a.send_key == b.recv_key && a.send_at == b.recv_at
                &&& sender.keys() matches Some(k) && a.recv_at == k.recv_at && a.recv_key
                    == k.recv_key
                &&& receiver.keys() matches Some(k) && b.send_at == k.send_at && b.send_key
                    == k.send_key
                &&& receiver.decrypted(sender.encrypted(data) + crypt(a.send_key, a.send_at, more))
                    == data + more
            },
            (None, None) => sender.keys() is None && receiver.keys() is None,
            _ => false,
        },
        match sender.keys() {
            Some(k) => forall|i: int|
                0 <= i < data.len() ==> #[trigger] sender.encrypted(data)[i] == data[i]
                    ^ super::crypto::rc4_byte(k.send_key, k.send_at + i),
            None => sender.encrypted(data) == data,
        },
{
    if let (Some(a), Some(b)) = (sender.keys(), receiver.keys()) {
        super::crypto::law_crypt_round_trip(a.send_key, a.send_at, data);
        super::crypto::law_crypt_round_trip(a.send_key, a.send_at + data.len(), more);
        let sent = crypt(a.send_key, a.send_at, data);
        let then_sent = crypt(a.send_key, a.send_at + data.len(), more);
        super::crypto::law_crypt_concat(a.send_key, a.send_at, sent, then_sent);
    }
}

/// The key streams reach for as many bytes as there are positions left.
pub proof fn law_room(stream: PeStream, n: int)
    requires
        0 <= n,
    ensures
        stream.has_room(n) <==> (stream.keys() matches Some(k) ==> k.recv_at + n <= usize::MAX
            && k.send_at + n <= usize::MAX),
{
}

} // verus!

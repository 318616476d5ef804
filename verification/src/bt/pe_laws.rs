//! What the two handshakes of message stream encryption come to together.

use super::crypto::{crypt, law_crypt_round_trip, sha1_digest};
use super::dh::{
    key_bytes, law_public_key, law_shared_secret, prime, public_key, shared_key, PE_KEY_LEN,
};
use super::pe_stream::{
    joined, key_a, key_b, key_message, mark_from, protocol_header, req_hash1, request,
    request_plain, response, response_plain, select_hash, share_hash, skey_hash, synced,
    verification, Cipher, Client, ClientPhase, Keys, PeError, Server, ServerPhase, Sync,
    PE_DISCARD, PE_MAX_PAD_LEN,
};
use crate::bytes::{
    big_endian, big_endian_bytes, lemma_big_endian_bytes_len, lemma_big_endian_round_trip, text,
};
use crate::kad::nodeid::{xor, InfoHash};
use vstd::arithmetic::power::pow;
use vstd::prelude::*;

verus! {

/// A mark that is first found behind a part is not found in that part.
proof fn lemma_mark_not_before(s: Seq<u8>, t: Seq<u8>, mark: Seq<u8>, i: int)
    requires
        0 <= i <= s.len(),
        mark.len() > 0,
        mark_from(s + t, mark, i) == Some(s.len() as int),
    ensures
        mark_from(s, mark, i) is None,
    decreases s.len() - i,
{
    if i < s.len() && i + mark.len() <= s.len() {
        assert((s + t).subrange(i, i + mark.len()) =~= s.subrange(i, i + mark.len()));
        lemma_mark_not_before(s, t, mark, i + 1);
    }
}

/// Numbers of two and four bytes are read back.
proof fn lemma_small_numbers(n: nat)
    ensures
        n < 0x1_0000 ==> big_endian(big_endian_bytes(n, 2)) == n,
        n < 0x1_0000_0000 ==> big_endian(big_endian_bytes(n, 4)) == n,
        big_endian_bytes(n, 2).len() == 2,
        big_endian_bytes(n, 4).len() == 4,
{
    assert(vstd::arithmetic::power::pow(256, 2) == 0x1_0000 && vstd::arithmetic::power::pow(256, 4)
        == 0x1_0000_0000) by {
        reveal_with_fuel(vstd::arithmetic::power::pow, 5);
    }
    lemma_big_endian_bytes_len(n, 2);
    lemma_big_endian_bytes_len(n, 4);
    if n < 0x1_0000 {
        lemma_big_endian_round_trip(n, 2);
    }
    if n < 0x1_0000_0000 {
        lemma_big_endian_round_trip(n, 4);
    }
}

/// A part of encrypted data is decrypted to that part of the data.
proof fn lemma_decrypt_part(key: Seq<u8>, at: int, plain: Seq<u8>, from: int, to: int)
    requires
        0 <= from <= to <= plain.len(),
    ensures
        crypt(key, at + from, crypt(key, at, plain).subrange(from, to)) == plain.subrange(from, to),
{
    let part = plain.subrange(from, to);
    assert(crypt(key, at, plain).subrange(from, to) =~= crypt(key, at + from, part));
    law_crypt_round_trip(key, at + from, part);
}

/// What the parts of the messages are.
proof fn lemma_plain_parts(pad: Seq<u8>)
    requires
        pad.len() <= PE_MAX_PAD_LEN,
    ensures
        ({
            let q = request_plain(pad);
            let r = response_plain(Cipher::Rc4, pad);
            &&& q.len() == 16 + pad.len()
            &&& q.subrange(0, 14).take(8) == verification()
            &&& big_endian(q.subrange(0, 14).subrange(8, 12)) == 3
            &&& big_endian(q.subrange(0, 14).subrange(12, 14)) == pad.len()
            &&& big_endian(q.subrange((14 + pad.len()) as int, (16 + pad.len()) as int)) == 0
            &&& r.len() == 14 + pad.len()
            &&& r.subrange(0, 8) == verification()
            &&& big_endian(r.subrange(8, 14).subrange(0, 4)) == 2
            &&& big_endian(r.subrange(8, 14).subrange(4, 6)) == pad.len()
        }),
{
    lemma_small_numbers(3);
    lemma_small_numbers(2);
    lemma_small_numbers(0);
    lemma_small_numbers(pad.len());
    let q = request_plain(pad);
    let r = response_plain(Cipher::Rc4, pad);
    let n = pad.len() as int;
    assert(q.subrange(0, 14).take(8) =~= verification());
    assert(q.subrange(0, 14).subrange(8, 12) =~= big_endian_bytes(3, 4));
    assert(q.subrange(0, 14).subrange(12, 14) =~= big_endian_bytes(pad.len(), 2));
    assert(q.subrange(14 + n, 16 + n) =~= big_endian_bytes(0, 2));
    assert(r.subrange(0, 8) =~= verification());
    assert(r.subrange(8, 14).subrange(0, 4) =~= big_endian_bytes(2, 4));
    assert(r.subrange(8, 14).subrange(4, 6) =~= big_endian_bytes(pad.len(), 2));
}

/// The exclusive or with the same bytes twice changes nothing.
proof fn lemma_xor_twice(a: Seq<u8>, b: Seq<u8>)
    requires
        a.len() == b.len(),
    ensures
        xor(xor(a, b), b) == a,
{
    assert(forall|x: u8, y: u8| (#[trigger] (x ^ y)) ^ y == x) by (bit_vector);
    assert(xor(xor(a, b), b) =~= a);
}

/// What a server does with a client's first message: it sends its own, and then looks for
/// the end of the padding.
proof fn lemma_server_first(s: Server, peer_key: Seq<u8>, pad: Seq<u8>)
    requires
        s.phase == ServerPhase::First,
        s.inbox == peer_key + pad,
        peer_key.len() == PE_KEY_LEN,
        s.inbox.take(20) != protocol_header(),
        pad.len() <= PE_MAX_PAD_LEN,
        mark_from(pad, req_hash1(shared_key(s.private_key, peer_key)), 0) is None,
    ensures
        s.run() == (
            Server {
                inbox: pad,
                phase: ServerPhase::Sync { share: shared_key(s.private_key, peer_key) },
                ..s
            },
            key_message(s.private_key, s.key_pad),
        ),
{
    let share = shared_key(s.private_key, peer_key);
    let s1 = s.goes(0, ServerPhase::Key);
    assert(s1.inbox =~= s.inbox);
    assert(s.step() == Some((s1, Seq::<u8>::empty())));
    let s2 = Server { inbox: pad, phase: ServerPhase::Sync { share }, ..s };
    assert(s1.inbox.take(PE_KEY_LEN as int) =~= peer_key);
    assert(s1.inbox.skip(PE_KEY_LEN as int) =~= pad);
    let out = key_message(s.private_key, s.key_pad);
    assert(s1.step() == Some((s2, out)));
    assert(s2.step() is None);
    assert(s2.run() == (s2, Seq::<u8>::empty()));
    assert(s1.run().1 =~= out);
    assert(s1.run() == (s2, out));
    assert(s.run().1 =~= out);
}

/// What a client does with a server's first message: it sends its request, and then looks
/// for the end of the padding.
proof fn lemma_client_first(c: Client, peer_key: Seq<u8>, pad: Seq<u8>)
    requires
        c.phase == ClientPhase::Key,
        c.inbox == peer_key + pad,
        peer_key.len() == PE_KEY_LEN,
        pad.len() <= PE_MAX_PAD_LEN,
        ({
            let share = shared_key(c.private_key, peer_key);
            mark_from(
                pad,
                crypt(key_b(share, c.hash@), PE_DISCARD as int, verification()),
                0,
            ) is None
        }),
    ensures
        ({
            let share = shared_key(c.private_key, peer_key);
            c.run() == (
                Client { inbox: pad, phase: ClientPhase::Sync { share }, ..c },
                request(share, c.hash@, c.request_pad),
            )
        }),
{
    let share = shared_key(c.private_key, peer_key);
    let c1 = Client { inbox: pad, phase: ClientPhase::Sync { share }, ..c };
    let out = request(share, c.hash@, c.request_pad);
    assert(c.inbox.take(PE_KEY_LEN as int) =~= peer_key);
    assert(c.inbox.skip(PE_KEY_LEN as int) =~= pad);
    assert(c.step() == Some((c1, out)));
    assert(c1.step() is None);
    assert(c1.run() == (c1, Seq::<u8>::empty()));
    assert(c.run().1 =~= out);
}

/// A server does its steps one by one.
proof fn lemma_server_run(s: Server, next: Server, out: Seq<u8>)
    requires
        s.step() == Some((next, out)),
    ensures
        s.run() == (next.run().0, out + next.run().1),
{
}

/// The keys of a server that has read the start of a request.
spec fn request_keys(share: Seq<u8>, hash: Seq<u8>, response_pad: Seq<u8>) -> Keys {
    Keys {
        recv_key: key_a(share, hash),
        recv_at: PE_DISCARD + 14,
        send_key: key_b(share, hash),
        send_at: PE_DISCARD + 14 + response_pad.len(),
    }
}

/// What a server does with the start of an encrypted request: it responds.
proof fn lemma_server_request_start(s: Server, share: Seq<u8>, hash: Seq<u8>, pad: Seq<u8>)
    requires
        s.phase == (ServerPhase::Header { share, hash }),
        s.inbox == crypt(key_a(share, hash), PE_DISCARD as int, request_plain(pad)),
        pad.len() <= PE_MAX_PAD_LEN,
    ensures
        s.step() == Some(
            (
                Server {
                    inbox: s.inbox.skip(14),
                    phase: ServerPhase::Padding {
                        cipher: Cipher::Rc4,
                        keys: request_keys(share, hash, s.response_pad),
                        len: pad.len(),
                    },
                    ..s
                },
                response(share, hash, Cipher::Rc4, s.response_pad),
            ),
        ),
{
    let ka = key_a(share, hash);
    let at = PE_DISCARD as int;
    lemma_plain_parts(pad);
    lemma_decrypt_part(ka, at, request_plain(pad), 0, 14);
    assert(s.inbox.take(14) =~= s.inbox.subrange(0, 14));
    assert(crypt(ka, at + 0, s.inbox.take(14)) == request_plain(pad).subrange(0, 14));
}

/// What a server does with the rest of an encrypted request: it is done.
proof fn lemma_server_request_end(
    s: Server,
    share: Seq<u8>,
    hash: Seq<u8>,
    pad: Seq<u8>,
    enc: Seq<u8>,
)
    requires
        enc == crypt(key_a(share, hash), PE_DISCARD as int, request_plain(pad)),
        s.phase == (ServerPhase::Padding {
            cipher: Cipher::Rc4,
            keys: request_keys(share, hash, s.response_pad),
            len: pad.len(),
        }),
        s.inbox == enc.skip(14),
        pad.len() <= PE_MAX_PAD_LEN,
    ensures
        s.run() == (
            Server {
                inbox: seq![],
                phase: ServerPhase::Done {
                    cipher: Cipher::Rc4,
                    keys: Some(
                        Keys {
                            recv_at: PE_DISCARD + 16 + pad.len(),
                            ..request_keys(share, hash, s.response_pad)
                        },
                    ),
                    payload: seq![],
                },
                ..s
            },
            Seq::<u8>::empty(),
        ),
{
    let ka = key_a(share, hash);
    let at = PE_DISCARD as int;
    let plain = request_plain(pad);
    let keys = request_keys(share, hash, s.response_pad);
    let n = pad.len() as int;
    let none = Seq::<u8>::empty();
    lemma_plain_parts(pad);

    let keys1 = Keys { recv_at: PE_DISCARD + 14 + n, ..keys };
    let s1 = Server {
        inbox: s.inbox.skip(n),
        phase: ServerPhase::DataLen { cipher: Cipher::Rc4, keys: keys1 },
        ..s
    };
    assert(s.step() == Some((s1, none)));

    assert(s1.inbox =~= enc.subrange(14 + n, 16 + n));
    assert(s1.inbox.take(2) =~= enc.subrange(14 + n, 16 + n));
    lemma_decrypt_part(ka, at, plain, 14 + n, 16 + n);
    let keys2 = Keys { recv_at: PE_DISCARD + 16 + n, ..keys };
    let s2 = Server {
        inbox: s1.inbox.skip(2),
        phase: ServerPhase::Data { cipher: Cipher::Rc4, keys: keys2, len: 0 },
        ..s
    };
    assert(s1.step() == Some((s2, none)));

    assert(s2.inbox.skip(0) =~= none);
    assert(crypt(ka, keys2.recv_at, s2.inbox.take(0)) =~= none);
    let s3 = Server {
        inbox: none,
        phase: ServerPhase::Done { cipher: Cipher::Rc4, keys: Some(keys2), payload: none },
        ..s
    };
    assert(s2.step() == Some((s3, none)));
    assert(s3.run() == (s3, none));
    lemma_server_run(s2, s3, none);
    lemma_server_run(s1, s2, none);
    lemma_server_run(s, s1, none);
    assert(none + none =~= none);
}

/// What a server does with a client's request for a torrent that it serves: it responds,
/// and is done.
proof fn lemma_server_second(
    s: Server,
    share: Seq<u8>,
    hash: InfoHash,
    before: Seq<u8>,
    pad: Seq<u8>,
)
    requires
        s.phase == (ServerPhase::Sync { share }),
        s.inbox == before + request(share, hash@, pad),
        before.len() <= PE_MAX_PAD_LEN,
        pad.len() <= PE_MAX_PAD_LEN,
        s.response_pad.len() <= PE_MAX_PAD_LEN,
        select_hash(s.hashes, skey_hash(hash@)) == Some(hash),
        req_hash1(share).len() == 20,
        skey_hash(hash@).len() == 20,
        share_hash(share).len() == 20,
        mark_from(s.inbox, req_hash1(share), 0) == Some(before.len() as int),
    ensures
        s.run() == (
            Server {
                inbox: seq![],
                phase: ServerPhase::Done {
                    cipher: Cipher::Rc4,
                    keys: Some(
                        Keys {
                            recv_key: key_a(share, hash@),
                            recv_at: PE_DISCARD + 16 + pad.len(),
                            send_key: key_b(share, hash@),
                            send_at: PE_DISCARD + 14 + s.response_pad.len(),
                        },
                    ),
                    payload: seq![],
                },
                ..s
            },
            response(share, hash@, Cipher::Rc4, s.response_pad),
        ),
{
    let hash2 = xor(skey_hash(hash@), share_hash(share));
    let enc = crypt(key_a(share, hash@), PE_DISCARD as int, request_plain(pad));
    let out = response(share, hash@, Cipher::Rc4, s.response_pad);
    let none = Seq::<u8>::empty();

    let s1 = Server { inbox: hash2 + enc, phase: ServerPhase::Hash { share }, ..s };
    assert(s.inbox.skip(before.len() as int + 20) =~= hash2 + enc);
    assert(before.len() as usize as int == before.len());
    assert(s.step() == Some((s1, none)));

    lemma_xor_twice(skey_hash(hash@), share_hash(share));
    let s2 = Server { inbox: enc, phase: ServerPhase::Header { share, hash: hash@ }, ..s };
    assert(s1.inbox.take(20) =~= hash2);
    assert(s1.inbox.skip(20) =~= enc);
    assert(s1.step() == Some((s2, none)));

    let s3 = Server {
        inbox: enc.skip(14),
        phase: ServerPhase::Padding {
            cipher: Cipher::Rc4,
            keys: request_keys(share, hash@, s.response_pad),
            len: pad.len(),
        },
        ..s
    };
    lemma_server_request_start(s2, share, hash@, pad);
    lemma_server_request_end(s3, share, hash@, pad, enc);
    lemma_server_run(s2, s3, out);
    lemma_server_run(s1, s2, none);
    lemma_server_run(s, s1, none);
    assert(none + (none + (out + none)) =~= out);
}

/// What a client does with a server's response: it is done.
proof fn lemma_client_second(c: Client, share: Seq<u8>, before: Seq<u8>, pad: Seq<u8>)
    requires
        c.phase == (ClientPhase::Sync { share }),
        c.inbox == before + response(share, c.hash@, Cipher::Rc4, pad),
        before.len() <= PE_MAX_PAD_LEN,
        pad.len() <= PE_MAX_PAD_LEN,
        mark_from(
            c.inbox,
            crypt(key_b(share, c.hash@), PE_DISCARD as int, verification()),
            0,
        ) == Some(before.len() as int),
    ensures
        c.run() == (
            Client {
                inbox: seq![],
                phase: ClientPhase::Done {
                    cipher: Cipher::Rc4,
                    keys: Some(
                        Keys {
                            recv_key: key_b(share, c.hash@),
                            recv_at: PE_DISCARD + 14 + pad.len(),
                            send_key: key_a(share, c.hash@),
                            send_at: PE_DISCARD + 16 + c.request_pad.len(),
                        },
                    ),
                },
                ..c
            },
            Seq::<u8>::empty(),
        ),
{
    let kb = key_b(share, c.hash@);
    let at = PE_DISCARD as int;
    let plain = response_plain(Cipher::Rc4, pad);
    let enc = crypt(kb, at, plain);
    let n = pad.len() as int;
    lemma_plain_parts(pad);
    assert(enc.len() == 14 + n);

    let c1 = Client { inbox: enc.skip(8), phase: ClientPhase::Header { share }, ..c };
    assert(c.inbox.skip(before.len() as int + 8) =~= enc.skip(8));
    assert(before.len() as usize as int == before.len());
    assert(c.step() == Some((c1, Seq::<u8>::empty())));

    lemma_decrypt_part(kb, at, plain, 8, 14);
    assert(c1.inbox.take(6) =~= enc.subrange(8, 14));
    let keys = Keys {
        recv_key: kb,
        recv_at: PE_DISCARD + 14,
        send_key: key_a(share, c.hash@),
        send_at: PE_DISCARD + 16 + c.request_pad.len(),
    };
    let c2 = Client {
        inbox: c1.inbox.skip(6),
        phase: ClientPhase::Padding { cipher: Cipher::Rc4, keys, len: n as nat },
        ..c
    };
    assert(c1.step() == Some((c2, Seq::<u8>::empty())));

    assert(c2.inbox.skip(n) =~= seq![]);
    let keys3 = Keys { recv_at: PE_DISCARD + 14 + n, ..keys };
    let c3 = Client {
        inbox: seq![],
        phase: ClientPhase::Done { cipher: Cipher::Rc4, keys: Some(keys3) },
        ..c
    };
    assert(c2.step() == Some((c3, Seq::<u8>::empty())));
    assert(c3.step() is None);
    assert(c3.run() == (c3, Seq::<u8>::empty()));
    assert(c2.run().1 =~= seq![]);
    assert(c1.run().1 =~= seq![]);
    assert(c.run().1 =~= seq![]);
}

/// A handshake: the torrent, those that the server serves, and the secrets and paddings of
/// both sides.
pub struct Handshake {
    pub hash: InfoHash,
    pub hashes: Seq<InfoHash>,
    pub client_key: Seq<u8>,
    pub client_pad: Seq<u8>,
    pub request_pad: Seq<u8>,
    pub server_key: Seq<u8>,
    pub server_pad: Seq<u8>,
    pub response_pad: Seq<u8>,
}

impl Handshake {
    /// The server, to which nothing has come.
    pub open spec fn server(self) -> Server {
        Server {
            private_key: self.server_key,
            key_pad: self.server_pad,
            response_pad: self.response_pad,
            hashes: self.hashes,
            inbox: seq![],
            phase: ServerPhase::First,
        }
    }

    /// The client, which has sent its first message.
    pub open spec fn client(self) -> Client {
        Client {
            private_key: self.client_key,
            request_pad: self.request_pad,
            hash: self.hash,
            inbox: seq![],
            phase: ClientPhase::Key,
        }
    }

    /// The secret that both sides share.
    pub open spec fn share(self) -> Seq<u8> {
        shared_key(self.server_key, key_bytes(public_key(self.client_key)))
    }

    /// The client's first message.
    pub open spec fn hello(self) -> Seq<u8> {
        key_message(self.client_key, self.client_pad)
    }

    /// The server's first message.
    pub open spec fn answer(self) -> Seq<u8> {
        key_message(self.server_key, self.server_pad)
    }

    /// The client's request.
    pub open spec fn request(self) -> Seq<u8> {
        request(self.share(), self.hash@, self.request_pad)
    }

    /// The server's response.
    pub open spec fn response(self) -> Seq<u8> {
        response(self.share(), self.hash@, Cipher::Rc4, self.response_pad)
    }

    /// What marks the end of the server's padding.
    pub open spec fn mark(self) -> Seq<u8> {
        crypt(key_b(self.share(), self.hash@), PE_DISCARD as int, verification())
    }

    /// Whether the server serves the torrent and tells it from the others by its digest,
    /// the paddings are not too long and do not hold the mark that is looked for behind
    /// them, and the client's key does not look like the start of an unencrypted connection.
    /// Digests are 20 bytes long, which holds of every digest that is made.
    pub open spec fn apart(self) -> bool {
        &&& select_hash(self.hashes, skey_hash(self.hash@)) == Some(self.hash)
        &&& self.client_pad.len() <= PE_MAX_PAD_LEN
        &&& self.request_pad.len() <= PE_MAX_PAD_LEN
        &&& self.server_pad.len() <= PE_MAX_PAD_LEN
        &&& self.response_pad.len() <= PE_MAX_PAD_LEN
        &&& self.hello().take(20) != protocol_header()
        &&& mark_from(self.client_pad + self.request(), req_hash1(self.share()), 0) == Some(
            self.client_pad.len() as int,
        )
        &&& mark_from(self.server_pad + self.response(), self.mark(), 0) == Some(
            self.server_pad.len() as int,
        )
        &&& req_hash1(self.share()).len() == 20
        &&& skey_hash(self.hash@).len() == 20
        &&& share_hash(self.share()).len() == 20
    }
}

/// Whether two sides are done with an encrypted stream and nothing left over: each decrypts
/// with the key, and from the position in its key stream, with which the other encrypts.
pub open spec fn agreed(server: Server, client: Client) -> bool {
    &&& server.phase matches ServerPhase::Done { cipher: sc, keys: sk, payload }
    &&& client.phase matches ClientPhase::Done { cipher: cc, keys: ck }
    &&& sc == Cipher::Rc4
    &&& cc == Cipher::Rc4
    &&& payload.len() == 0
    &&& server.inbox.len() == 0
    &&& client.inbox.len() == 0
    &&& sk matches Some(s)
    &&& ck matches Some(c)
    &&& s.recv_key == c.send_key
    &&& s.recv_at == c.send_at
    &&& s.send_key == c.recv_key
    &&& s.send_at == c.recv_at
}

/// A client and a server that serves its torrent come to an encrypted stream: each message
/// of one leads to the next of the other, and at the end the two agree. (The paddings, which
/// are random, must be apart from what is looked for.)
pub proof fn law_handshake(h: Handshake)
    requires
        h.apart(),
    ensures
        ({
            let (server1, from_server1) = h.server().fed(h.hello()).run();
            let (client1, from_client1) = h.client().fed(from_server1).run();
            let (server2, from_server2) = server1.fed(from_client1).run();
            let (client2, from_client2) = client1.fed(from_server2).run();
            &&& from_server1 == h.answer()
            &&& from_client1 == h.request()
            &&& from_server2 == h.response()
            &&& from_client2.len() == 0
            &&& agreed(server2, client2)
        }),
{
    law_shared_secret(h.client_key, h.server_key);
    let share = h.share();
    lemma_mark_not_before(h.client_pad, h.request(), req_hash1(share), 0);
    lemma_mark_not_before(h.server_pad, h.response(), h.mark(), 0);
    let server0 = h.server().fed(h.hello());
    assert(server0.inbox =~= h.hello());
    lemma_server_first(server0, key_bytes(public_key(h.client_key)), h.client_pad);
    let server1 = server0.run().0;
    let client0 = h.client().fed(h.answer());
    assert(client0.inbox =~= h.answer());
    lemma_client_first(client0, key_bytes(public_key(h.server_key)), h.server_pad);
    let client1 = client0.run().0;
    let server2 = server1.fed(h.request());
    lemma_server_second(server2, share, h.hash, h.client_pad, h.request_pad);
    let client2 = client1.fed(h.response());
    lemma_client_second(client2, share, h.server_pad, h.response_pad);
}

/// A mark that is found is found at the same place when more data follows.
proof fn lemma_mark_more(s: Seq<u8>, t: Seq<u8>, mark: Seq<u8>, i: int)
    requires
        mark_from(s, mark, i) is Some,
    ensures
        mark_from(s + t, mark, i) == mark_from(s, mark, i),
        i <= mark_from(s, mark, i)->Some_0,
        0 <= mark_from(s, mark, i)->Some_0 <= s.len() - mark.len(),
    decreases s.len() - i,
{
    assert((s + t).subrange(i, i + mark.len()) =~= s.subrange(i, i + mark.len()));
    if s.subrange(i, i + mark.len()) != mark {
        lemma_mark_more(s, t, mark, i + 1);
    }
}

/// A step of a server for which enough has come is the same with more data, which is left.
proof fn lemma_server_step_more(s: Server, data: Seq<u8>)
    requires
        s.step() is Some,
        s.gives_up() ==> s.fed(data).gives_up(),
        s.inbox.len() + data.len() <= usize::MAX,
    ensures
        s.fed(data).step() == Some((s.step()->Some_0.0.fed(data), s.step()->Some_0.1)),
        s.step()->Some_0.0.inbox.len() <= s.inbox.len(),
        s.step()->Some_0.0.rank() < s.rank(),
{
    let t = s.fed(data);
    match s.phase {
        ServerPhase::First => {
            assert(t.inbox.take(20) =~= s.inbox.take(20));
            assert(t.inbox.skip(0) =~= t.inbox);
            assert(s.inbox.skip(0) =~= s.inbox);
            assert(t.inbox.skip(20) =~= s.inbox.skip(20) + data);
        },
        ServerPhase::Key => {
            let n = PE_KEY_LEN as int;
            assert(t.inbox.take(n) =~= s.inbox.take(n));
            assert(t.inbox.skip(n) =~= s.inbox.skip(n) + data);
        },
        ServerPhase::Sync { share } => {
            let mark = req_hash1(share);
            if let Some(i) = mark_from(s.inbox, mark, 0) {
                lemma_mark_more(s.inbox, data, mark, 0);
                let n = i + mark.len();
                assert(t.inbox.skip(n) =~= s.inbox.skip(n) + data);
            }
        },
        ServerPhase::Hash { share } => {
            assert(t.inbox.take(20) =~= s.inbox.take(20));
            assert(t.inbox.skip(20) =~= s.inbox.skip(20) + data);
        },
        ServerPhase::Header { share, hash } => {
            assert(t.inbox.take(14) =~= s.inbox.take(14));
            assert(t.inbox.skip(14) =~= s.inbox.skip(14) + data);
        },
        ServerPhase::Padding { len, .. } => {
            assert(t.inbox.skip(len as int) =~= s.inbox.skip(len as int) + data);
        },
        ServerPhase::DataLen { .. } => {
            assert(t.inbox.take(2) =~= s.inbox.take(2));
            assert(t.inbox.skip(2) =~= s.inbox.skip(2) + data);
        },
        ServerPhase::Data { len, .. } => {
            assert(t.inbox.take(len as int) =~= s.inbox.take(len as int));
            assert(t.inbox.skip(len as int) =~= s.inbox.skip(len as int) + data);
        },
        ServerPhase::Done { .. } => {},
        ServerPhase::Failed(_) => {},
    }
}

/// Behind the search for the mark it is not given up.
proof fn lemma_server_no_overrun(s: Server)
    requires
        s.rank() < 6,
    ensures
        !s.overruns(),
    decreases s.rank(),
{
    if let Some((next, _)) = s.step() {
        lemma_server_no_overrun(next);
    }
}

/// What a server does with data, and then with more, is what it does with all of it.
proof fn lemma_server_more(s: Server, data: Seq<u8>)
    requires
        s.overruns() ==> s.fed(data).overruns(),
        s.inbox.len() + data.len() <= usize::MAX,
    ensures
        s.fed(data).run() == (
            s.run().0.fed(data).run().0,
            s.run().1 + s.run().0.fed(data).run().1,
        ),
    decreases s.rank(),
{
    let t = s.fed(data);
    match s.step() {
        Some((next, out)) => {
            if s.gives_up() && !t.gives_up() {
                if let Some((after, _)) = t.step() {
                    lemma_server_no_overrun(after);
                }
            }
            lemma_server_step_more(s, data);
            lemma_server_more(next, data);
            let end = next.run().0.fed(data).run();
            assert(out + (next.run().1 + end.1) =~= (out + next.run().1) + end.1);
        },
        None => {
            assert(Seq::<u8>::empty() + t.run().1 =~= t.run().1);
        },
    }
}

/// In how many parts data comes to a server makes no difference: the state and what is sent
/// are the same for two parts as for both at once. (The one exception is where the first
/// part is so long without the mark that the search for it is given up, and the mark stands
/// farther behind.)
pub proof fn law_server_parts(s: Server, first: Seq<u8>, second: Seq<u8>)
    requires
        s.fed(first).overruns() ==> s.fed(first + second).overruns(),
        s.inbox.len() + first.len() + second.len() <= usize::MAX,
    ensures
        ({
            let (between, sent) = s.fed(first).run();
            let (end, then_sent) = between.fed(second).run();
            s.fed(first + second).run() == (end, sent + then_sent)
        }),
{
    assert(s.fed(first).fed(second).inbox =~= s.fed(first + second).inbox);
    lemma_server_more(s.fed(first), second);
}

/// A step of a client for which enough has come is the same with more data, which is left.
proof fn lemma_client_step_more(s: Client, data: Seq<u8>)
    requires
        s.step() is Some,
        s.gives_up() ==> s.fed(data).gives_up(),
        s.inbox.len() + data.len() <= usize::MAX,
    ensures
        s.fed(data).step() == Some((s.step()->Some_0.0.fed(data), s.step()->Some_0.1)),
        s.step()->Some_0.0.inbox.len() <= s.inbox.len(),
        s.step()->Some_0.0.rank() < s.rank(),
{
    let t = s.fed(data);
    match s.phase {
        ClientPhase::Key => {
            let n = PE_KEY_LEN as int;
            assert(t.inbox.take(n) =~= s.inbox.take(n));
            assert(t.inbox.skip(n) =~= s.inbox.skip(n) + data);
        },
        ClientPhase::Sync { share } => {
            let mark = crypt(key_b(share, s.hash@), PE_DISCARD as int, verification());
            if let Some(i) = mark_from(s.inbox, mark, 0) {
                lemma_mark_more(s.inbox, data, mark, 0);
                let n = i + mark.len();
                assert(t.inbox.skip(n) =~= s.inbox.skip(n) + data);
            }
        },
        ClientPhase::Header { share } => {
            assert(t.inbox.take(6) =~= s.inbox.take(6));
            assert(t.inbox.skip(6) =~= s.inbox.skip(6) + data);
        },
        ClientPhase::Padding { len, .. } => {
            assert(t.inbox.skip(len as int) =~= s.inbox.skip(len as int) + data);
        },
        ClientPhase::Done { .. } => {},
        ClientPhase::Failed(_) => {},
    }
}

/// Behind the search for the mark it is not given up.
proof fn lemma_client_no_overrun(s: Client)
    requires
        s.rank() < 3,
    ensures
        !s.overruns(),
    decreases s.rank(),
{
    if let Some((next, _)) = s.step() {
        lemma_client_no_overrun(next);
    }
}

/// What a client does with data, and then with more, is what it does with all of it.
proof fn lemma_client_more(s: Client, data: Seq<u8>)
    requires
        s.overruns() ==> s.fed(data).overruns(),
        s.inbox.len() + data.len() <= usize::MAX,
    ensures
        s.fed(data).run() == (
            s.run().0.fed(data).run().0,
            s.run().1 + s.run().0.fed(data).run().1,
        ),
    decreases s.rank(),
{
    let t = s.fed(data);
    match s.step() {
        Some((next, out)) => {
            if s.gives_up() && !t.gives_up() {
                if let Some((after, _)) = t.step() {
                    lemma_client_no_overrun(after);
                }
            }
            lemma_client_step_more(s, data);
            lemma_client_more(next, data);
            let end = next.run().0.fed(data).run();
            assert(out + (next.run().1 + end.1) =~= (out + next.run().1) + end.1);
        },
        None => {
            assert(Seq::<u8>::empty() + t.run().1 =~= t.run().1);
        },
    }
}

/// In how many parts data comes to a client makes no difference: the state and what is sent
/// are the same for two parts as for both at once. (The one exception is where the first
/// part is so long without the mark that the search for it is given up, and the mark stands
/// farther behind.)
pub proof fn law_client_parts(s: Client, first: Seq<u8>, second: Seq<u8>)
    requires
        s.fed(first).overruns() ==> s.fed(first + second).overruns(),
        s.inbox.len() + first.len() + second.len() <= usize::MAX,
    ensures
        ({
            let (between, sent) = s.fed(first).run();
            let (end, then_sent) = between.fed(second).run();
            s.fed(first + second).run() == (end, sent + then_sent)
        }),
{
    assert(s.fed(first).fed(second).inbox =~= s.fed(first + second).inbox);
    lemma_client_more(s.fed(first), second);
}

/// Data may come to a server in any number of parts: the state and what is sent in all are
/// the same as for all of it at once. (The one exception is where parts are so long without
/// the mark that the search for it is given up, and the mark stands farther behind.)
pub proof fn law_server_takes(s: Server, parts: Seq<Seq<u8>>)
    requires
        s.step() is None,
        s.inbox.len() + joined(parts).len() <= usize::MAX,
        forall|k: int|
            0 <= k < parts.len() && s.fed(joined(#[trigger] parts.take(k))).overruns() ==> s.fed(
                joined(parts.take(k + 1)),
            ).overruns(),
    ensures
        s.takes(parts) == s.fed(joined(parts)).run(),
    decreases parts.len(),
{
    if parts.len() == 0 {
        assert(s.fed(joined(parts)).inbox =~= s.inbox);
    } else {
        let front = parts.drop_last();
        let n = front.len() as int;
        assert(parts.take(n) =~= front);
        assert(parts.take(n + 1) =~= parts);
        assert forall|k: int|
            0 <= k < front.len() && s.fed(joined(#[trigger] front.take(k))).overruns() implies s.fed(
            joined(front.take(k + 1)),
        ).overruns() by {
            assert(front.take(k) =~= parts.take(k));
            assert(front.take(k + 1) =~= parts.take(k + 1));
        }
        law_server_takes(s, front);
        law_server_parts(s, joined(front), parts.last());
    }
}

/// Data may come to a client in any number of parts: the state and what is sent in all are
/// the same as for all of it at once. (The one exception is where parts are so long without
/// the mark that the search for it is given up, and the mark stands farther behind.)
pub proof fn law_client_takes(s: Client, parts: Seq<Seq<u8>>)
    requires
        s.step() is None,
        s.inbox.len() + joined(parts).len() <= usize::MAX,
        forall|k: int|
            0 <= k < parts.len() && s.fed(joined(#[trigger] parts.take(k))).overruns() ==> s.fed(
                joined(parts.take(k + 1)),
            ).overruns(),
    ensures
        s.takes(parts) == s.fed(joined(parts)).run(),
    decreases parts.len(),
{
    if parts.len() == 0 {
        assert(s.fed(joined(parts)).inbox =~= s.inbox);
    } else {
        let front = parts.drop_last();
        let n = front.len() as int;
        assert(parts.take(n) =~= front);
        assert(parts.take(n + 1) =~= parts);
        assert forall|k: int|
            0 <= k < front.len() && s.fed(joined(#[trigger] front.take(k))).overruns() implies s.fed(
            joined(front.take(k + 1)),
        ).overruns() by {
            assert(front.take(k) =~= parts.take(k));
            assert(front.take(k + 1) =~= parts.take(k + 1));
        }
        law_client_takes(s, front);
        law_client_parts(s, joined(front), parts.last());
    }
}

/// A mark that is found within a part is found there when what follows is missing.
proof fn lemma_mark_within(s: Seq<u8>, t: Seq<u8>, mark: Seq<u8>, i: int)
    requires
        0 <= i,
        mark.len() > 0,
        mark_from(s + t, mark, i) is Some,
        mark_from(s + t, mark, i)->Some_0 + mark.len() <= s.len(),
    ensures
        mark_from(s, mark, i) == mark_from(s + t, mark, i),
    decreases s.len() - i,
{
    if i + mark.len() <= s.len() {
        assert((s + t).subrange(i, i + mark.len()) =~= s.subrange(i, i + mark.len()));
        if s.subrange(i, i + mark.len()) != mark {
            lemma_mark_within(s, t, mark, i + 1);
        }
    } else {
        lemma_mark_at_least(s + t, mark, i);
    }
}

/// A mark is found where it is looked for, or behind.
proof fn lemma_mark_at_least(s: Seq<u8>, mark: Seq<u8>, i: int)
    requires
        mark_from(s, mark, i) is Some,
    ensures
        i <= mark_from(s, mark, i)->Some_0,
    decreases s.len() - i,
{
    if s.subrange(i, i + mark.len()) != mark {
        lemma_mark_at_least(s, mark, i + 1);
    }
}

/// The parts before a place are the start of all of them.
proof fn lemma_joined_take(parts: Seq<Seq<u8>>, k: int) -> (rest: Seq<u8>)
    requires
        0 <= k <= parts.len(),
    ensures
        joined(parts) == joined(parts.take(k)) + rest,
    decreases parts.len(),
{
    if k == parts.len() {
        assert(parts.take(k) =~= parts);
        assert(joined(parts) =~= joined(parts) + seq![]);
        seq![]
    } else {
        let rest = lemma_joined_take(parts.drop_last(), k);
        assert(parts.drop_last().take(k) =~= parts.take(k));
        assert(joined(parts) =~= joined(parts.take(k)) + (rest + parts.last()));
        rest + parts.last()
    }
}

/// A server does not give up the search for the mark in the start of what a client sends.
proof fn lemma_server_start(h: Handshake, start: Seq<u8>, rest: Seq<u8>)
    requires
        h.apart(),
        h.hello() + h.request() == start + rest,
    ensures
        !h.server().fed(start).overruns(),
{
    let s = h.server().fed(start);
    assert(s.inbox =~= start);
    let key = key_bytes(public_key(h.client_key));
    law_shared_secret(h.client_key, h.server_key);
    if start.len() >= 20 {
        assert(start.take(20) =~= (h.hello() + h.request()).take(20));
        assert((h.hello() + h.request()).take(20) =~= h.hello().take(20));
        let s1 = s.goes(0, ServerPhase::Key);
        assert(s1.inbox =~= start);
        assert(s.step() == Some((s1, Seq::<u8>::empty())));
        let n = PE_KEY_LEN as int;
        if start.len() >= n {
            assert(start.take(n) =~= key) by {
                assert(start.take(n) =~= (h.hello() + h.request()).take(n));
            }
            let s2 = s1.step()->Some_0.0;
            let tail = start.skip(n);
            assert(s2.inbox == tail);
            assert(s2.phase == (ServerPhase::Sync { share: h.share() }));
            assert(tail + rest =~= h.client_pad + h.request()) by {
                assert(tail + rest =~= (start + rest).skip(n));
                assert((h.hello() + h.request()).skip(n) =~= h.client_pad + h.request());
            }
            if tail.len() >= PE_MAX_PAD_LEN + 20 {
                lemma_mark_within(tail, rest, req_hash1(h.share()), 0);
            }
            assert(!s2.gives_up());
            if let Some((s3, _)) = s2.step() {
                lemma_server_no_overrun(s3);
            }
            assert(!s2.overruns());
        }
        assert(!s1.overruns());
    }
}

/// A client does not give up the search for the mark in the start of what a server sends.
proof fn lemma_client_start(h: Handshake, start: Seq<u8>, rest: Seq<u8>)
    requires
        h.apart(),
        h.answer() + h.response() == start + rest,
    ensures
        !h.client().fed(start).overruns(),
{
    let c = h.client().fed(start);
    assert(c.inbox =~= start);
    let key = key_bytes(public_key(h.server_key));
    law_shared_secret(h.client_key, h.server_key);
    let n = PE_KEY_LEN as int;
    if start.len() >= n {
        assert(start.take(n) =~= key) by {
            assert(start.take(n) =~= (h.answer() + h.response()).take(n));
        }
        let c1 = c.step()->Some_0.0;
        let tail = start.skip(n);
        assert(c1.inbox == tail);
        assert(c1.phase == (ClientPhase::Sync { share: h.share() }));
        assert(tail + rest =~= h.server_pad + h.response()) by {
            assert(tail + rest =~= (start + rest).skip(n));
            assert((h.answer() + h.response()).skip(n) =~= h.server_pad + h.response());
        }
        if tail.len() >= PE_MAX_PAD_LEN + 8 {
            lemma_mark_within(tail, rest, h.mark(), 0);
        }
        assert(!c1.gives_up());
        if let Some((c2, _)) = c1.step() {
            lemma_client_no_overrun(c2);
        }
        assert(!c1.overruns());
    }
}

/// A client and a server that serves its torrent come to an encrypted stream however the
/// bytes are cut on their way: whatever the parts in which what each sends comes to the
/// other, each sends just that, and at the end the two agree.
pub proof fn law_handshake_in_parts(
    h: Handshake,
    to_server: Seq<Seq<u8>>,
    to_client: Seq<Seq<u8>>,
)
    requires
        h.apart(),
        joined(to_server) == h.hello() + h.request(),
        joined(to_client) == h.answer() + h.response(),
    ensures
        ({
            let (server, from_server) = h.server().takes(to_server);
            let (client, from_client) = h.client().takes(to_client);
            &&& h.hello() + from_client == joined(to_server)
            &&& from_server == joined(to_client)
            &&& agreed(server, client)
        }),
{
    law_handshake(h);
    law_shared_secret(h.client_key, h.server_key);
    lemma_plain_parts(h.request_pad);
    lemma_plain_parts(h.response_pad);
    let s = h.server();
    let c = h.client();
    assert(joined(to_server).len() <= 0xffff && joined(to_client).len() <= 0xffff);
    assert forall|k: int|
        0 <= k < to_server.len() && s.fed(joined(#[trigger] to_server.take(k))).overruns() implies s.fed(
        joined(to_server.take(k + 1)),
    ).overruns() by {
        let rest = lemma_joined_take(to_server, k);
        lemma_server_start(h, joined(to_server.take(k)), rest);
    }
    law_server_takes(s, to_server);
    lemma_server_start(h, h.hello(), h.request());
    law_server_parts(s, h.hello(), h.request());
    assert forall|k: int|
        0 <= k < to_client.len() && c.fed(joined(#[trigger] to_client.take(k))).overruns() implies c.fed(
        joined(to_client.take(k + 1)),
    ).overruns() by {
        let rest = lemma_joined_take(to_client, k);
        lemma_client_start(h, joined(to_client.take(k)), rest);
    }
    law_client_takes(c, to_client);
    lemma_client_start(h, h.answer(), h.response());
    law_client_parts(c, h.answer(), h.response());
    assert(h.request() + Seq::<u8>::empty() =~= h.request());
    let from_client2 = c.fed(h.answer()).run().0.fed(h.response()).run().1;
    assert(from_client2 =~= seq![]);
}

/// What one side of a stream encrypts the other decrypts, where they have the same key and
/// are at the same position.
pub proof fn law_stream(sender: Keys, receiver: Keys, data: Seq<u8>)
    requires
        sender.send_key == receiver.recv_key,
        sender.send_at == receiver.recv_at,
    ensures
        crypt(
            receiver.recv_key,
            receiver.recv_at,
            crypt(sender.send_key, sender.send_at, data),
        ) == data,
{
    law_crypt_round_trip(sender.send_key, sender.send_at, data);
}

/// Eight zeros, which each side sends encrypted.
pub open spec fn eight_zeros() -> Seq<u8> {
    Seq::new(8, |i: int| 0u8)
}

/// What a client asks for, before encryption: zeros, the ciphers that it provides, padding
/// behind its length, and the data that it wants to say first behind its length.
pub open spec fn asked_plain(provided: nat, pad: Seq<u8>, first: Seq<u8>) -> Seq<u8> {
    eight_zeros() + big_endian_bytes(provided, 4) + big_endian_bytes(pad.len(), 2) + pad
        + big_endian_bytes(first.len(), 2) + first
}

/// What a client asks for, as it is sent: the digest that marks the end of the padding before
/// it, the hidden digest of the torrent, and the rest encrypted from position 1024 of the key
/// stream on.
pub open spec fn asked(share: Seq<u8>, hash: Seq<u8>, provided: nat, pad: Seq<u8>, first: Seq<u8>) -> Seq<
    u8,
> {
    sha1_digest(text("req1") + share) + xor(
        sha1_digest(text("req2") + hash),
        sha1_digest(text("req3") + share),
    ) + crypt(sha1_digest(text("keyA") + share + hash), 1024, asked_plain(provided, pad, first))
}

/// What a server responds, before encryption: zeros, the cipher that it selects, and padding
/// behind its length.
pub open spec fn responded_plain(selected: nat, pad: Seq<u8>) -> Seq<u8> {
    eight_zeros() + big_endian_bytes(selected, 4) + big_endian_bytes(pad.len(), 2) + pad
}

/// What a server responds, as it is sent: encrypted from position 1024 of the key stream on.
pub open spec fn responded(share: Seq<u8>, hash: Seq<u8>, selected: nat, pad: Seq<u8>) -> Seq<u8> {
    crypt(
        sha1_digest(text("keyB") + share + hash),
        1024,
        responded_plain(selected, pad),
    )
}

/// What the parts of what a client asks for are.
proof fn lemma_asked_parts(provided: nat, pad: Seq<u8>, first: Seq<u8>)
    requires
        provided < 0x1_0000_0000,
        pad.len() <= PE_MAX_PAD_LEN,
        first.len() <= 0xffff,
    ensures
        ({
            let q = asked_plain(provided, pad, first);
            let n = pad.len() as int;
            &&& q.len() == 16 + n + first.len()
            &&& q.subrange(0, 14).take(8) == verification()
            &&& big_endian(q.subrange(0, 14).subrange(8, 12)) == provided
            &&& big_endian(q.subrange(0, 14).subrange(12, 14)) == n
            &&& big_endian(q.subrange(14 + n, 16 + n)) == first.len()
            &&& q.subrange(16 + n, 16 + n + first.len()) == first
        }),
{
    lemma_small_numbers(provided);
    lemma_small_numbers(pad.len());
    lemma_small_numbers(first.len());
    let q = asked_plain(provided, pad, first);
    let n = pad.len() as int;
    assert(q.subrange(0, 14).take(8) =~= verification());
    assert(q.subrange(0, 14).subrange(8, 12) =~= big_endian_bytes(provided, 4));
    assert(q.subrange(0, 14).subrange(12, 14) =~= big_endian_bytes(pad.len(), 2));
    assert(q.subrange(14 + n, 16 + n) =~= big_endian_bytes(first.len(), 2));
    assert(q.subrange(16 + n, 16 + n + first.len()) =~= first);
}

/// The keys of a server that has read the start of what a client asks for.
spec fn asked_keys(share: Seq<u8>, hash: Seq<u8>, response_pad: Seq<u8>) -> Keys {
    Keys {
        recv_key: sha1_digest(text("keyA") + share + hash),
        recv_at: 1024int + 14,
        send_key: sha1_digest(text("keyB") + share + hash),
        send_at: 1024int + 14 + response_pad.len(),
    }
}

/// The cipher that is selected of those that are provided: the encrypted one where it is
/// among them.
spec fn cipher_of(provided: nat) -> Cipher {
    if provided == 1 {
        Cipher::PlainText
    } else {
        Cipher::Rc4
    }
}

/// The number of that cipher.
pub open spec fn code_of(provided: nat) -> nat {
    if provided == 1 {
        1
    } else {
        2
    }
}

/// What a server responds is what it is to respond.
proof fn lemma_responded(share: Seq<u8>, hash: Seq<u8>, provided: nat, pad: Seq<u8>)
    ensures
        response(share, hash, cipher_of(provided), pad) == responded(
            share,
            hash,
            code_of(provided),
            pad,
        ),
{
    assert(eight_zeros() =~= verification());
}

/// What a server does with the start of what a client asks for: it responds.
proof fn lemma_server_asked_start(
    s: Server,
    share: Seq<u8>,
    hash: Seq<u8>,
    provided: nat,
    pad: Seq<u8>,
    first: Seq<u8>,
    rest: Seq<u8>,
)
    requires
        s.phase == (ServerPhase::Header { share, hash }),
        s.inbox == crypt(
            sha1_digest(text("keyA") + share + hash),
            1024,
            asked_plain(provided, pad, first),
        ) + rest,
        1 <= provided <= 3,
        pad.len() <= PE_MAX_PAD_LEN,
        first.len() <= 0xffff,
    ensures
        s.step() == Some(
            (
                Server {
                    inbox: s.inbox.skip(14),
                    phase: ServerPhase::Padding {
                        cipher: cipher_of(provided),
                        keys: asked_keys(share, hash, s.response_pad),
                        len: pad.len(),
                    },
                    ..s
                },
                responded(share, hash, code_of(provided), s.response_pad),
            ),
        ),
{
    let ka = sha1_digest(text("keyA") + share + hash);
    let plain = asked_plain(provided, pad, first);
    let enc = crypt(ka, 1024, plain);
    lemma_asked_parts(provided, pad, first);
    lemma_decrypt_part(ka, 1024, plain, 0, 14);
    assert(s.inbox.take(14) =~= enc.subrange(0, 14));
    assert(crypt(ka, 1024int + 0, s.inbox.take(14)) == plain.subrange(0, 14));
    lemma_responded(share, hash, provided, s.response_pad);
}

/// What a server does with the rest of what a client asks for: it is done, with the data that
/// the client wanted to say first.
proof fn lemma_server_asked_end(
    s: Server,
    share: Seq<u8>,
    hash: Seq<u8>,
    provided: nat,
    pad: Seq<u8>,
    first: Seq<u8>,
    rest: Seq<u8>,
    enc: Seq<u8>,
)
    requires
        enc == crypt(
            sha1_digest(text("keyA") + share + hash),
            1024,
            asked_plain(provided, pad, first),
        ),
        s.phase == (ServerPhase::Padding {
            cipher: cipher_of(provided),
            keys: asked_keys(share, hash, s.response_pad),
            len: pad.len(),
        }),
        s.inbox == (enc + rest).skip(14),
        1 <= provided <= 3,
        pad.len() <= PE_MAX_PAD_LEN,
        first.len() <= 0xffff,
    ensures
        s.run() == (
            Server {
                inbox: rest,
                phase: ServerPhase::Done {
                    cipher: cipher_of(provided),
                    keys: if provided == 1 {
                        None
                    } else {
                        Some(
                            Keys {
                                recv_at: 1024int + 16 + pad.len() + first.len(),
                                ..asked_keys(share, hash, s.response_pad)
                            },
                        )
                    },
                    payload: first,
                },
                ..s
            },
            Seq::<u8>::empty(),
        ),
{
    let ka = sha1_digest(text("keyA") + share + hash);
    let cipher = cipher_of(provided);
    let plain = asked_plain(provided, pad, first);
    let keys = asked_keys(share, hash, s.response_pad);
    let n = pad.len() as int;
    let none = Seq::<u8>::empty();
    lemma_asked_parts(provided, pad, first);

    let keys1 = Keys { recv_at: 1024int + 14 + n, ..keys };
    let s1 = Server {
        inbox: s.inbox.skip(n),
        phase: ServerPhase::DataLen { cipher, keys: keys1 },
        ..s
    };
    assert(s.step() == Some((s1, none)));

    assert(s1.inbox.take(2) =~= enc.subrange(14 + n, 16 + n));
    lemma_decrypt_part(ka, 1024, plain, 14 + n, 16 + n);
    let keys2 = Keys { recv_at: 1024int + 16 + n, ..keys };
    let s2 = Server {
        inbox: s1.inbox.skip(2),
        phase: ServerPhase::Data { cipher, keys: keys2, len: first.len() },
        ..s
    };
    assert(s1.step() == Some((s2, none)));

    assert(s2.inbox.take(first.len() as int) =~= enc.subrange(16 + n, 16 + n + first.len()));
    lemma_decrypt_part(ka, 1024, plain, 16 + n, 16 + n + first.len());
    assert(s2.inbox.skip(first.len() as int) =~= rest);
    let keys3 = Keys { recv_at: 1024int + 16 + n + first.len(), ..keys };
    let s3 = Server {
        inbox: rest,
        phase: ServerPhase::Done {
            cipher,
            keys: if provided == 1 {
                None
            } else {
                Some(keys3)
            },
            payload: first,
        },
        ..s
    };
    assert(s2.step() == Some((s3, none)));
    assert(s3.run() == (s3, none));
    lemma_server_run(s2, s3, none);
    lemma_server_run(s1, s2, none);
    lemma_server_run(s, s1, none);
    assert(none + none =~= none);
}

/// What a server does with what a client asks for, behind its padding, where it serves the
/// torrent: it selects the encrypted cipher where that is provided, and says so; it is done;
/// what is read from the stream first is what the client wanted to say first, decrypted;
/// and each key stream goes on behind what was used of it. What follows is left. (Digests are
/// 20 bytes long, which holds of every digest that is made.)
pub proof fn law_server_asked(
    s: Server,
    share: Seq<u8>,
    hash: InfoHash,
    before: Seq<u8>,
    provided: nat,
    pad: Seq<u8>,
    first: Seq<u8>,
    rest: Seq<u8>,
)
    requires
        s.phase == (ServerPhase::Sync { share }),
        s.inbox == before + asked(share, hash@, provided, pad, first) + rest,
        before.len() <= 512,
        mark_from(s.inbox, sha1_digest(text("req1") + share), 0) == Some(before.len() as int),
        1 <= provided <= 3,
        pad.len() <= 512,
        first.len() <= 0xffff,
        s.response_pad.len() <= 512,
        select_hash(s.hashes, sha1_digest(text("req2") + hash@)) == Some(hash),
        sha1_digest(text("req1") + share).len() == 20,
        sha1_digest(text("req2") + hash@).len() == 20,
        sha1_digest(text("req3") + share).len() == 20,
    ensures
        s.run() == (
            Server {
                inbox: rest,
                phase: ServerPhase::Done {
                    cipher: if provided == 1 {
                        Cipher::PlainText
                    } else {
                        Cipher::Rc4
                    },
                    keys: if provided == 1 {
                        None
                    } else {
                        Some(
                            Keys {
                                recv_key: sha1_digest(text("keyA") + share + hash@),
                                recv_at: 1024int + 16 + pad.len() + first.len(),
                                send_key: sha1_digest(text("keyB") + share + hash@),
                                send_at: 1024int + 14 + s.response_pad.len(),
                            },
                        )
                    },
                    payload: first,
                },
                ..s
            },
            responded(
                share,
                hash@,
                if provided == 1 {
                    1
                } else {
                    2
                },
                s.response_pad,
            ),
        ),
{
    let hash1 = sha1_digest(text("req1") + share);
    let hash2 = xor(sha1_digest(text("req2") + hash@), sha1_digest(text("req3") + share));
    let enc = crypt(
        sha1_digest(text("keyA") + share + hash@),
        1024,
        asked_plain(provided, pad, first),
    );
    let out = responded(share, hash@, code_of(provided), s.response_pad);
    let none = Seq::<u8>::empty();

    let s1 = Server { inbox: hash2 + enc + rest, phase: ServerPhase::Hash { share }, ..s };
    assert(s.inbox.skip(before.len() as int + 20) =~= hash2 + enc + rest);
    assert(before.len() as usize as int == before.len());
    assert(s.step() == Some((s1, none)));

    lemma_xor_twice(sha1_digest(text("req2") + hash@), sha1_digest(text("req3") + share));
    let s2 = Server { inbox: enc + rest, phase: ServerPhase::Header { share, hash: hash@ }, ..s };
    assert(s1.inbox.take(20) =~= hash2);
    assert(s1.inbox.skip(20) =~= enc + rest);
    assert(s1.step() == Some((s2, none)));

    let s3 = Server {
        inbox: (enc + rest).skip(14),
        phase: ServerPhase::Padding {
            cipher: cipher_of(provided),
            keys: asked_keys(share, hash@, s.response_pad),
            len: pad.len(),
        },
        ..s
    };
    lemma_server_asked_start(s2, share, hash@, provided, pad, first, rest);
    lemma_server_asked_end(s3, share, hash@, provided, pad, first, rest, enc);
    lemma_server_run(s2, s3, out);
    lemma_server_run(s1, s2, none);
    lemma_server_run(s, s1, none);
    assert(none + (none + (out + none)) =~= out);
}

/// The torrent that is asked for is one that is served, and its digest is the one that is
/// looked for; there is none only where no torrent that is served has it.
pub proof fn law_select_hash(hashes: Seq<InfoHash>, digest: Seq<u8>)
    ensures
        match select_hash(hashes, digest) {
            Some(hash) => hashes.contains(hash) && sha1_digest(text("req2") + hash@) == digest,
            None => forall|hash: InfoHash| #[trigger]
                hashes.contains(hash) ==> sha1_digest(text("req2") + hash@) != digest,
        },
    decreases hashes.len(),
{
    if hashes.len() > 0 {
        let rest = hashes.skip(1);
        law_select_hash(rest, digest);
        assert forall|hash: InfoHash| #[trigger]
            hashes.contains(hash) <==> hash == hashes[0] || rest.contains(hash) by {
            if rest.contains(hash) {
                let i = choose|i: int| 0 <= i < rest.len() && rest[i] == hash;
                assert(hashes[i + 1] == hash);
            }
            if hashes.contains(hash) && hash != hashes[0] {
                let i = choose|i: int| 0 <= i < hashes.len() && hashes[i] == hash;
                assert(rest[i - 1] == hash);
            }
        }
    }
}

/// A server that does not serve the torrent that is asked for says nothing more, and fails.
pub proof fn law_server_refuses(
    s: Server,
    share: Seq<u8>,
    before: Seq<u8>,
    hidden: Seq<u8>,
    rest: Seq<u8>,
)
    requires
        s.phase == (ServerPhase::Sync { share }),
        s.inbox == before + sha1_digest(text("req1") + share) + hidden + rest,
        hidden.len() == 20,
        before.len() <= 512,
        mark_from(s.inbox, sha1_digest(text("req1") + share), 0) == Some(before.len() as int),
        sha1_digest(text("req1") + share).len() == 20,
        forall|hash: InfoHash| #[trigger]
            s.hashes.contains(hash) ==> sha1_digest(text("req2") + hash@) != xor(
                hidden,
                sha1_digest(text("req3") + share),
            ),
    ensures
        s.run().0.phase == ServerPhase::Failed(PeError::InfoHashMismatch),
        s.run().1 == Seq::<u8>::empty(),
{
    let none = Seq::<u8>::empty();
    let s1 = Server { inbox: hidden + rest, phase: ServerPhase::Hash { share }, ..s };
    assert(s.inbox.skip(before.len() as int + 20) =~= hidden + rest);
    assert(before.len() as usize as int == before.len());
    assert(s.step() == Some((s1, none)));
    assert(s1.inbox.take(20) =~= hidden);
    law_select_hash(s.hashes, xor(hidden, sha1_digest(text("req3") + share)));
    let s2 = s1.fails(PeError::InfoHashMismatch);
    assert(s1.step() == Some((s2, none)));
    assert(s2.run() == (s2, none));
    lemma_server_run(s1, s2, none);
    lemma_server_run(s, s1, none);
    assert(none + (none + none) =~= none);
}

/// A peer that does not encrypt is passed through: nothing is sent to it, and what is read
/// from the stream, first and then, is what it sent, from the first byte on.
pub proof fn law_server_passes_through(s: Server, rest: Seq<u8>)
    requires
        s.phase == ServerPhase::First,
        s.inbox == seq![19u8] + text("BitTorrent protocol") + rest,
    ensures
        ({
            let (end, out) = s.run();
            &&& out.len() == 0
            &&& end.phase matches ServerPhase::Done { cipher, keys, payload }
            &&& cipher == Cipher::PassThrough
            &&& keys is None
            &&& payload + end.inbox == s.inbox
            &&& payload.len() > 0
        }),
{
    reveal_strlit("BitTorrent protocol");
    assert("BitTorrent protocol".is_ascii());
    assert(text("BitTorrent protocol").len() == 19);
    let head = seq![19u8] + text("BitTorrent protocol");
    assert(s.inbox.take(20) =~= head);
    let none = Seq::<u8>::empty();
    let end = s.step()->Some_0.0;
    assert(s.step() == Some((end, none)));
    assert(end.run() == (end, none));
    lemma_server_run(s, end, none);
    assert(none + none =~= none);
    assert(head + s.inbox.skip(20) =~= s.inbox);
}

/// What either side sends first: its public key in 96 bytes, which stand for a power of two
/// by the prime, and then its padding.
pub proof fn law_key_message(private_key: Seq<u8>, pad: Seq<u8>)
    ensures
        key_message(private_key, pad).len() == 96 + pad.len(),
        big_endian(key_message(private_key, pad).take(96)) == pow(2, big_endian(private_key))
            % prime(),
        key_message(private_key, pad).skip(96) == pad,
{
    law_public_key(private_key);
    let key = key_bytes(public_key(private_key));
    assert(key_message(private_key, pad).take(96) =~= key);
    assert(key_message(private_key, pad).skip(96) =~= pad);
}

/// What a client does with a server's first message, of which the padding holds no mark: it
/// asks for its torrent, provides both ciphers, and says nothing first.
pub proof fn law_client_asks(c: Client, peer_key: Seq<u8>, pad: Seq<u8>)
    requires
        c.phase == ClientPhase::Key,
        c.inbox == peer_key + pad,
        peer_key.len() == 96,
        pad.len() <= 512,
        mark_from(
            pad,
            crypt(
                sha1_digest(text("keyB") + shared_key(c.private_key, peer_key) + c.hash@),
                1024,
                eight_zeros(),
            ),
            0,
        ) is None,
    ensures
        ({
            let share = shared_key(c.private_key, peer_key);
            &&& c.run().1 == asked(share, c.hash@, 3, c.request_pad, Seq::empty())
            &&& c.run().0.phase == (ClientPhase::Sync { share })
            &&& c.run().0.inbox == pad
        }),
{
    let share = shared_key(c.private_key, peer_key);
    assert(eight_zeros() =~= verification());
    lemma_client_first(c, peer_key, pad);
    assert(asked_plain(3, c.request_pad, Seq::empty()) =~= request_plain(c.request_pad));
}

/// What a client does with what a server responds, behind its padding: it is done, with the
/// cipher that the server selected, and each key stream goes on behind what was used of it.
/// What follows is left.
pub proof fn law_client_responded(
    c: Client,
    share: Seq<u8>,
    before: Seq<u8>,
    selected: nat,
    pad: Seq<u8>,
    rest: Seq<u8>,
)
    requires
        c.phase == (ClientPhase::Sync { share }),
        c.inbox == before + responded(share, c.hash@, selected, pad) + rest,
        before.len() <= 512,
        pad.len() <= 512,
        selected == 1 || selected == 2,
        mark_from(
            c.inbox,
            crypt(sha1_digest(text("keyB") + share + c.hash@), 1024, eight_zeros()),
            0,
        ) == Some(before.len() as int),
    ensures
        c.run() == (
            Client {
                inbox: rest,
                phase: ClientPhase::Done {
                    cipher: if selected == 1 {
                        Cipher::PlainText
                    } else {
                        Cipher::Rc4
                    },
                    keys: if selected == 1 {
                        None
                    } else {
                        Some(
                            Keys {
                                recv_key: sha1_digest(text("keyB") + share + c.hash@),
                                recv_at: 1024int + 14 + pad.len(),
                                send_key: sha1_digest(text("keyA") + share + c.hash@),
                                send_at: 1024int + 16 + c.request_pad.len(),
                            },
                        )
                    },
                },
                ..c
            },
            Seq::<u8>::empty(),
        ),
{
    let kb = sha1_digest(text("keyB") + share + c.hash@);
    let plain = responded_plain(selected, pad);
    let enc = crypt(kb, 1024, plain);
    let n = pad.len() as int;
    let none = Seq::<u8>::empty();
    let cipher = if selected == 1 {
        Cipher::PlainText
    } else {
        Cipher::Rc4
    };
    assert(eight_zeros() =~= verification());
    lemma_small_numbers(selected);
    lemma_small_numbers(pad.len());
    assert(plain.len() == 14 + n);
    assert(plain.subrange(8, 14).subrange(0, 4) =~= big_endian_bytes(selected, 4));
    assert(plain.subrange(8, 14).subrange(4, 6) =~= big_endian_bytes(pad.len(), 2));

    let c1 = Client { inbox: enc.skip(8) + rest, phase: ClientPhase::Header { share }, ..c };
    assert(c.inbox.skip(before.len() as int + 8) =~= enc.skip(8) + rest);
    assert(before.len() as usize as int == before.len());
    assert(c.step() == Some((c1, none)));

    lemma_decrypt_part(kb, 1024, plain, 8, 14);
    assert(c1.inbox.take(6) =~= enc.subrange(8, 14));
    let keys = Keys {
        recv_key: kb,
        recv_at: 1024int + 14,
        send_key: sha1_digest(text("keyA") + share + c.hash@),
        send_at: 1024int + 16 + c.request_pad.len(),
    };
    let c2 = Client {
        inbox: c1.inbox.skip(6),
        phase: ClientPhase::Padding { cipher, keys, len: pad.len() },
        ..c
    };
    assert(c1.step() == Some((c2, none)));

    assert(c2.inbox.skip(n) =~= rest);
    let keys3 = Keys { recv_at: 1024int + 14 + n, ..keys };
    let c3 = Client {
        inbox: rest,
        phase: ClientPhase::Done {
            cipher,
            keys: if selected == 1 {
                None
            } else {
                Some(keys3)
            },
        },
        ..c
    };
    assert(c2.step() == Some((c3, none)));
    assert(c3.run() == (c3, none));
    assert(c2.run().1 =~= none);
    assert(c1.run().1 =~= none);
    assert(c.run().1 =~= none);
}

/// A mark is found at the first place where it stands, and not found where it stands nowhere.
pub proof fn law_mark(s: Seq<u8>, mark: Seq<u8>, i: int)
    requires
        0 <= i,
        mark.len() > 0,
    ensures
        match mark_from(s, mark, i) {
            Some(k) => {
                &&& i <= k <= s.len() - mark.len()
                &&& s.subrange(k, k + mark.len()) == mark
                &&& forall|j: int|
                    i <= j < k ==> #[trigger] s.subrange(j, j + mark.len()) != mark
            },
            None => forall|j: int|
                i <= j <= s.len() - mark.len() ==> #[trigger] s.subrange(j, j + mark.len()) != mark,
        },
    decreases s.len() - i,
{
    if i + mark.len() <= s.len() && s.subrange(i, i + mark.len()) != mark {
        law_mark(s, mark, i + 1);
    }
}

/// Looking for a mark gives its first place, gives up once as much has come as is enough, and
/// waits else.
pub proof fn law_synced(s: Seq<u8>, mark: Seq<u8>, max: int)
    requires
        mark.len() > 0,
        s.len() <= usize::MAX,
    ensures
        match synced(s, mark, max) {
            Sync::Found(k) => {
                &&& 0 <= k <= s.len() - mark.len()
                &&& s.subrange(k as int, k + mark.len()) == mark
                &&& forall|j: int|
                    0 <= j < k ==> #[trigger] s.subrange(j, j + mark.len()) != mark
            },
            Sync::Failed => s.len() >= max && forall|j: int|
                0 <= j <= s.len() - mark.len() ==> #[trigger] s.subrange(j, j + mark.len()) != mark,
            Sync::More => s.len() < max && forall|j: int|
                0 <= j <= s.len() - mark.len() ==> #[trigger] s.subrange(j, j + mark.len()) != mark,
        },
{
    law_mark(s, mark, 0);
}

/// What a server does with a client's first message, of which the padding holds no mark, where
/// it does not start as that of a peer that does not encrypt: it sends its public key and its
/// padding, and shares a secret with the client.
pub proof fn law_server_answers(s: Server, peer_key: Seq<u8>, pad: Seq<u8>)
    requires
        s.phase == ServerPhase::First,
        s.inbox == peer_key + pad,
        peer_key.len() == 96,
        s.inbox.take(20) != seq![19u8] + text("BitTorrent protocol"),
        pad.len() <= 512,
        mark_from(
            pad,
            sha1_digest(text("req1") + shared_key(s.private_key, peer_key)),
            0,
        ) is None,
    ensures
        s.run().1.len() == 96 + s.key_pad.len(),
        big_endian(s.run().1.take(96)) == pow(2, big_endian(s.private_key)) % prime(),
        s.run().1.skip(96) == s.key_pad,
        s.run().0.phase == (ServerPhase::Sync { share: shared_key(s.private_key, peer_key) }),
        s.run().0.inbox == pad,
{
    lemma_server_first(s, peer_key, pad);
    law_key_message(s.private_key, s.key_pad);
}

/// A server fails where the verification is wrong, or no cipher that it knows is provided, and
/// then says nothing; where the padding is too long it fails as well.
pub proof fn law_server_header(
    s: Server,
    share: Seq<u8>,
    hash: Seq<u8>,
    plain: Seq<u8>,
    rest: Seq<u8>,
)
    requires
        s.phase == (ServerPhase::Header { share, hash }),
        s.inbox == crypt(sha1_digest(text("keyA") + share + hash), 1024, plain) + rest,
        plain.len() == 14,
    ensures
        plain.take(8) != eight_zeros() || !(1 <= big_endian(plain.subrange(8, 12)) <= 3)
            ==> s.run().0.phase == ServerPhase::Failed(PeError::HanshakeFailed) && s.run().1.len()
            == 0,
        big_endian(plain.subrange(12, 14)) > 512 ==> s.run().0.phase == ServerPhase::Failed(
            PeError::HanshakeFailed,
        ),
        s.run().0.phase is Failed ==> plain.take(8) != eight_zeros() || !(1 <= big_endian(
            plain.subrange(8, 12),
        ) <= 3) || big_endian(plain.subrange(12, 14)) > 512,
{
    let key = sha1_digest(text("keyA") + share + hash);
    let enc = crypt(key, 1024, plain);
    assert(eight_zeros() =~= verification());
    assert(s.inbox.take(14) =~= enc);
    law_crypt_round_trip(key, 1024, plain);
    let (next, out) = s.step()->Some_0;
    assert(s.step() == Some((next, out)));
    lemma_server_run(s, next, out);
    if next.phase is Failed {
        assert(next.run() == (next, Seq::<u8>::empty()));
        assert(out + Seq::<u8>::empty() =~= out);
    } else {
        lemma_never_fails(next);
    }
}

/// A server that waits for padding or for data does not fail any more.
proof fn lemma_never_fails(s: Server)
    requires
        s.phase is Padding || s.phase is DataLen || s.phase is Data || s.phase is Done,
    ensures
        !(s.run().0.phase is Failed),
    decreases s.rank(),
{
    match s.step() {
        Some((next, _)) => {
            lemma_never_fails(next);
        },
        None => {},
    }
}

/// A client fails where the server selects another cipher than one of the two, or too long a
/// padding, and nowhere else behind the mark.
pub proof fn law_client_header(c: Client, share: Seq<u8>, plain: Seq<u8>, rest: Seq<u8>)
    requires
        c.phase == (ClientPhase::Header { share }),
        c.inbox == crypt(sha1_digest(text("keyB") + share + c.hash@), 1032, plain) + rest,
        plain.len() == 6,
    ensures
        c.run().0.phase is Failed <==> !(1 <= big_endian(plain.subrange(0, 4)) <= 2) || big_endian(
            plain.subrange(4, 6),
        ) > 512,
        c.run().0.phase is Failed ==> c.run().0.phase == ClientPhase::Failed(
            PeError::HanshakeFailed,
        ),
        c.run().1.len() == 0,
{
    let key = sha1_digest(text("keyB") + share + c.hash@);
    let enc = crypt(key, 1032, plain);
    assert(c.inbox.take(6) =~= enc);
    law_crypt_round_trip(key, 1032, plain);
    let (next, out) = c.step()->Some_0;
    assert(c.step() == Some((next, out)));
    assert(next.phase is Failed || next.phase is Padding);
    match next.step() {
        Some((end, _)) => {
            assert(end.step() is None);
            assert(end.run() == (end, Seq::<u8>::empty()));
            assert(next.run().0 == end);
        },
        None => {},
    }
}

/// Either side gives up once as much has come without the mark as the longest padding and the
/// mark can be, and not before.
pub proof fn law_gives_up(s: Server, c: Client, share: Seq<u8>)
    ensures
        s.phase == (ServerPhase::Sync { share }) && mark_from(
            s.inbox,
            sha1_digest(text("req1") + share),
            0,
        ) is None ==> {
            &&& s.inbox.len() >= 532 ==> s.run().0.phase == ServerPhase::Failed(
                PeError::HanshakeFailed,
            )
            &&& s.inbox.len() < 532 ==> s.run().0 == s
            &&& s.run().1.len() == 0
        },
        c.phase == (ClientPhase::Sync { share }) && mark_from(
            c.inbox,
            crypt(sha1_digest(text("keyB") + share + c.hash@), 1024, eight_zeros()),
            0,
        ) is None ==> {
            &&& c.inbox.len() >= 520 ==> c.run().0.phase == ClientPhase::Failed(
                PeError::HanshakeFailed,
            )
            &&& c.inbox.len() < 520 ==> c.run().0 == c
            &&& c.run().1.len() == 0
        },
{
    assert(eight_zeros() =~= verification());
    let none = Seq::<u8>::empty();
    let failed = s.fails(PeError::HanshakeFailed);
    assert(failed.run() == (failed, none));
    let gone = c.fails(PeError::HanshakeFailed);
    assert(gone.run() == (gone, none));
    assert(none + none =~= none);
}

} // verus!

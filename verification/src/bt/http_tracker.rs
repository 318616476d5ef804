//! Trackers over HTTP.

use super::tracker::{AnnounceInfo, AnnounceResult, Event, Failure, ScrapedItem, TrackerError};
use crate::bencode::fields::{field, int_field, str_field};
use crate::bencode::object::views;
use crate::bencode::value::{decode, Value};
use crate::bencode::Object;
use crate::bytes::{sub_slice, text};
use crate::kad::addr::SocketAddr;
use super::udp_tracker::{peers_bytes, plain_peers};
use crate::kad::compact::{
    compact_ip, law_compact_round_trip, law_parsed_compact, lemma_compact_len, parse_ip,
    parse_your_ip, parsed_ip, parsed_your_ip,
};
use crate::kad::nodeid::{InfoHash, NodeId};
use crate::random::random_u32;
use crate::strings::{lossy_text, number_string, number_text, string_from_utf8_lossy};
use vstd::prelude::*;
use vstd::string::{StrSliceExecFns, StringExecFns};

verus! {

/// Whether a byte stands for itself in a URL: a letter, a digit, or one of `-`, `_`, `.`
/// and `~`.
pub open spec fn unreserved(b: u8) -> bool {
    ||| '0' as u8 <= b <= '9' as u8
    ||| 'A' as u8 <= b <= 'Z' as u8
    ||| 'a' as u8 <= b <= 'z' as u8
    ||| b == '-' as u8
    ||| b == '_' as u8
    ||| b == '.' as u8
    ||| b == '~' as u8
}

/// A hexadecimal digit.
pub open spec fn upper_hex_digit(n: int) -> char {
    if n < 10 {
        ('0' as u8 + n) as char
    } else {
        ('A' as u8 + n - 10) as char
    }
}

/// How bytes are written in a URL: those that do not stand for themselves as `%` and two
/// hexadecimal digits.
pub open spec fn percent_encoded(s: Seq<u8>) -> Seq<char>
    decreases s.len(),
{
    if s.len() == 0 {
        seq![]
    } else {
        let b = s.last();
        percent_encoded(s.drop_last()) + (if unreserved(b) {
            seq![b as char]
        } else {
            seq!['%', upper_hex_digit(b as int / 16), upper_hex_digit(b as int % 16)]
        })
    }
}

/// How bytes are written in a URL, from `urlencoding::encode_binary`: letters, digits,
/// `-`, `_`, `.` and `~` as they are, every other byte as `%` and two hexadecimal digits
/// in upper case.
#[verifier::external_body]
pub(crate) fn encode_binary(data: &[u8]) -> (r: String)
    ensures
        r@ == percent_encoded(data@),
{
    urlencoding::encode_binary(data).into_owned()
}

/// The scheme of the URL that `url::Url::parse` makes of a text, and that URL as a text
/// again; nothing where the text is no URL.
pub uninterp spec fn url_parts(text: Seq<char>) -> Option<(Seq<char>, Seq<char>)>;

/// Parses a URL by `url::Url::parse`, and takes its scheme and its text from it: they
/// depend on the given text alone.
#[verifier::external_body]
pub(crate) fn parse_url(text: &str) -> (r: Option<(String, String)>)
    ensures
        match r {
            Some((scheme, url)) => url_parts(text@) == Some((scheme@, url@)),
            None => url_parts(text@) is None,
        },
{
    match url::Url::parse(text) {
        Ok(url) => Some((url.scheme().to_owned(), url.as_str().to_owned())),
        Err(_) => None,
    }
}

/// The URL of a tracker.
#[derive(Debug, PartialEq, Eq)]
pub struct TrackerUrl {
    pub scheme: String,
    pub text: String,
}

impl Clone for TrackerUrl {
    fn clone(&self) -> (r: TrackerUrl)
        ensures
            r == *self,
    {
        TrackerUrl { scheme: self.scheme.clone(), text: self.text.clone() }
    }
}

impl TrackerUrl {
    /// The URL that a text is, where it is one.
    pub fn parse(text: &str) -> (r: Option<TrackerUrl>)
        ensures
            match r {
                Some(url) => url_parts(text@) == Some((url.scheme@, url.text@)),
                None => url_parts(text@) is None,
            },
    {
        match parse_url(text) {
            Some((scheme, text)) => Some(TrackerUrl { scheme, text }),
            None => None,
        }
    }

    /// Whether the tracker is one over HTTP.
    pub fn is_http(&self) -> (r: bool)
        ensures
            r == http_scheme(self.scheme@),
    {
        self.scheme == String::from_str("http") || self.scheme == String::from_str("https")
    }
}

/// Whether a scheme is one of HTTP.
pub open spec fn http_scheme(scheme: Seq<char>) -> bool {
    scheme == "http"@ || scheme == "https"@
}

/// The text for an event.
pub open spec fn event_text(event: Event) -> Seq<char> {
    match event {
        Event::Started => "started"@,
        Event::Stopped => "stopped"@,
        Event::Completed => "completed"@,
        Event::Empty => "empty"@,
    }
}

/// The URL that announces a peer.
pub open spec fn announce_text(url: Seq<char>, info: AnnounceInfo, key: u32) -> Seq<char> {
    url + "?info_hash="@ + percent_encoded(info.hash@) + "&peer_id="@ + percent_encoded(
        info.peer_id@,
    ) + "&port="@ + number_text(info.port as u64) + "&uploaded="@ + number_text(info.uploaded)
        + "&downloaded="@ + number_text(info.downloaded) + "&left="@ + number_text(info.left)
        + "&event="@ + event_text(info.event) + "&compact=1&key="@ + number_text(key as u64)
}

/// Whether a text stands at a place of another.
pub open spec fn stands_at(s: Seq<char>, at: int, part: Seq<char>) -> bool {
    0 <= at && at + part.len() <= s.len() && s.subrange(at, at + part.len()) == part
}

/// A text from a place on, in which `to` stands for each `from`, found from the left.
pub open spec fn replaced_from(s: Seq<char>, at: int, from: Seq<char>, to: Seq<char>) -> Seq<char>
    decreases s.len() - at,
{
    if at < 0 || at >= s.len() || from.len() == 0 {
        seq![]
    } else if stands_at(s, at, from) {
        to + replaced_from(s, at + from.len(), from, to)
    } else {
        seq![s[at]] + replaced_from(s, at + 1, from, to)
    }
}

/// A text in which `to` stands for each `from`, found from the left.
pub fn replace(s: &str, from: &str, to: &str) -> (r: String)
    requires
        from@.len() > 0,
    ensures
        r@ == replaced_from(s@, 0, from@, to@),
{
    let mut r = String::new();
    let n: usize = s.unicode_len();
    let m: usize = from.unicode_len();
    let mut at: usize = 0;
    while at < n
        invariant
            n == s@.len(),
            m == from@.len(),
            m > 0,
            at <= n,
            r@ + replaced_from(s@, at as int, from@, to@) == replaced_from(s@, 0, from@, to@),
        decreases n - at,
    {
        let ghost before = r@;
        if m <= n - at && String::from_str(s.substring_char(at, at + m)) == String::from_str(from) {
            r.append(to);
            proof {
                assert(stands_at(s@, at as int, from@));
                assert(before + (to@ + replaced_from(s@, at + m, from@, to@)) =~= r@
                    + replaced_from(s@, at + m, from@, to@));
            }
            at += m;
        } else {
            r.append(s.substring_char(at, at + 1));
            proof {
                assert(!stands_at(s@, at as int, from@));
                assert(s@.subrange(at as int, at + 1) =~= seq![s@[at as int]]);
                assert(before + (seq![s@[at as int]] + replaced_from(s@, at + 1, from@, to@))
                    =~= r@ + replaced_from(s@, at + 1, from@, to@));
            }
            at += 1;
        }
    }
    assert(r@ + replaced_from(s@, at as int, from@, to@) =~= r@);
    r
}

/// The part of a URL that asks for torrents.
pub open spec fn hashes_text(hashes: Seq<InfoHash>) -> Seq<char>
    decreases hashes.len(),
{
    if hashes.len() == 0 {
        seq![]
    } else {
        hashes_text(hashes.drop_last()) + (if hashes.len() == 1 {
            "?info_hash="@
        } else {
            "&info_hash="@
        }) + percent_encoded(hashes.last()@)
    }
}

/// The URL that asks for torrents.
pub open spec fn scrape_text(url: Seq<char>, hashes: Seq<InfoHash>) -> Seq<char> {
    replaced_from(url, 0, "announce"@, "scrape"@) + hashes_text(hashes)
}

/// The number under a key, where it is one of 32 bits.
pub open spec fn count_field(v: Value, key: Seq<u8>) -> Option<u32> {
    match int_field(v, key) {
        Some(i) => if 0 <= i <= u32::MAX {
            Some(i as u32)
        } else {
            None
        },
        None => None,
    }
}

/// The number under a key, where it is one of 32 bits.
fn count_of(object: &Object, key: &str) -> (r: Option<u32>)
    ensures
        r == count_field(object@, text(key)),
{
    match object.int_field(key) {
        Some(i) => {
            if i < 0 || i > 0xffff_ffff {
                return None;
            }
            Some(i as u32)
        },
        None => None,
    }
}

/// Why a tracker refused, where it did.
pub open spec fn failure_reason(v: Value) -> Option<Seq<char>> {
    match str_field(v, text("failure reason")) {
        Some(reason) => Some(lossy_text(reason)),
        None => None,
    }
}

/// Checks that a tracker did not refuse.
pub fn check_failure(object: &Object) -> (r: Result<(), TrackerError>)
    ensures
        match r {
            Ok(()) => failure_reason(object@) is None,
            Err(e) => failure_reason(object@) matches Some(reason) && e@ == Failure::Error(reason),
        },
{
    match object.str_field("failure reason") {
        Some(reason) => Err(TrackerError::Error(string_from_utf8_lossy(reason.as_slice()))),
        None => Ok(()),
    }
}

/// How long the first piece is when data is cut into pieces of a size.
pub open spec fn piece_len(s: Seq<u8>, size: nat) -> int {
    if s.len() < size {
        s.len() as int
    } else {
        size as int
    }
}

/// The peers in a compact list that is cut into pieces of a size.
pub open spec fn compact_peers(s: Seq<u8>, size: nat) -> Option<Seq<SocketAddr>>
    decreases s.len(),
{
    if s.len() == 0 || size == 0 {
        Some(seq![])
    } else {
        let n = piece_len(s, size);
        match (parsed_ip(s.take(n)), compact_peers(s.skip(n), size)) {
            (Some(peer), Some(rest)) => Some(seq![peer] + rest),
            _ => None,
        }
    }
}

/// A peer in a list of dictionaries.
pub open spec fn listed_peer(v: Value) -> Option<SocketAddr> {
    match (
        str_field(v, text("peer id")),
        str_field(v, text("ip")),
        int_field(v, text("port")),
    ) {
        (Some(_), Some(ip), Some(port)) => match parsed_your_ip(ip) {
            Some(ip) => if 0 <= port <= u16::MAX {
                Some(SocketAddr::spec_new(ip, port as u16))
            } else {
                None
            },
            None => None,
        },
        _ => None,
    }
}

/// The peers in a list of dictionaries.
pub open spec fn listed_peers(l: Seq<Value>) -> Option<Seq<SocketAddr>>
    decreases l.len(),
{
    if l.len() == 0 {
        Some(seq![])
    } else {
        match (listed_peers(l.drop_last()), listed_peer(l.last())) {
            (Some(front), Some(peer)) => Some(front.push(peer)),
            _ => None,
        }
    }
}

/// The peers that a value holds: a compact list or a list of dictionaries.
pub open spec fn peers_view(v: Value, size: nat) -> Option<Seq<SocketAddr>> {
    match v {
        Value::Str(s) => compact_peers(s, size),
        Value::List(l) => listed_peers(l),
        _ => None,
    }
}

/// A peer in a list of dictionaries.
fn parse_listed_peer(item: &Object) -> (r: Option<SocketAddr>)
    ensures
        r == listed_peer(item@),
{
    match (item.str_field("peer id"), item.str_field("ip"), item.int_field("port")) {
        (Some(_), Some(ip), Some(port)) => {
            if port < 0 || port > 0xffff {
                return None;
            }
            match parse_your_ip(ip.as_slice()) {
                Some(ip) => Some(SocketAddr::new(ip, port as u16)),
                None => None,
            }
        },
        _ => None,
    }
}

/// A list of dictionaries one of which holds no peer holds no list of peers.
proof fn lemma_listed_none(l: Seq<Value>, i: int)
    requires
        0 <= i < l.len(),
        listed_peer(l[i]) is None,
    ensures
        listed_peers(l) is None,
    decreases l.len(),
{
    if i < l.len() - 1 {
        lemma_listed_none(l.drop_last(), i);
    }
}

/// The peers that an object holds: a compact list that is cut into pieces of a size, or a
/// list of dictionaries.
pub fn parse_peers(peers: &Object, chunk_size: usize) -> (r: Result<Vec<SocketAddr>, TrackerError>)
    requires
        chunk_size > 0,
    ensures
        match r {
            Ok(list) => peers_view(peers@, chunk_size as nat) == Some(list@),
            Err(e) => peers_view(peers@, chunk_size as nat) is None && e
                == TrackerError::InvalidReply,
        },
{
    broadcast use Object::lemma_view;

    let mut out: Vec<SocketAddr> = Vec::new();
    match peers {
        Object::String(s) => {
            let mut at: usize = 0;
            assert(s@.skip(0) =~= s@);
            while at < s.len()
                invariant
                    chunk_size > 0,
                    peers@ == Value::Str(s@),
                    at <= s@.len(),
                    match compact_peers(s@.skip(at as int), chunk_size as nat) {
                        Some(rest) => compact_peers(s@, chunk_size as nat) == Some(out@ + rest),
                        None => compact_peers(s@, chunk_size as nat) is None,
                    },
                decreases s@.len() - at,
            {
                let n: usize = if s.len() - at < chunk_size {
                    s.len() - at
                } else {
                    chunk_size
                };
                let ghost here = s@.skip(at as int);
                let ghost before = out@;
                assert(n == piece_len(here, chunk_size as nat));
                assert(s@.subrange(at as int, at + n) =~= here.take(n as int));
                assert(here.skip(n as int) =~= s@.skip(at + n));
                match parse_ip(sub_slice(s.as_slice(), at, at + n)) {
                    Some(peer) => {
                        out.push(peer);
                        proof {
                            if let Some(rest) = compact_peers(
                                s@.skip(at + n),
                                chunk_size as nat,
                            ) {
                                assert(before + (seq![peer] + rest) =~= out@ + rest);
                            }
                        }
                    },
                    None => {
                        return Err(TrackerError::InvalidReply);
                    },
                }
                at += n;
            }
            assert(compact_peers(s@.skip(at as int), chunk_size as nat) == Some(
                Seq::<SocketAddr>::empty(),
            ));
            assert(out@ + Seq::<SocketAddr>::empty() =~= out@);
        },
        Object::List(list) => {
            let mut i: usize = 0;
            while i < list.len()
                invariant
                    i <= list@.len(),
                    peers@ == Value::List(views(list@)),
                    listed_peers(views(list@).take(i as int)) == Some(out@),
                decreases list@.len() - i,
            {
                proof {
                    assert(views(list@).take(i + 1).drop_last() =~= views(list@).take(i as int));
                }
                match parse_listed_peer(&list[i]) {
                    Some(peer) => {
                        out.push(peer);
                    },
                    None => {
                        proof {
                            lemma_listed_none(views(list@), i as int);
                        }
                        return Err(TrackerError::InvalidReply);
                    },
                }
                i += 1;
            }
            assert(views(list@).take(i as int) =~= views(list@));
        },
        _ => {
            return Err(TrackerError::InvalidReply);
        },
    }
    Ok(out)
}

/// What the reply to an announcement says.
pub struct Announced {
    pub interval: u32,
    pub peers: Seq<SocketAddr>,
    pub seeders: Option<u32>,
    pub leechers: Option<u32>,
    pub completed: Option<u32>,
    pub external_ip: Option<SocketAddr>,
}

impl View for AnnounceResult {
    type V = Announced;

    open spec fn view(&self) -> Announced {
        Announced {
            interval: self.interval,
            peers: self.peers@,
            seeders: self.seeders,
            leechers: self.leechers,
            completed: self.completed,
            external_ip: self.external_ip,
        }
    }
}

/// The peers under a key: none where there is nothing.
pub open spec fn peers_field(v: Value, key: Seq<u8>, size: nat) -> Option<Seq<SocketAddr>> {
    match field(v, key) {
        Some(peers) => peers_view(peers, size),
        None => Some(seq![]),
    }
}

/// What the reply to an announcement says, where it is a value that is no refusal.
pub open spec fn announced(v: Value) -> Option<Announced> {
    match (
        count_field(v, text("interval")),
        peers_field(v, text("peers"), 6),
        peers_field(v, text("peers6"), 18),
    ) {
        (Some(interval), Some(peers), Some(peers6)) => if field(v, text("peers")) is None && field(
            v,
            text("peers6"),
        ) is None {
            None
        } else {
            Some(
                Announced {
                    interval,
                    peers: peers + peers6,
                    seeders: count_field(v, text("complete")),
                    leechers: count_field(v, text("incomplete")),
                    completed: count_field(v, text("downloaded")),
                    external_ip: match str_field(v, text("external ip")) {
                        Some(s) => parsed_ip(s),
                        None => None,
                    },
                },
            )
        },
        _ => None,
    }
}

/// The value that a reply is.
pub open spec fn reply_value(reply: Seq<u8>) -> Option<Value> {
    match decode(reply) {
        Some((v, rest)) => if rest.len() == 0 {
            Some(v)
        } else {
            None
        },
        None => None,
    }
}

/// What comes of the reply to an announcement.
pub open spec fn announce_outcome(reply: Seq<u8>) -> Result<Announced, Failure> {
    match reply_value(reply) {
        Some(v) => match failure_reason(v) {
            Some(reason) => Err(Failure::Error(reason)),
            None => match announced(v) {
                Some(result) => Ok(result),
                None => Err(Failure::InvalidReply),
            },
        },
        None => Err(Failure::InvalidReply),
    }
}

/// What a tracker knows of a torrent.
pub open spec fn scraped_item(v: Value) -> Option<ScrapedItem> {
    match (
        count_field(v, text("complete")),
        count_field(v, text("incomplete")),
        count_field(v, text("downloaded")),
    ) {
        (Some(seeders), Some(leechers), Some(completed)) => Some(
            ScrapedItem { seeders, leechers, completed },
        ),
        _ => None,
    }
}

/// What a tracker knows of torrents, in the order of their hashes.
pub open spec fn scraped_files(d: Seq<(Seq<u8>, Value)>) -> Option<Seq<(Seq<u8>, ScrapedItem)>>
    decreases d.len(),
{
    if d.len() == 0 {
        Some(seq![])
    } else {
        match (scraped_files(d.drop_last()), scraped_item(d.last().1)) {
            (Some(front), Some(item)) => if d.last().0.len() == 20 {
                Some(front.push((d.last().0, item)))
            } else {
                None
            },
            _ => None,
        }
    }
}

/// What comes of the reply on torrents.
pub open spec fn scrape_outcome(reply: Seq<u8>) -> Result<Seq<(Seq<u8>, ScrapedItem)>, Failure> {
    match reply_value(reply) {
        Some(v) => match failure_reason(v) {
            Some(reason) => Err(Failure::Error(reason)),
            None => match field(v, text("files")) {
                Some(Value::Dict(d)) => match scraped_files(d) {
                    Some(files) => Ok(files),
                    None => Err(Failure::InvalidReply),
                },
                _ => Err(Failure::InvalidReply),
            },
        },
        None => Err(Failure::InvalidReply),
    }
}

/// Torrents by the bytes of their hashes.
pub open spec fn scraped_views(items: Seq<(InfoHash, ScrapedItem)>) -> Seq<(Seq<u8>, ScrapedItem)> {
    Seq::new(items.len(), |i: int| (items[i].0@, items[i].1))
}

/// A list in which an entry is wrong holds no list of torrents.
proof fn lemma_scraped_none(d: Seq<(Seq<u8>, Value)>, i: int)
    requires
        0 <= i < d.len(),
        scraped_item(d[i].1) is None || d[i].0.len() != 20,
    ensures
        scraped_files(d) is None,
    decreases d.len(),
{
    if i < d.len() - 1 {
        lemma_scraped_none(d.drop_last(), i);
    }
}

/// A tracker over HTTP.
#[derive(Debug)]
pub struct HttpTracker {
    url: TrackerUrl,
    key: u32,
}

impl Clone for HttpTracker {
    fn clone(&self) -> (r: HttpTracker)
        ensures
            r == *self,
    {
        HttpTracker { url: self.url.clone(), key: self.key }
    }
}

impl HttpTracker {
    /// The URL of the tracker.
    pub closed spec fn spec_url(&self) -> TrackerUrl {
        self.url
    }

    /// The number by which the tracker knows this client.
    pub closed spec fn key(&self) -> u32 {
        self.key
    }

    /// The tracker with a URL, where its scheme is one of HTTP; its key is random.
    pub fn new(url: &TrackerUrl) -> (r: Option<HttpTracker>)
        ensures
            match r {
                Some(tracker) => http_scheme(url.scheme@) && tracker.spec_url() == *url,
                None => !http_scheme(url.scheme@),
            },
    {
        HttpTracker::with_key(url, random_u32())
    }

    /// The tracker with a URL and a key, where the scheme is one of HTTP.
    pub fn with_key(url: &TrackerUrl, key: u32) -> (r: Option<HttpTracker>)
        ensures
            match r {
                Some(tracker) => http_scheme(url.scheme@) && tracker.spec_url() == *url
                    && tracker.key() == key,
                None => !http_scheme(url.scheme@),
            },
    {
        if !url.is_http() {
            return None;
        }
        Some(HttpTracker { url: url.clone(), key })
    }

    /// The URL of the tracker.
    pub fn url(&self) -> (r: &TrackerUrl)
        ensures
            *r == self.spec_url(),
    {
        &self.url
    }

    /// The URL that announces a peer.
    pub fn announce_url(&self, info: &AnnounceInfo) -> (r: String)
        ensures
            r@ == announce_text(self.spec_url().text@, *info, self.key()),
    {
        let event: &str = match info.event {
            Event::Started => "started",
            Event::Stopped => "stopped",
            Event::Completed => "completed",
            Event::Empty => "empty",
        };
        let mut url = self.url.text.clone();
        url.append("?info_hash=");
        url.append(encode_binary(info.hash.as_slice()).as_str());
        url.append("&peer_id=");
        url.append(encode_binary(info.peer_id.as_slice()).as_str());
        url.append("&port=");
        url.append(number_string(info.port as u64).as_str());
        url.append("&uploaded=");
        url.append(number_string(info.uploaded).as_str());
        url.append("&downloaded=");
        url.append(number_string(info.downloaded).as_str());
        url.append("&left=");
        url.append(number_string(info.left).as_str());
        url.append("&event=");
        url.append(event);
        url.append("&compact=1&key=");
        url.append(number_string(self.key as u64).as_str());
        url
    }

    /// What the reply to an announcement says.
    pub fn announce(reply: &[u8]) -> (r: Result<AnnounceResult, TrackerError>)
        ensures
            match (r, announce_outcome(reply@)) {
                (Ok(result), Ok(announced)) => result@ == announced,
                (Err(e), Err(failure)) => e@ == failure,
                _ => false,
            },
    {
        let object = match Object::parse(reply) {
            Some(object) => object,
            None => {
                return Err(TrackerError::InvalidReply);
            },
        };
        match check_failure(&object) {
            Ok(()) => {},
            Err(e) => {
                return Err(e);
            },
        }
        let interval: u32 = match count_of(&object, "interval") {
            Some(interval) => interval,
            None => {
                return Err(TrackerError::InvalidReply);
            },
        };
        let mut peers: Vec<SocketAddr> = Vec::new();
        let mut has_peers_field: bool = false;
        if let Some(value) = object.field("peers") {
            peers = match parse_peers(value, 6) {
                Ok(list) => list,
                Err(e) => {
                    return Err(e);
                },
            };
            has_peers_field = true;
        }
        let ghost first = peers@;
        if let Some(value) = object.field("peers6") {
            let mut list: Vec<SocketAddr> = match parse_peers(value, 18) {
                Ok(list) => list,
                Err(e) => {
                    return Err(e);
                },
            };
            peers.append(&mut list);
            has_peers_field = true;
        } else {
            assert(first + Seq::<SocketAddr>::empty() =~= first);
        }
        if !has_peers_field {
            return Err(TrackerError::InvalidReply);
        }
        let external_ip: Option<SocketAddr> = match object.str_field("external ip") {
            Some(s) => parse_ip(s.as_slice()),
            None => None,
        };
        Ok(
            AnnounceResult {
                interval,
                peers,
                seeders: count_of(&object, "complete"),
                leechers: count_of(&object, "incomplete"),
                completed: count_of(&object, "downloaded"),
                external_ip,
            },
        )
    }

    /// The URL that asks for torrents.
    pub fn scrape_url(&self, hashes: &[InfoHash]) -> (r: String)
        ensures
            r@ == scrape_text(self.spec_url().text@, hashes@),
    {
        proof {
            reveal_strlit("announce");
        }
        let mut url = replace(self.url.text.as_str(), "announce", "scrape");
        let ghost base = url@;
        let mut i: usize = 0;
        while i < hashes.len()
            invariant
                i <= hashes@.len(),
                url@ == base + hashes_text(hashes@.take(i as int)),
            decreases hashes@.len() - i,
        {
            let ghost done = hashes_text(hashes@.take(i as int));
            if i == 0 {
                url.append("?info_hash=");
            } else {
                url.append("&info_hash=");
            }
            url.append(encode_binary(hashes[i].as_slice()).as_str());
            i += 1;
            proof {
                assert(hashes@.take(i as int).drop_last() =~= hashes@.take(i - 1));
                assert(url@ =~= base + hashes_text(hashes@.take(i as int)));
            }
        }
        assert(hashes@.take(i as int) =~= hashes@);
        url
    }

    /// What the reply on torrents says of them.
    pub fn scrape(reply: &[u8]) -> (r: Result<Vec<(InfoHash, ScrapedItem)>, TrackerError>)
        ensures
            match (r, scrape_outcome(reply@)) {
                (Ok(items), Ok(files)) => scraped_views(items@) == files,
                (Err(e), Err(failure)) => e@ == failure,
                _ => false,
            },
    {
        let object = match Object::parse(reply) {
            Some(object) => object,
            None => {
                return Err(TrackerError::InvalidReply);
            },
        };
        match check_failure(&object) {
            Ok(()) => {},
            Err(e) => {
                return Err(e);
            },
        }
        let files = match object.field("files") {
            Some(value) => match value.as_dict() {
                Some(files) => files,
                None => {
                    return Err(TrackerError::InvalidReply);
                },
            },
            None => {
                return Err(TrackerError::InvalidReply);
            },
        };
        let mut items: Vec<(InfoHash, ScrapedItem)> = Vec::new();
        let mut i: usize = 0;
        assert(scraped_views(items@) =~= seq![]);
        while i < files.len()
            invariant
                i <= files@.len(),
                scraped_files(files@.take(i as int)) == Some(scraped_views(items@)),
                scraped_files(files@) is None ==> scrape_outcome(reply@) == Err::<
                    Seq<(Seq<u8>, ScrapedItem)>,
                    Failure,
                >(Failure::InvalidReply),
            decreases files@.len() - i,
        {
            let item: &Object = files.value_at(i);
            let ghost before = items@;
            proof {
                assert(files@.take(i + 1).drop_last() =~= files@.take(i as int));
                if scraped_item(files@[i as int].1) is None || files@[i as int].0.len() != 20 {
                    lemma_scraped_none(files@, i as int);
                }
            }
            match (
                NodeId::from_slice(files.key_at(i).as_slice()),
                count_of(item, "complete"),
                count_of(item, "incomplete"),
                count_of(item, "downloaded"),
            ) {
                (Some(hash), Some(seeders), Some(leechers), Some(completed)) => {
                    items.push((hash, ScrapedItem { seeders, leechers, completed }));
                    assert(scraped_views(items@) =~= scraped_views(before).push(
                        (hash@, ScrapedItem { seeders, leechers, completed }),
                    ));
                },
                _ => {
                    return Err(TrackerError::InvalidReply);
                },
            }
            i += 1;
        }
        assert(files@.take(i as int) =~= files@);
        Ok(items)
    }
}

/// A percent-encoded text holds only characters that stand for themselves, and `%`.
pub proof fn law_percent_encoded(s: Seq<u8>)
    ensures
        forall|i: int|
            0 <= i < percent_encoded(s).len() ==> {
                let c = #[trigger] percent_encoded(s)[i];
                c == '%' || ((c as u32) < 128 && unreserved(c as u8))
            },
        s.len() <= percent_encoded(s).len() <= 3 * s.len(),
    decreases s.len(),
{
    if s.len() > 0 {
        law_percent_encoded(s.drop_last());
    }
}

/// Whether a URL holds a value behind a text, up to the next `&` or the end.
pub open spec fn param_of(url: Seq<char>, key: Seq<char>, value: Seq<char>) -> bool {
    exists|front: Seq<char>, rest: Seq<char>|
        url == #[trigger] (front + key + value + rest) && (rest.len() == 0 || rest[0] == '&')
}

/// What parts a text in three, the last of two parts first put together.
proof fn lemma_regrouped(a: Seq<char>, b: Seq<char>, c: Seq<char>)
    ensures
        a + (b + c) == a + b + c,
{
    assert(a + (b + c) =~= a + b + c);
}

/// The URL that announces a peer is that of the tracker, and says behind it which torrent and
/// which peer it is, where the peer listens, how much was uploaded and downloaded and is
/// left, what happened, and the key.
pub proof fn law_announce_url(url: Seq<char>, info: AnnounceInfo, key: u32)
    ensures
        ({
            let s = announce_text(url, info, key);
            &&& s.take(url.len() as int) == url
            &&& s[url.len() as int] == '?'
            &&& param_of(s, "?info_hash="@, percent_encoded(info.hash@))
            &&& param_of(s, "&peer_id="@, percent_encoded(info.peer_id@))
            &&& param_of(s, "&port="@, number_text(info.port as u64))
            &&& param_of(s, "&uploaded="@, number_text(info.uploaded))
            &&& param_of(s, "&downloaded="@, number_text(info.downloaded))
            &&& param_of(s, "&left="@, number_text(info.left))
            &&& param_of(
                s,
                "&event="@,
                match info.event {
                    Event::Started => "started"@,
                    Event::Stopped => "stopped"@,
                    Event::Completed => "completed"@,
                    Event::Empty => "empty"@,
                },
            )
            &&& param_of(s, "&compact=1&key="@, number_text(key as u64))
        }),
{
    let s = announce_text(url, info, key);
    reveal_strlit("?info_hash=");
    reveal_strlit("&peer_id=");
    reveal_strlit("&port=");
    reveal_strlit("&uploaded=");
    reveal_strlit("&downloaded=");
    reveal_strlit("&left=");
    reveal_strlit("&event=");
    reveal_strlit("&compact=1&key=");
    let t0 = url;
    let k0 = "?info_hash="@;
    let v0 = percent_encoded(info.hash@);
    let t1 = t0 + k0 + v0;
    let k1 = "&peer_id="@;
    let v1 = percent_encoded(info.peer_id@);
    let t2 = t1 + k1 + v1;
    let k2 = "&port="@;
    let v2 = number_text(info.port as u64);
    let t3 = t2 + k2 + v2;
    let k3 = "&uploaded="@;
    let v3 = number_text(info.uploaded);
    let t4 = t3 + k3 + v3;
    let k4 = "&downloaded="@;
    let v4 = number_text(info.downloaded);
    let t5 = t4 + k4 + v4;
    let k5 = "&left="@;
    let v5 = number_text(info.left);
    let t6 = t5 + k5 + v5;
    let k6 = "&event="@;
    let v6 = event_text(info.event);
    let t7 = t6 + k6 + v6;
    let k7 = "&compact=1&key="@;
    let v7 = number_text(key as u64);
    let t8 = t7 + k7 + v7;
    assert(s == t8);
    let r8 = Seq::<char>::empty();
    assert(s =~= t8 + r8);
    let r7 = k7 + (v7 + r8);
    lemma_regrouped(t7 + k7, v7, r8);
    lemma_regrouped(t7, k7, v7 + r8);
    assert(s == t7 + r7);
    assert(s == t7 + k7 + v7 + r8);
    let r6 = k6 + (v6 + r7);
    lemma_regrouped(t6 + k6, v6, r7);
    lemma_regrouped(t6, k6, v6 + r7);
    assert(s == t6 + r6);
    assert(s == t6 + k6 + v6 + r7);
    let r5 = k5 + (v5 + r6);
    lemma_regrouped(t5 + k5, v5, r6);
    lemma_regrouped(t5, k5, v5 + r6);
    assert(s == t5 + r5);
    assert(s == t5 + k5 + v5 + r6);
    let r4 = k4 + (v4 + r5);
    lemma_regrouped(t4 + k4, v4, r5);
    lemma_regrouped(t4, k4, v4 + r5);
    assert(s == t4 + r4);
    assert(s == t4 + k4 + v4 + r5);
    let r3 = k3 + (v3 + r4);
    lemma_regrouped(t3 + k3, v3, r4);
    lemma_regrouped(t3, k3, v3 + r4);
    assert(s == t3 + r3);
    assert(s == t3 + k3 + v3 + r4);
    let r2 = k2 + (v2 + r3);
    lemma_regrouped(t2 + k2, v2, r3);
    lemma_regrouped(t2, k2, v2 + r3);
    assert(s == t2 + r2);
    assert(s == t2 + k2 + v2 + r3);
    let r1 = k1 + (v1 + r2);
    lemma_regrouped(t1 + k1, v1, r2);
    lemma_regrouped(t1, k1, v1 + r2);
    assert(s == t1 + r1);
    assert(s == t1 + k1 + v1 + r2);
    let r0 = k0 + (v0 + r1);
    lemma_regrouped(t0 + k0, v0, r1);
    lemma_regrouped(t0, k0, v0 + r1);
    assert(s == t0 + r0);
    assert(s == t0 + k0 + v0 + r1);
    assert(s.take(url.len() as int) =~= url);
    assert(r0[0] == '?');
    assert(s[url.len() as int] == r0[0]);
}

/// A text in which what is looked for does not stand is not changed.
pub proof fn law_not_replaced(s: Seq<char>, at: int, from: Seq<char>, to: Seq<char>)
    requires
        0 <= at <= s.len(),
        from.len() > 0,
        forall|k: int| at <= k < s.len() ==> !#[trigger] stands_at(s, k, from),
    ensures
        replaced_from(s, at, from, to) == s.skip(at),
    decreases s.len() - at,
{
    if at < s.len() {
        assert(!stands_at(s, at, from));
        law_not_replaced(s, at + 1, from, to);
        assert(s.skip(at) =~= seq![s[at]] + s.skip(at + 1));
    } else {
        assert(s.skip(at) =~= Seq::<char>::empty());
    }
}

/// What stands before the first place of what is looked for is not changed.
pub proof fn law_replaced_first(s: Seq<char>, at: int, first: int, from: Seq<char>, to: Seq<char>)
    requires
        0 <= at <= first,
        from.len() > 0,
        stands_at(s, first, from),
        forall|k: int| at <= k < first ==> !#[trigger] stands_at(s, k, from),
    ensures
        replaced_from(s, at, from, to) == s.subrange(at, first) + (to + replaced_from(
            s,
            first + from.len(),
            from,
            to,
        )),
    decreases first - at,
{
    let rest = to + replaced_from(s, first + from.len(), from, to);
    if at < first {
        assert(!stands_at(s, at, from));
        law_replaced_first(s, at + 1, first, from, to);
        assert(s.subrange(at, first) + rest =~= seq![s[at]] + (s.subrange(at + 1, first) + rest));
    } else {
        assert(s.subrange(at, first) + rest =~= rest);
    }
}

/// The URL that asks for torrents has `scrape` in the place of `announce`, where that stands
/// once in the URL of the tracker, and then the torrents.
pub proof fn law_scrape_url(front: Seq<char>, rest: Seq<char>, hashes: Seq<InfoHash>)
    requires
        ({
            let url = front + "announce"@ + rest;
            forall|k: int|
                0 <= k < url.len() && k != front.len() ==> !#[trigger] stands_at(
                    url,
                    k,
                    "announce"@,
                )
        }),
    ensures
        scrape_text(front + "announce"@ + rest, hashes) == front + "scrape"@ + rest + hashes_text(
            hashes,
        ),
{
    reveal_strlit("announce");
    let from = "announce"@;
    let to = "scrape"@;
    let url = front + from + rest;
    let n = front.len() as int;
    assert(url.subrange(n, n + from.len()) =~= from);
    assert(stands_at(url, n, from));
    law_replaced_first(url, 0, n, from, to);
    law_not_replaced(url, n + from.len(), from, to);
    assert(url.skip(n + from.len()) =~= rest);
    assert(url.subrange(0, n) =~= front);
    lemma_regrouped(front, to, rest);
}

/// The first torrent is asked for behind a question mark, and the others each behind a `&`.
pub proof fn law_hashes_text(hashes: Seq<InfoHash>, hash: InfoHash)
    ensures
        hashes_text(Seq::empty()) == Seq::<char>::empty(),
        hashes_text(seq![hash]) == "?info_hash="@ + percent_encoded(hash@),
        hashes.len() > 0 ==> hashes_text(hashes.push(hash)) == hashes_text(hashes)
            + "&info_hash="@ + percent_encoded(hash@),
{
    let one = seq![hash];
    assert(one.drop_last() =~= Seq::<InfoHash>::empty());
    assert(hashes_text(one.drop_last()) == Seq::<char>::empty());
    assert(hashes_text(one) =~= "?info_hash="@ + percent_encoded(hash@));
    assert(hashes.push(hash).drop_last() =~= hashes);
}

/// Each byte is written on its own; one that does not stand for itself as `%` and two digits,
/// of which the first counts sixteen times.
pub proof fn law_percent_byte(s: Seq<u8>, b: u8)
    ensures
        ({
            let t = percent_encoded(s.push(b));
            let n = percent_encoded(s).len() as int;
            let digit = |c: char|
                if c <= '9' {
                    c as int - '0' as int
                } else {
                    c as int - 'A' as int + 10
                };
            &&& t.take(n) == percent_encoded(s)
            &&& unreserved(b) ==> t == percent_encoded(s).push(b as char)
            &&& !unreserved(b) ==> t.len() == n + 3 && t[n] == '%' && 16 * digit(t[n + 1]) + digit(
                t[n + 2],
            ) == b
        }),
{
    assert(s.push(b).drop_last() =~= s);
    let t = percent_encoded(s.push(b));
    let n = percent_encoded(s).len() as int;
    assert(t.take(n) =~= percent_encoded(s));
    let x = b as int;
    assert(x == 16 * (x / 16) + x % 16);
}

/// The first of peers stands first, and the others behind it.
proof fn lemma_peers_front(peers: Seq<SocketAddr>)
    requires
        peers.len() > 0,
    ensures
        peers_bytes(peers) == compact_ip(peers[0]) + peers_bytes(peers.skip(1)),
    decreases peers.len(),
{
    let none = Seq::<u8>::empty();
    if peers.len() == 1 {
        assert(peers_bytes(peers.drop_last()) =~= none);
        assert(peers_bytes(peers.skip(1)) =~= none);
        assert(none + compact_ip(peers[0]) =~= compact_ip(peers[0]) + none);
    } else {
        lemma_peers_front(peers.drop_last());
        assert(peers.drop_last().skip(1) =~= peers.skip(1).drop_last());
        let (a, b, c) = (
            compact_ip(peers[0]),
            peers_bytes(peers.skip(1).drop_last()),
            compact_ip(peers.last()),
        );
        assert(a + b + c =~= a + (b + c));
    }
}

/// A compact list of peers with addresses of one family, which have nothing but an address
/// and a port, is read as these peers, in their order.
pub proof fn law_compact_peers(peers: Seq<SocketAddr>, ipv4: bool)
    requires
        plain_peers(peers, ipv4),
    ensures
        compact_peers(
            peers_bytes(peers),
            if ipv4 {
                6
            } else {
                18
            },
        ) == Some(peers),
    decreases peers.len(),
{
    let size: nat = if ipv4 {
        6
    } else {
        18
    };
    if peers.len() > 0 {
        lemma_peers_front(peers);
        let rest = peers.skip(1);
        assert forall|i: int| 0 <= i < rest.len() implies match #[trigger] rest[i] {
            SocketAddr::V4 { .. } => ipv4,
            SocketAddr::V6 { flowinfo, scope_id, .. } => !ipv4 && flowinfo == 0 && scope_id == 0,
        } by {
            assert(rest[i] == peers[i + 1]);
        }
        law_compact_peers(rest, ipv4);
        lemma_compact_len(peers[0]);
        law_compact_round_trip(peers[0]);
        let s = peers_bytes(peers);
        assert(s.take(size as int) =~= compact_ip(peers[0]));
        assert(s.skip(size as int) =~= peers_bytes(rest));
        assert(seq![peers[0]] + rest =~= peers);
    } else {
        assert(peers =~= Seq::<SocketAddr>::empty());
    }
}

/// A list of dictionaries holds peers where each of them holds one, and then these, in their
/// order.
pub proof fn law_listed_peers(l: Seq<Value>)
    ensures
        match listed_peers(l) {
            Some(peers) => peers.len() == l.len() && forall|i: int|
                0 <= i < l.len() ==> listed_peer(#[trigger] l[i]) == Some(peers[i]),
            None => exists|i: int| 0 <= i < l.len() && listed_peer(#[trigger] l[i]) is None,
        },
    decreases l.len(),
{
    if l.len() > 0 {
        let front = l.drop_last();
        law_listed_peers(front);
        match listed_peers(front) {
            Some(peers) => {
                assert(l[l.len() - 1] == l.last());
                if listed_peer(l.last()) is Some {
                    assert forall|i: int| 0 <= i < l.len() implies listed_peer(#[trigger] l[i])
                        == Some(listed_peers(l)->Some_0[i]) by {
                        if i < front.len() {
                            assert(front[i] == l[i]);
                        }
                    }
                }
            },
            None => {
                let i = choose|i: int|
                    0 <= i < front.len() && listed_peer(#[trigger] front[i]) is None;
                assert(l[i] == front[i]);
            },
        }
    }
}

/// A dictionary holds a peer where it has an identifier under `peer id`, an address in 4 bytes
/// or 16 under `ip` and a number of 16 bits under `port`.
pub proof fn law_listed_peer(v: Value)
    ensures
        match listed_peer(v) {
            Some(peer) => {
                &&& str_field(v, text("peer id")) is Some
                &&& str_field(v, text("ip")) matches Some(ip) && (ip.len() == 4 || ip.len() == 16)
                    && parsed_your_ip(ip) == Some(peer.spec_ip())
                &&& int_field(v, text("port")) == Some(peer.spec_port() as i64)
            },
            None => str_field(v, text("peer id")) is None || str_field(v, text("ip")) is None
                || (str_field(v, text("ip"))->Some_0.len() != 4 && str_field(
                v,
                text("ip"),
            )->Some_0.len() != 16) || match int_field(v, text("port")) {
                Some(port) => !(0 <= port <= 65535),
                None => true,
            },
        },
{
}

/// The reply to an announcement is a dictionary with a number under `interval` and peers
/// under `peers`, of six bytes each, or under `peers6`, of eighteen; the counts are the
/// numbers under `complete`, `incomplete` and `downloaded`.
pub proof fn law_announced(v: Value, peers: Seq<SocketAddr>, peers6: Seq<SocketAddr>, interval: u32)
    requires
        plain_peers(peers, true),
        plain_peers(peers6, false),
        int_field(v, text("interval")) == Some(interval as i64),
    ensures
        field(v, text("peers")) == Some(Value::Str(peers_bytes(peers))) && field(v, text("peers6"))
            is None ==> (announced(v) matches Some(a) && a.peers == peers && a.interval
            == interval),
        field(v, text("peers")) is None && field(v, text("peers6")) == Some(
            Value::Str(peers_bytes(peers6)),
        ) ==> (announced(v) matches Some(a) && a.peers == peers6 && a.interval == interval),
        field(v, text("peers")) == Some(Value::Str(peers_bytes(peers))) && field(v, text("peers6"))
            == Some(Value::Str(peers_bytes(peers6))) ==> (announced(v) matches Some(a) && a.peers
            == peers + peers6 && a.interval == interval),
        field(v, text("peers")) is None && field(v, text("peers6")) is None ==> announced(v) is None,
{
    law_compact_peers(peers, true);
    law_compact_peers(peers6, false);
    assert(peers + Seq::<SocketAddr>::empty() =~= peers);
    assert(Seq::<SocketAddr>::empty() + peers6 =~= peers6);
}

/// The counts in the reply to an announcement are those under the keys for them, where these
/// are numbers of 32 bits, and the address is the one under the key for it.
pub proof fn law_announced_counts(v: Value)
    requires
        announced(v) is Some,
    ensures
        ({
            let a = announced(v)->Some_0;
            let counted = |n: Option<u32>, key: Seq<u8>|
                match int_field(v, key) {
                    Some(i) if 0 <= i < 0x1_0000_0000 => n matches Some(m) && m == i,
                    _ => n is None,
                };
            &&& int_field(v, text("interval")) == Some(a.interval as i64)
            &&& counted(a.seeders, text("complete"))
            &&& counted(a.leechers, text("incomplete"))
            &&& counted(a.completed, text("downloaded"))
            &&& a.external_ip is Some ==> (str_field(v, text("external ip")) matches Some(s)
                && compact_ip(a.external_ip->Some_0) == s)
        }),
{
    if let Some(s) = str_field(v, text("external ip")) {
        law_parsed_compact(s);
    }
}

/// A tracker that says why it refuses is taken at its word, whatever else it says.
pub proof fn law_refused(v: Value, reason: Seq<u8>, reply: Seq<u8>)
    requires
        decode(reply) == Some((v, Seq::<u8>::empty())),
        str_field(v, text("failure reason")) == Some(reason),
    ensures
        announce_outcome(reply) == Err::<Announced, Failure>(Failure::Error(lossy_text(reason))),
        scrape_outcome(reply) == Err::<Seq<(Seq<u8>, ScrapedItem)>, Failure>(
            Failure::Error(lossy_text(reason)),
        ),
{
}

/// What is no value, or more than one, is an invalid reply.
pub proof fn law_invalid_reply(reply: Seq<u8>)
    requires
        decode(reply) is None || decode(reply)->Some_0.1.len() > 0,
    ensures
        announce_outcome(reply) == Err::<Announced, Failure>(Failure::InvalidReply),
        scrape_outcome(reply) == Err::<Seq<(Seq<u8>, ScrapedItem)>, Failure>(Failure::InvalidReply),
{
}

/// The torrents in a reply are those of its dictionary, in its order, each with the numbers
/// under `complete`, `incomplete` and `downloaded`; there are none where one of the hashes
/// does not have 20 bytes.
pub proof fn law_scraped_files(d: Seq<(Seq<u8>, Value)>)
    ensures
        scraped_files(d) matches Some(files) ==> files.len() == d.len() && forall|i: int|
            0 <= i < d.len() ==> {
                &&& (#[trigger] d[i]).0.len() == 20
                &&& files[i].0 == d[i].0
                &&& int_field(d[i].1, text("complete")) == Some(files[i].1.seeders as i64)
                &&& int_field(d[i].1, text("incomplete")) == Some(files[i].1.leechers as i64)
                &&& int_field(d[i].1, text("downloaded")) == Some(files[i].1.completed as i64)
            },
        scraped_files(d) is None ==> exists|i: int|
            0 <= i < d.len() && ((#[trigger] d[i]).0.len() != 20 || scraped_item(d[i].1) is None),
    decreases d.len(),
{
    if d.len() > 0 {
        let front = d.drop_last();
        law_scraped_files(front);
        assert(d[d.len() - 1] == d.last());
        match scraped_files(d) {
            Some(files) => {
                assert forall|i: int| 0 <= i < d.len() implies {
                    &&& (#[trigger] d[i]).0.len() == 20
                    &&& files[i].0 == d[i].0
                    &&& int_field(d[i].1, text("complete")) == Some(files[i].1.seeders as i64)
                    &&& int_field(d[i].1, text("incomplete")) == Some(files[i].1.leechers as i64)
                    &&& int_field(d[i].1, text("downloaded")) == Some(files[i].1.completed as i64)
                } by {
                    if i < front.len() {
                        assert(front[i] == d[i]);
                    }
                }
            },
            None => {
                if scraped_files(front) is None {
                    let i = choose|i: int|
                        0 <= i < front.len() && ((#[trigger] front[i]).0.len() != 20
                            || scraped_item(front[i].1) is None);
                    assert(d[i] == front[i]);
                }
            },
        }
    }
}

/// A torrent is known where the three numbers for it are given, each of 32 bits.
pub proof fn law_scraped_item(v: Value, item: ScrapedItem)
    requires
        int_field(v, text("complete")) == Some(item.seeders as i64),
        int_field(v, text("incomplete")) == Some(item.leechers as i64),
        int_field(v, text("downloaded")) == Some(item.completed as i64),
    ensures
        scraped_item(v) == Some(item),
{
}

} // verus!

//! What is kept of torrents, and how they are searched for.

use crate::bencode::fields::field;
use crate::bencode::value::{encode, Value};
use crate::bt::crypto::sha1_digest;
use crate::bt::torrent::{
    all_files, file_views, info_of, torrent_name, total_length, Torrent,
};
use crate::bytes::text;
use crate::kad::nodeid::{InfoHash, NodeId};
use crate::strings::{number_string, number_text, trim, trimmed_text};
use crate::tags::{generate_torrent_tags, tag_views, torrent_tags, total_size};
use vstd::prelude::*;
use vstd::string::{StrSliceExecFns, StringExecFns};

verus! {

/// How much data is compressed.
pub const DB_COMPRESS_LEVEL: i32 = 22;

/// How many torrents a page of results holds.
pub const MAX_SEARCH_PER_PAGES: usize = 25;

/// A file of a torrent.
#[derive(Debug, PartialEq, Eq)]
pub struct TorrentFile {
    pub name: String,
    pub size: u64,
}

/// A torrent that is kept.
#[derive(Debug)]
pub struct TorrentInfo {
    pub hash: InfoHash,
    pub name: String,
    pub size: u64,
    pub tags: Vec<String>,
    pub files: Vec<TorrentFile>,
    /// When it was added.
    pub added: String,
}

/// The result of a search.
#[derive(Debug)]
pub struct TorrentInfoList {
    pub torrents: Vec<TorrentInfo>,
    /// How many torrents there are to the query, on all pages.
    pub total: u64,
}

/// What `zstd::decode_all` makes of data; nothing where it refuses it.
pub uninterp spec fn zstd_decoded(data: Seq<u8>) -> Option<Seq<u8>>;

/// Decompresses data, by `zstd::decode_all`: what comes out, or that nothing does, depends
/// on the data alone.
#[verifier::external_body]
fn zstd_decode(data: &[u8]) -> (r: Option<Vec<u8>>)
    ensures
        match r {
            Some(v) => zstd_decoded(data@) == Some(v@),
            None => zstd_decoded(data@) is None,
        },
{
    zstd::decode_all(data).ok()
}

/// Compresses data, by `zstd::encode_all`: decompressing the result gives the data back.
/// Reading from a slice and writing to a vector do not fail, and every such level is one
/// that the crate takes, so that there is a result as long as there is memory; without it
/// the program stops. Which of the encodings of the data it is, which the level decides, is
/// left unsaid.
#[verifier::external_body]
fn zstd_encode(data: &[u8], level: i32) -> (r: Vec<u8>)
    requires
        1 <= level <= 22,
    ensures
        zstd_decoded(r@) == Some(data@),
{
    zstd::encode_all(data, level).expect("compressing fails only without memory")
}

/// Compresses data to be kept, from which it comes back.
pub fn pack(data: &[u8]) -> (r: Vec<u8>)
    ensures
        zstd_decoded(r@) == Some(data@),
{
    zstd_encode(data, DB_COMPRESS_LEVEL)
}

/// The data that was kept, where it is not damaged.
pub fn unpack(data: &[u8]) -> (r: Option<Vec<u8>>)
    ensures
        match r {
            Some(v) => zstd_decoded(data@) == Some(v@),
            None => zstd_decoded(data@) is None,
        },
{
    zstd_decode(data)
}

/// How torrents are searched for.
#[derive(Debug, Clone, Copy, PartialEq, Eq, Structural)]
pub enum SearchPlan {
    /// All of them.
    All,
    /// Those in whose names the query stands.
    Like,
    /// Those whose names match the query.
    Match,
}

/// Whether a character has a meaning of its own in a query for matching names.
pub open spec fn fts_special(c: char) -> bool {
    c == '"' || c == ':' || c == '*' || c == '-' || c == '[' || c == ']'
}

/// Whether a query holds a character that has a meaning of its own.
pub open spec fn has_special(s: Seq<char>) -> bool {
    exists|i: int| 0 <= i < s.len() && fts_special(#[trigger] s[i])
}

/// A query in quotes, unless it holds a character that has a meaning of its own.
pub fn escape_fts_query(input: &str) -> (r: Option<String>)
    ensures
        match r {
            Some(s) => !has_special(input@) && s@ == "\""@ + input@ + "\""@,
            None => has_special(input@),
        },
{
    let n: usize = input.unicode_len();
    let mut i: usize = 0;
    while i < n
        invariant
            n == input@.len(),
            i <= n,
            forall|j: int| 0 <= j < i ==> !fts_special(#[trigger] input@[j]),
        decreases n - i,
    {
        let c: char = input.get_char(i);
        if c == '"' || c == ':' || c == '*' || c == '-' || c == '[' || c == ']' {
            assert(fts_special(input@[i as int]));
            return None;
        }
        i += 1;
    }
    Some(String::from_str("\"").concat(input).concat("\""))
}

/// How torrents are searched for by a query without the white space at its ends: short
/// ones, and those with a character that has a meaning of its own, cannot be matched.
pub open spec fn plan_for(trimmed: Seq<char>) -> SearchPlan {
    if trimmed == "*"@ {
        SearchPlan::All
    } else if trimmed.len() < 3 || has_special(trimmed) {
        SearchPlan::Like
    } else {
        SearchPlan::Match
    }
}

/// How torrents are searched for by a query without the white space at its ends.
pub fn plan_trimmed(trimmed: &str) -> (r: SearchPlan)
    ensures
        r == plan_for(trimmed@),
{
    if String::from_str(trimmed) == String::from_str("*") {
        return SearchPlan::All;
    }
    if trimmed.unicode_len() < 3 || escape_fts_query(trimmed).is_none() {
        SearchPlan::Like
    } else {
        SearchPlan::Match
    }
}

/// How torrents are searched for by a query.
pub fn search_plan(query: &str) -> (r: SearchPlan)
    ensures
        r == plan_for(trimmed_text(query@)),
{
    plan_trimmed(trim(query))
}

/// How many torrents stand before a page; the first page is the one with number one.
pub fn page_offset(page: usize) -> (r: u64)
    requires
        page > 0 ==> (page - 1) * MAX_SEARCH_PER_PAGES <= usize::MAX,
    ensures
        r == (if page == 0 {
            0int
        } else {
            (page - 1) * MAX_SEARCH_PER_PAGES
        }),
{
    let before: usize = if page == 0 {
        0
    } else {
        page - 1
    };
    (before * MAX_SEARCH_PER_PAGES) as u64
}

/// How many pages torrents fill.
pub fn total_pages(total: usize) -> (r: usize)
    requires
        total + MAX_SEARCH_PER_PAGES <= usize::MAX,
    ensures
        r == (total + 24) / 25,
{
    (total + MAX_SEARCH_PER_PAGES - 1) / MAX_SEARCH_PER_PAGES
}

/// A size in words.
pub open spec fn size_text(size: u64) -> Seq<char> {
    if size < 1024 {
        number_text(size) + " bytes"@
    } else if size < 1024 * 1024 {
        number_text(size / 1024) + " KB"@
    } else if size < 1024 * 1024 * 1024 {
        number_text(size / 0x10_0000) + " MB"@
    } else {
        number_text(size / 0x4000_0000) + " GB"@
    }
}

/// A size in words.
pub fn size_to_string(size: u64) -> (r: String)
    ensures
        r@ == size_text(size),
{
    if size < 1024 {
        return number_string(size).concat(" bytes");
    }
    if size < 1024 * 1024 {
        return number_string(size / 1024).concat(" KB");
    }
    if size < 1024 * 1024 * 1024 {
        return number_string(size / 1024 / 1024).concat(" MB");
    }
    number_string(size / 1024 / 1024 / 1024).concat(" GB")
}

/// The parts of a text between the occurrences of a character, from a place on.
pub open spec fn split_from(s: Seq<char>, from: int, at: int, c: char) -> Seq<Seq<char>>
    decreases s.len() - at,
{
    if at < 0 || at >= s.len() {
        seq![s.subrange(from, s.len() as int)]
    } else if s[at] == c {
        seq![s.subrange(from, at)] + split_from(s, at + 1, at + 1, c)
    } else {
        split_from(s, from, at + 1, c)
    }
}

/// The parts of a text between the occurrences of a character.
pub fn split(s: &str, c: char) -> (r: Vec<String>)
    ensures
        tag_views(r@) == split_from(s@, 0, 0, c),
{
    let n: usize = s.unicode_len();
    let mut r: Vec<String> = Vec::new();
    let mut from: usize = 0;
    let mut at: usize = 0;
    assert(tag_views(r@) + split_from(s@, 0, 0, c) =~= split_from(s@, 0, 0, c));
    while at < n
        invariant
            n == s@.len(),
            from <= at <= n,
            tag_views(r@) + split_from(s@, from as int, at as int, c) == split_from(s@, 0, 0, c),
        decreases n - at,
    {
        if s.get_char(at) == c {
            let ghost before = tag_views(r@);
            let ghost rest = split_from(s@, at + 1, at + 1, c);
            r.push(String::from_str(s.substring_char(from, at)));
            proof {
                let part = s@.subrange(from as int, at as int);
                assert(tag_views(r@) =~= before.push(part));
                assert(before + (seq![part] + rest) =~= tag_views(r@) + rest);
            }
            from = at + 1;
        }
        at += 1;
    }
    let ghost before = tag_views(r@);
    r.push(String::from_str(s.substring_char(from, n)));
    proof {
        let part = s@.subrange(from as int, n as int);
        assert(tag_views(r@) =~= before.push(part));
        assert(before + seq![part] =~= tag_views(r@));
    }
    r
}

/// A row of the result of a query: the fields of a torrent, with the files where they are
/// not damaged, the tags with commas between them, and how many rows there are.
#[derive(Debug)]
pub struct TorrentRow {
    pub hash: [u8; 20],
    pub name: String,
    pub size: u64,
    pub files: Option<Vec<TorrentFile>>,
    pub added: String,
    pub tags: Option<String>,
    pub total: u64,
}

/// The tags of a row.
pub open spec fn row_tags(tags: Option<String>) -> Seq<Seq<char>> {
    match tags {
        Some(s) => split_from(s@, 0, 0, ','),
        None => seq![],
    }
}

/// Whether a torrent is that of a row.
pub open spec fn info_of_row(info: TorrentInfo, row: TorrentRow) -> bool {
    &&& info.hash@ == row.hash@
    &&& info.name == row.name
    &&& info.size == row.size
    &&& tag_views(info.tags@) == row_tags(row.tags)
    &&& Some(info.files) == row.files
    &&& info.added == row.added
}

/// The rows whose files are not damaged.
pub open spec fn good_rows(rows: Seq<TorrentRow>) -> Seq<TorrentRow>
    decreases rows.len(),
{
    if rows.len() == 0 {
        seq![]
    } else if rows.last().files is Some {
        good_rows(rows.drop_last()).push(rows.last())
    } else {
        good_rows(rows.drop_last())
    }
}

/// There are not more rows that are not damaged than rows.
proof fn lemma_good_rows(rows: Seq<TorrentRow>)
    ensures
        good_rows(rows).len() <= rows.len(),
    decreases rows.len(),
{
    if rows.len() > 0 {
        lemma_good_rows(rows.drop_last());
    }
}

/// There are not more damaged rows among the first ones than in all.
proof fn lemma_good_prefix(rows: Seq<TorrentRow>, n: int)
    requires
        0 <= n <= rows.len(),
    ensures
        n - good_rows(rows.take(n)).len() <= rows.len() - good_rows(rows).len(),
    decreases rows.len() - n,
{
    if n < rows.len() {
        lemma_good_prefix(rows, n + 1);
        assert(rows.take(n + 1).drop_last() =~= rows.take(n));
    } else {
        assert(rows.take(n) =~= rows);
    }
}

/// The torrents in the rows of a result: rows whose files are damaged are left out, and
/// not counted.
pub fn collect_results(rows: Vec<TorrentRow>) -> (r: TorrentInfoList)
    requires
        rows@.len() > 0 ==> rows@[0].total >= rows@.len() - good_rows(rows@).len(),
    ensures
        r.torrents@.len() == good_rows(rows@).len(),
        forall|i: int|
            0 <= i < r.torrents@.len() ==> info_of_row(
                #[trigger] r.torrents@[i],
                good_rows(rows@)[i],
            ),
        r.total == (if rows@.len() == 0 {
            0int
        } else {
            rows@[0].total - (rows@.len() - good_rows(rows@).len())
        }),
{
    let ghost all = rows@;
    let mut rows = rows;
    let n: usize = rows.len();
    let mut torrents: Vec<TorrentInfo> = Vec::new();
    let mut total: u64 = if n == 0 {
        0
    } else {
        rows[0].total
    };
    let mut done: usize = 0;
    assert(all.take(0) =~= seq![]);
    assert(all.skip(0) =~= all);
    while done < n
        invariant
            n == all.len(),
            done <= n,
            rows@ == all.skip(done as int),
            n > 0 ==> all[0].total >= n - good_rows(all).len(),
            n == 0 ==> total == 0,
            n > 0 ==> total == all[0].total - (done - good_rows(all.take(done as int)).len()),
            good_rows(all.take(done as int)).len() <= done,
            torrents@.len() == good_rows(all.take(done as int)).len(),
            forall|i: int|
                0 <= i < torrents@.len() ==> info_of_row(
                    #[trigger] torrents@[i],
                    good_rows(all.take(done as int))[i],
                ),
        decreases n - done,
    {
        let row = rows.remove(0);
        let ghost before = good_rows(all.take(done as int));
        proof {
            assert(row == all[done as int]);
            assert(all.take(done + 1).drop_last() =~= all.take(done as int));
            assert(rows@ =~= all.skip(done + 1));
            lemma_good_rows(all.take(done + 1));
            lemma_good_prefix(all, done + 1);
        }
        match row.files {
            Some(files) => {
                let tags: Vec<String> = match &row.tags {
                    Some(s) => split(s.as_str(), ','),
                    None => {
                        let none: Vec<String> = Vec::new();
                        assert(tag_views(none@) =~= seq![]);
                        none
                    },
                };
                torrents.push(
                    TorrentInfo {
                        hash: NodeId::from(row.hash),
                        name: row.name,
                        size: row.size,
                        tags,
                        files,
                        added: row.added,
                    },
                );
            },
            None => {
                total -= 1;
            },
        }
        done += 1;
    }
    assert(all.take(n as int) =~= all);
    TorrentInfoList { torrents, total }
}

/// The tags to keep for a torrent: those that it has, without white space at their ends,
/// or one that says that there are no others.
pub open spec fn kept_tags(tags: Seq<Seq<char>>) -> Seq<Seq<char>> {
    trimmed_tags(
        if tags.len() == 0 {
            seq!["other"@]
        } else {
            tags
        },
    )
}

/// Tags without white space at their ends, where anything is left of them.
pub open spec fn trimmed_tags(tags: Seq<Seq<char>>) -> Seq<Seq<char>>
    decreases tags.len(),
{
    if tags.len() == 0 {
        seq![]
    } else {
        let front = trimmed_tags(tags.drop_last());
        let tag = trimmed_text(tags.last());
        if tag.len() == 0 {
            front
        } else {
            front.push(tag)
        }
    }
}

/// The tags to keep for a torrent with a name and files.
pub fn tags_to_keep(name: &str, files: &[TorrentFile]) -> (r: Vec<String>)
    requires
        total_size(files@) <= u64::MAX,
    ensures
        tag_views(r@) == kept_tags(torrent_tags(name@, files@)),
{
    let mut tags: Vec<String> = generate_torrent_tags(name, files);
    if tags.len() == 0 {
        tags.push(String::from_str("other"));
        assert(tag_views(tags@) =~= seq!["other"@]);
    }
    let ghost all = tag_views(tags@);
    let mut r: Vec<String> = Vec::new();
    let mut i: usize = 0;
    assert(all.take(0) =~= seq![]);
    assert(tag_views(r@) =~= seq![]);
    while i < tags.len()
        invariant
            i <= tags@.len(),
            all == tag_views(tags@),
            tag_views(r@) == trimmed_tags(all.take(i as int)),
        decreases tags@.len() - i,
    {
        assert(all.take(i + 1).drop_last() =~= all.take(i as int));
        let ghost before = tag_views(r@);
        let tag: &str = trim(tags[i].as_str());
        if !tag.is_empty() {
            r.push(String::from_str(tag));
            assert(tag_views(r@) =~= before.push(tag@));
        }
        i += 1;
    }
    assert(all.take(i as int) =~= all);
    r
}

/// What is kept of a torrent.
#[derive(Debug)]
pub struct TorrentRecord {
    pub hash: InfoHash,
    pub name: String,
    pub size: u64,
    pub files: Vec<TorrentFile>,
    /// The torrent, compressed.
    pub data: Vec<u8>,
    pub tags: Vec<String>,
}

/// The names and sizes of files.
pub open spec fn kept_files(files: Seq<TorrentFile>) -> Seq<(Seq<char>, u64)> {
    Seq::new(files.len(), |i: int| (files[i].name@, files[i].size))
}

/// The sizes of files, added up, are the length of the torrent.
proof fn lemma_sizes(files: Seq<TorrentFile>)
    ensures
        total_size(files) == total_length(kept_files(files)),
    decreases files.len(),
{
    if files.len() > 0 {
        lemma_sizes(files.drop_last());
        assert(kept_files(files).drop_last() =~= kept_files(files.drop_last()));
    }
}

/// Whether a record holds a torrent, apart from the compressed data.
pub open spec fn record_of(record: TorrentRecord, v: Value) -> bool {
    &&& info_of(v) matches Some(info) && record.hash@ == sha1_digest(encode(info))
    &&& torrent_name(v) == Some(record.name@)
    &&& record.size == total_length(all_files(v))
    &&& kept_files(record.files@) == all_files(v)
    &&& tag_views(record.tags@) == kept_tags(torrent_tags(record.name@, record.files@))
}

/// What is kept of a torrent whose length is a number of 64 bits, where it is compressed
/// to the given data.
pub fn record_with(torrent: &Torrent, data: Vec<u8>) -> (r: TorrentRecord)
    requires
        total_length(all_files(torrent@)) <= u64::MAX,
    ensures
        record_of(r, torrent@),
        r.data == data,
{
    let hash = torrent.info_hash();
    let name: &str = torrent.name();
    let size: u64 = torrent.length();
    let mut list: Vec<(String, u64)> = torrent.files();
    let ghost all = list@;
    let mut files: Vec<TorrentFile> = Vec::new();
    let n: usize = list.len();
    assert(all.skip(0) =~= all);
    while files.len() < n
        invariant
            n == all.len(),
            files@.len() <= n,
            list@ == all.skip(files@.len() as int),
            forall|i: int|
                0 <= i < files@.len() ==> (#[trigger] files@[i]).name == all[i].0 && files@[i].size
                    == all[i].1,
        decreases n - files@.len(),
    {
        let (name, size): (String, u64) = list.remove(0);
        proof {
            assert((name, size) == all[files@.len() as int]);
            assert(list@ =~= all.skip(files@.len() as int + 1));
        }
        files.push(TorrentFile { name, size });
    }
    proof {
        assert(kept_files(files@) =~= file_views(all));
        lemma_sizes(files@);
    }
    let tags = tags_to_keep(name, files.as_slice());
    TorrentRecord { hash, name: String::from_str(name), size, files, data, tags }
}

/// What is kept of a torrent whose length is a number of 64 bits: the torrent comes back
/// from its compressed data.
pub fn make_record(torrent: &Torrent) -> (r: TorrentRecord)
    requires
        total_length(all_files(torrent@)) <= u64::MAX,
    ensures
        record_of(r, torrent@),
        zstd_decoded(r.data@) == Some(encode(torrent@)),
{
    let data = pack(torrent.encode().as_slice());
    record_with(torrent, data)
}

/// All torrents are searched for by an asterisk alone. Names are matched by queries of three
/// characters or more among which there is no quotation mark, colon, asterisk, hyphen or
/// square bracket, and looked into by all others.
pub proof fn law_plan(trimmed: Seq<char>)
    ensures
        plan_for(trimmed) == SearchPlan::All <==> trimmed.len() == 1 && trimmed[0] == '*',
        plan_for(trimmed) == SearchPlan::Match <==> trimmed.len() >= 3 && forall|i: int|
            #![trigger trimmed[i]]
            0 <= i < trimmed.len() ==> trimmed[i] != '"' && trimmed[i] != ':' && trimmed[i] != '*'
                && trimmed[i] != '-' && trimmed[i] != '[' && trimmed[i] != ']',
        plan_for(trimmed) is All || plan_for(trimmed) is Match || plan_for(trimmed) is Like,
{
    reveal_strlit("*");
    if trimmed.len() == 1 && trimmed[0] == '*' {
        assert(trimmed =~= "*"@);
    }
    if trimmed.len() >= 3 && !has_special(trimmed) {
        assert forall|i: int| #![trigger trimmed[i]] 0 <= i < trimmed.len() implies !fts_special(
            trimmed[i],
        ) by {}
    }
}

/// A size is given in the largest unit of which it is at least one, without the part of a
/// unit that is left over.
pub proof fn law_size_text(size: u64) -> (n: u64)
    ensures
        size < 1024 ==> n == size && size_text(size) == number_text(n) + " bytes"@,
        1024 <= size < 0x10_0000 ==> n * 1024 <= size < (n + 1) * 1024 && size_text(size)
            == number_text(n) + " KB"@,
        0x10_0000 <= size < 0x4000_0000 ==> n * 0x10_0000 <= size < (n + 1) * 0x10_0000
            && size_text(size) == number_text(n) + " MB"@,
        size >= 0x4000_0000 ==> n * 0x4000_0000 <= size < (n + 1) * 0x4000_0000 && size_text(size)
            == number_text(n) + " GB"@,
{
    if size < 1024 {
        size
    } else if size < 0x10_0000 {
        size / 1024
    } else if size < 0x4000_0000 {
        size / 0x10_0000
    } else {
        size / 0x4000_0000
    }
}

/// Texts with a character between each two of them.
pub open spec fn joined_by(parts: Seq<Seq<char>>, c: char) -> Seq<char>
    decreases parts.len(),
{
    if parts.len() == 0 {
        seq![]
    } else if parts.len() == 1 {
        parts[0]
    } else {
        parts[0] + seq![c] + joined_by(parts.skip(1), c)
    }
}

/// The parts of a text from a place on hold no character that parts them, and with it between
/// them are the rest of the text.
proof fn lemma_split(s: Seq<char>, from: int, at: int, c: char)
    requires
        0 <= from <= at <= s.len(),
        forall|i: int| from <= i < at ==> s[i] != c,
    ensures
        split_from(s, from, at, c).len() > 0,
        joined_by(split_from(s, from, at, c), c) == s.skip(from),
        forall|k: int|
            0 <= k < split_from(s, from, at, c).len() ==> !(#[trigger] split_from(
                s,
                from,
                at,
                c,
            )[k]).contains(c),
    decreases s.len() - at,
{
    let parts = split_from(s, from, at, c);
    if at >= s.len() {
        assert(s.subrange(from, s.len() as int) =~= s.skip(from));
        assert(parts =~= seq![s.skip(from)]);
    } else if s[at] == c {
        lemma_split(s, at + 1, at + 1, c);
        let rest = split_from(s, at + 1, at + 1, c);
        assert(parts.skip(1) =~= rest);
        assert(s.skip(from) =~= s.subrange(from, at) + seq![c] + s.skip(at + 1));
        assert forall|k: int| 0 <= k < parts.len() implies !(#[trigger] parts[k]).contains(c) by {
            if k > 0 {
                assert(parts[k] == rest[k - 1]);
            }
        }
    } else {
        lemma_split(s, from, at + 1, c);
    }
}

/// The parts of a text between the occurrences of a character do not hold it, and with it
/// between each two of them are the text.
pub proof fn law_split(s: Seq<char>, c: char)
    ensures
        split_from(s, 0, 0, c).len() > 0,
        joined_by(split_from(s, 0, 0, c), c) == s,
        forall|k: int|
            0 <= k < split_from(s, 0, 0, c).len() ==> !(#[trigger] split_from(s, 0, 0, c)[k]).contains(
                c,
            ),
{
    lemma_split(s, 0, 0, c);
    assert(s.skip(0) =~= s);
}

/// The tags of a torrent are those between the commas.
pub proof fn law_row_tags(s: String)
    ensures
        joined_by(row_tags(Some(s)), ',') == s@,
        forall|k: int|
            0 <= k < row_tags(Some(s)).len() ==> !(#[trigger] row_tags(Some(s))[k]).contains(','),
        row_tags(None).len() == 0,
{
    law_split(s@, ',');
}

/// A row is left out where its files are damaged, and kept where they are not, in its place.
pub proof fn law_good_rows(rows: Seq<TorrentRow>, more: Seq<TorrentRow>)
    ensures
        good_rows(rows + more) == good_rows(rows) + good_rows(more),
        forall|i: int| 0 <= i < good_rows(rows).len() ==> (#[trigger] good_rows(rows)[i]).files is Some,
        (forall|i: int| 0 <= i < rows.len() ==> (#[trigger] rows[i]).files is Some) ==> good_rows(
            rows,
        ) == rows,
    decreases more.len(), rows.len(),
{
    if more.len() == 0 {
        assert(rows + more =~= rows);
        assert(good_rows(rows) + good_rows(more) =~= good_rows(rows));
        if rows.len() > 0 {
            law_good_rows(rows.drop_last(), more);
            assert(rows.drop_last().push(rows.last()) =~= rows);
            if forall|i: int| 0 <= i < rows.len() ==> (#[trigger] rows[i]).files is Some {
                assert forall|i: int| 0 <= i < rows.drop_last().len() implies (
                #[trigger] rows.drop_last()[i]).files is Some by {
                    assert(rows[i].files is Some);
                }
                assert(rows[rows.len() - 1].files is Some);
            }
        }
    } else {
        law_good_rows(rows, more.drop_last());
        assert((rows + more).drop_last() =~= rows + more.drop_last());
        assert(good_rows(rows + more) =~= good_rows(rows) + good_rows(more));
    }
}

/// The tags that are kept are those that a torrent has, in their order and without the white
/// space at their ends, where anything is left; a torrent without any has one that says so.
pub proof fn law_kept_tags(tags: Seq<Seq<char>>)
    ensures
        trimmed_tags(tags).len() <= tags.len(),
        forall|i: int|
            0 <= i < trimmed_tags(tags).len() ==> (#[trigger] trimmed_tags(tags)[i]).len() > 0,
        (forall|i: int| 0 <= i < tags.len() ==> trimmed_text(#[trigger] tags[i]).len() > 0)
            ==> trimmed_tags(tags).len() == tags.len() && forall|i: int|
            0 <= i < tags.len() ==> trimmed_tags(tags)[i] == trimmed_text(#[trigger] tags[i]),
        tags.len() > 0 ==> kept_tags(tags) == trimmed_tags(tags),
        kept_tags(Seq::empty()) == seq!["other"@],
    decreases tags.len(),
{
    reveal_strlit("other");
    reveal_with_fuel(trimmed_tags, 2);
    let other = seq!["other"@];
    assert(other.drop_last() =~= Seq::<Seq<char>>::empty());
    assert(trimmed_text("other"@) == "other"@);
    assert(kept_tags(Seq::empty()) =~= other);
    if tags.len() > 0 {
        law_kept_tags(tags.drop_last());
        if forall|i: int| 0 <= i < tags.len() ==> trimmed_text(#[trigger] tags[i]).len() > 0 {
            assert forall|i: int| 0 <= i < tags.drop_last().len() implies trimmed_text(
                #[trigger] tags.drop_last()[i],
            ).len() > 0 && tags.drop_last()[i] == tags[i] by {
                assert(trimmed_text(tags[i]).len() > 0);
            }
            assert(trimmed_text(tags[tags.len() - 1]).len() > 0);
            assert forall|i: int| 0 <= i < tags.len() implies trimmed_tags(tags)[i] == trimmed_text(
                #[trigger] tags[i],
            ) by {
                if i < tags.len() - 1 {
                    assert(tags.drop_last()[i] == tags[i]);
                }
            }
        }
    }
}

/// A record has the size of its files together.
pub proof fn law_record_size(record: TorrentRecord, v: Value)
    requires
        record_of(record, v),
    ensures
        record.size == total_size(record.files@),
{
    lemma_sizes(record.files@);
}

/// A torrent has what its row has: the hash, the name, the size, the files, the time at which
/// it was added, and the tags between the commas.
pub proof fn law_info_of_row(info: TorrentInfo, row: TorrentRow)
    requires
        info_of_row(info, row),
    ensures
        info.hash@ == row.hash@,
        info.name@ == row.name@,
        info.size == row.size,
        row.files matches Some(files) && files == info.files,
        info.added@ == row.added@,
        row.tags matches Some(tags) ==> joined_by(tag_views(info.tags@), ',') == tags@,
        row.tags is None ==> info.tags@.len() == 0,
{
    if let Some(tags) = row.tags {
        law_row_tags(tags);
    } else {
        assert(tag_views(info.tags@).len() == 0);
    }
}

/// A record has the digest of the info dictionary, the name of the torrent, and the paths and
/// lengths of its files.
pub proof fn law_record(record: TorrentRecord, v: Value)
    requires
        record_of(record, v),
    ensures
        field(v, text("info")) matches Some(info) && record.hash@ == sha1_digest(encode(info)),
        torrent_name(v) == Some(record.name@),
        record.files@.len() == all_files(v).len(),
        forall|i: int|
            0 <= i < record.files@.len() ==> (#[trigger] record.files@[i]).name@ == all_files(v)[i].0
                && record.files@[i].size == all_files(v)[i].1,
{
    assert forall|i: int| 0 <= i < record.files@.len() implies (
    #[trigger] record.files@[i]).name@ == all_files(v)[i].0 && record.files@[i].size == all_files(
        v,
    )[i].1 by {
        assert(kept_files(record.files@)[i] == all_files(v)[i]);
    }
}

} // verus!

use dht_rs::bt::Torrent;
use dht_rs::kad::{IpAddr, SocketAddr};
use dht_rs::storage::{
    collect_results, escape_fts_query, make_record, pack, page_offset, search_plan,
    size_to_string, split, tags_to_keep, total_pages, unpack, SearchPlan, TorrentFile, TorrentRow,
};
use dht_rs::strings::trim;
use dht_rs::tags::{contains, generate_torrent_tags, sizes_fit, Category};
use dht_rs::tools::{parse_tool, ToolArguments, ToolRequest};
use dht_rs::utp::{
    ConnectPoll, ReadPoll, UtpSocketState, Wake, WriteCheck, WritePoll, UTP_CALLBACK, UTP_ERROR,
    UTP_STATE,
};
use dht_rs::NodeId;

fn file(name: &str, size: u64) -> TorrentFile {
    TorrentFile { name: name.to_string(), size }
}

#[test]
fn packed_data_comes_back() {
    let data = vec![7u8; 5000];
    let packed = pack(&data);
    assert!(packed.len() < data.len());
    assert_eq!(unpack(&packed), Some(data));
    assert_eq!(unpack(b"rubbish"), None);
    assert_eq!(unpack(&pack(b"")), Some(vec![]));
}

#[test]
fn plans_of_searches() {
    assert_eq!(search_plan(" * "), SearchPlan::All);
    assert_eq!(search_plan("ab"), SearchPlan::Like);
    assert_eq!(search_plan("  ab  "), SearchPlan::Like);
    assert_eq!(search_plan("a-b-c"), SearchPlan::Like);
    assert_eq!(search_plan("ubuntu"), SearchPlan::Match);
    assert_eq!(search_plan("简体中"), SearchPlan::Match);
    assert_eq!(escape_fts_query("ubuntu"), Some("\"ubuntu\"".to_string()));
    for text in ["a\"", "a:", "*", "-", "[", "x]"] {
        assert_eq!(escape_fts_query(text), None);
    }
}

#[test]
fn pages() {
    assert_eq!(page_offset(0), 0);
    assert_eq!(page_offset(1), 0);
    assert_eq!(page_offset(3), 50);
    assert_eq!(total_pages(0), 0);
    assert_eq!(total_pages(25), 1);
    assert_eq!(total_pages(26), 2);
}

#[test]
fn sizes_in_words() {
    assert_eq!(size_to_string(0), "0 bytes");
    assert_eq!(size_to_string(1023), "1023 bytes");
    assert_eq!(size_to_string(1024), "1 KB");
    assert_eq!(size_to_string(5 * 1024 * 1024 - 1), "4 MB");
    assert_eq!(size_to_string(3 << 30), "3 GB");
}

fn row(files: Option<Vec<TorrentFile>>, tags: Option<&str>) -> TorrentRow {
    TorrentRow {
        hash: [4; 20],
        name: "name".to_string(),
        size: 9,
        files,
        added: "today".to_string(),
        tags: tags.map(|s| s.to_string()),
        total: 40,
    }
}

#[test]
fn damaged_rows_are_left_out() {
    let list = collect_results(vec![
        row(Some(vec![file("a", 1)]), Some("x,y")),
        row(None, None),
        row(Some(vec![]), None),
    ]);
    assert_eq!(list.total, 39);
    assert_eq!(list.torrents.len(), 2);
    assert_eq!(list.torrents[0].tags, ["x", "y"]);
    assert_eq!(list.torrents[0].files, vec![file("a", 1)]);
    assert_eq!(list.torrents[0].hash, NodeId::new([4; 20]));
    assert!(list.torrents[1].tags.is_empty());
    assert_eq!(collect_results(vec![]).total, 0);
    assert_eq!(split("", ','), [""]);
    assert_eq!(split("a,,b,", ','), ["a", "", "b", ""]);
}

#[test]
fn categories_by_extensions() {
    let tags = generate_torrent_tags("name", &[file("dir/movie.MKV", 900), file("song.mp3", 100)]);
    assert_eq!(tags, ["video", "mp3"]);
    let tags = generate_torrent_tags("name", &[file("a.jpg", 5), file(".zip", 100)]);
    assert_eq!(tags, ["picture"]);
    assert!(generate_torrent_tags("name", &[file("readme", 5)]).is_empty());
    assert_eq!(generate_torrent_tags("name", &[file("empty.pdf", 0)]), ["book"]);
}

#[test]
fn categories_by_words() {
    let tags = generate_torrent_tags("some fitgirl repack", &[file("setup.exe", 100)]);
    assert_eq!(tags, ["game"]);
    let tags = generate_torrent_tags("x", &[file("Hentai 1080p FLAC.mkv", 1)]);
    assert_eq!(tags, ["adult", "1080p", "flac"]);
    let tags = generate_torrent_tags("fitgirl 18+ fitgirl repack", &[]);
    assert_eq!(tags, ["game", "adult"]);
    let tags = generate_torrent_tags("[桜都字幕组] x264 AVC 中文", &[]);
    assert_eq!(tags, ["x264", "chs", "anime"]);
    assert!(contains("简体中文".as_bytes(), "中文".as_bytes()));
    assert!(!contains(b"ab", b"abc"));
    assert_eq!(Category::Archive.name(), "archive");
}

#[test]
fn tags_that_are_kept() {
    assert_eq!(tags_to_keep("nothing", &[file("readme", 1)]), ["other"]);
    assert_eq!(tags_to_keep("x", &[file("a.iso", 1)]), ["software"]);
    assert!(sizes_fit(&[file("a", u64::MAX)]));
    assert!(!sizes_fit(&[file("a", u64::MAX), file("b", 1)]));
}

#[test]
fn records_of_torrents() {
    let bytes = b"d4:infod6:lengthi1000e4:name8:test.mkv12:piece lengthi16384eee";
    let torrent = Torrent::from_bytes(bytes).unwrap();
    let record = make_record(&torrent);
    assert_eq!(record.hash, torrent.info_hash());
    assert_eq!(record.name, "test.mkv");
    assert_eq!(record.size, 1000);
    assert_eq!(record.files, vec![file("test.mkv", 1000)]);
    assert_eq!(record.tags, ["video"]);
    assert_eq!(unpack(&record.data), Some(bytes.to_vec()));
}

fn arguments() -> ToolArguments {
    ToolArguments { address: None, target: None, info_hash: None }
}

#[test]
fn requests_to_tools() {
    let refused = |tool: &str, arguments: &ToolArguments| parse_tool(tool, arguments).unwrap_err();
    let address = SocketAddr::new(IpAddr::V4(1), 2);
    let hex = "0102030405060708090a0b0c0d0e0f1011121314".to_string();
    let id = NodeId::from_hex(&hex).unwrap();
    assert_eq!(refused("ping", &arguments()), "Missing address in json");
    let broken = ToolArguments { address: Some(Err("broken".to_string())), ..arguments() };
    assert_eq!(refused("ping", &broken), "broken");
    let good = ToolArguments {
        address: Some(Ok(address)),
        target: Some(hex.clone()),
        info_hash: Some(hex.clone()),
    };
    assert!(matches!(parse_tool("ping", &good), Ok(ToolRequest::Ping(a)) if a == address));
    assert!(matches!(
        parse_tool("sample_infohashes", &good),
        Ok(ToolRequest::SampleInfohashes(a, t)) if a == address && t == id
    ));
    assert!(matches!(parse_tool("get_peers", &good), Ok(ToolRequest::GetPeers(h)) if h == id));
    assert!(matches!(parse_tool("add_hash", &good), Ok(ToolRequest::AddHash(h)) if h == id));
    assert_eq!(refused("sample_infohashes", &arguments()), "Missing target in json");
    assert_eq!(refused("get_peers", &arguments()), "Missing info_hash in json");
    let wrong = ToolArguments {
        address: None,
        target: Some("xyz".to_string()),
        info_hash: Some("xyz".to_string()),
    };
    assert_eq!(refused("sample_infohashes", &wrong), "Invalid target");
    assert_eq!(refused("add_hash", &wrong), "Invalid info_hash");
    let no_address = ToolArguments { target: Some(hex), ..arguments() };
    assert_eq!(refused("sample_infohashes", &no_address), "Missing address in json");
    assert_eq!(refused("other", &arguments()), "Invalid tool");
}

#[test]
fn transport_connects_and_reads() {
    let mut state = UtpSocketState::new();
    assert_eq!(state.poll_connect(), ConnectPoll::Pending);
    assert_eq!(state.on_state_change(UTP_STATE::CONNECT), Wake { reader: false, writer: true });
    assert_eq!(state.poll_connect(), ConnectPoll::Connected);
    assert!(matches!(state.poll_read(4), ReadPoll::Pending));
    assert_eq!(state.on_read(b"abcdef"), Wake { reader: true, writer: false });
    assert!(matches!(state.poll_read(4), ReadPoll::Data(data) if data == b"abcd"));
    assert_eq!(state.on_state_change(UTP_STATE::EOF), Wake { reader: false, writer: false });
    assert!(matches!(state.poll_read(4), ReadPoll::Data(data) if data == b"ef"));
    assert!(matches!(state.poll_read(4), ReadPoll::Data(data) if data.is_empty()));
    assert_eq!(state.check_write(5), WriteCheck::Nothing);
}

#[test]
fn transport_writes_and_fails() {
    let mut state = UtpSocketState::new();
    state.accepted();
    assert_eq!(state.check_write(0), WriteCheck::Nothing);
    assert_eq!(state.check_write(5), WriteCheck::Write);
    assert_eq!(state.written(3), WritePoll::Written(3));
    assert_eq!(state.written(0), WritePoll::Pending);
    assert_eq!(state.written(-1), WritePoll::Refused);
    assert_eq!(state.on_state_change(UTP_STATE::WRITABLE), Wake { reader: false, writer: true });
    assert_eq!(state.on_error(UTP_ERROR::ETIMEDOUT), Wake { reader: false, writer: false });
    assert_eq!(state.check_write(5), WriteCheck::Failed(UTP_ERROR::ETIMEDOUT));
    assert!(matches!(state.poll_read(1), ReadPoll::Failed(UTP_ERROR::ETIMEDOUT)));
    assert_eq!(state.poll_connect(), ConnectPoll::Failed(UTP_ERROR::ETIMEDOUT));
    assert_eq!(UTP_ERROR::ETIMEDOUT.message(), "Timed out");
}

#[test]
fn numbers_of_the_transport() {
    assert_eq!(UTP_STATE::from_code(4), Some(UTP_STATE::DESTROYING));
    assert_eq!(UTP_STATE::from_code(0), None);
    assert_eq!(UTP_ERROR::from_code(1), Some(UTP_ERROR::ECONNRESET));
    assert_eq!(UTP_ERROR::from_code(3), None);
    assert_eq!(UTP_CALLBACK::SENDTO.code(), 15);
    assert_eq!(UTP_CALLBACK::handled(6), Some(UTP_CALLBACK::ON_STATE_CHANGE));
    assert_eq!(UTP_CALLBACK::handled(2), None);
}

#[test]
fn white_space_is_that_of_unicode() {
    for c in '\0'..=char::MAX {
        let text = c.to_string();
        assert_eq!(trim(&text), text.trim(), "{:?}", c);
    }
    for text in ["", " ", " \t\u{3000}a b\u{a0}\n", "a", "\u{2003}\u{200b} x"] {
        assert_eq!(trim(text), text.trim());
    }
}

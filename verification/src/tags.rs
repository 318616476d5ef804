//! Tags for torrents, by the names of their files.

use crate::bytes::{append_slice, bytes_equal, sub_slice, text, to_bytes};
use crate::storage::TorrentFile;
use crate::strings::{lowercase, lowercase_text, str_from_utf8};
use vstd::prelude::*;
use vstd::string::StringSliceAdditionalSpecFns;
use vstd::utf8::{decode_utf8, encode_utf8, valid_utf8};

verus! {

/// What a torrent is.
#[derive(Debug, PartialEq, Eq, Hash, Copy, Clone, Structural)]
pub enum Category {
    Video,
    Music,
    Book,
    Game,
    Picture,
    Software,
    Adult,
    Archive,
}

impl Category {
    /// The name of the category.
    pub open spec fn spec_name(self) -> Seq<char> {
        match self {
            Category::Adult => "adult"@,
            Category::Video => "video"@,
            Category::Music => "music"@,
            Category::Book => "book"@,
            Category::Picture => "picture"@,
            Category::Game => "game"@,
            Category::Software => "software"@,
            Category::Archive => "archive"@,
        }
    }

    /// The name of the category.
    pub fn name(&self) -> (r: &'static str)
        ensures
            r@ == self.spec_name(),
    {
        match *self {
            Category::Adult => "adult",
            Category::Video => "video",
            Category::Music => "music",
            Category::Book => "book",
            Category::Picture => "picture",
            Category::Game => "game",
            Category::Software => "software",
            Category::Archive => "archive",
        }
    }
}

/// All categories.
pub open spec fn categories() -> Seq<Category> {
    seq![
        Category::Video,
        Category::Music,
        Category::Book,
        Category::Game,
        Category::Picture,
        Category::Software,
        Category::Adult,
        Category::Archive,
    ]
}

/// All categories.
fn all_categories() -> (r: Vec<Category>)
    ensures
        r@ == categories(),
{
    let r: Vec<Category> = vec![
        Category::Video,
        Category::Music,
        Category::Book,
        Category::Game,
        Category::Picture,
        Category::Software,
        Category::Adult,
        Category::Archive,
    ];
    assert(r@ =~= categories());
    r
}

/// What the extensions of files say, and how much that counts.
pub open spec fn extension_rules() -> Seq<(&'static str, Category, u64)> {
    seq![
        ("mkv", Category::Video, 100),
        ("mp4", Category::Video, 95),
        ("avi", Category::Video, 90),
        ("ts", Category::Video, 100),
        ("mov", Category::Video, 90),
        ("wmv", Category::Video, 90),
        ("mp3", Category::Music, 100),
        ("flac", Category::Music, 100),
        ("wav", Category::Music, 100),
        ("ape", Category::Music, 100),
        ("ogg", Category::Music, 100),
        ("m4a", Category::Music, 100),
        ("iso", Category::Software, 100),
        ("exe", Category::Software, 80),
        ("apk", Category::Software, 80),
        ("pdf", Category::Book, 100),
        ("epub", Category::Book, 100),
        ("mobi", Category::Book, 100),
        ("jpg", Category::Picture, 20),
        ("png", Category::Picture, 20),
        ("gif", Category::Picture, 20),
        ("zip", Category::Archive, 10),
        ("rar", Category::Archive, 10),
    ]
}

/// What the extensions of files say, and how much that counts.
fn extension_table() -> (r: Vec<(&'static str, Category, u64)>)
    ensures
        r@ == extension_rules(),
        forall|i: int| 0 <= i < r@.len() ==> (#[trigger] r@[i]).2 <= 100,
{
    let r: Vec<(&'static str, Category, u64)> = vec![
        ("mkv", Category::Video, 100),
        ("mp4", Category::Video, 95),
        ("avi", Category::Video, 90),
        ("ts", Category::Video, 100),
        ("mov", Category::Video, 90),
        ("wmv", Category::Video, 90),
        ("mp3", Category::Music, 100),
        ("flac", Category::Music, 100),
        ("wav", Category::Music, 100),
        ("ape", Category::Music, 100),
        ("ogg", Category::Music, 100),
        ("m4a", Category::Music, 100),
        ("iso", Category::Software, 100),
        ("exe", Category::Software, 80),
        ("apk", Category::Software, 80),
        ("pdf", Category::Book, 100),
        ("epub", Category::Book, 100),
        ("mobi", Category::Book, 100),
        ("jpg", Category::Picture, 20),
        ("png", Category::Picture, 20),
        ("gif", Category::Picture, 20),
        ("zip", Category::Archive, 10),
        ("rar", Category::Archive, 10),
    ];
    assert(r@ =~= extension_rules());
    r
}

/// What words in the names of files say, and how much that counts.
pub open spec fn content_rules() -> Seq<(&'static str, Category, u64)> {
    seq![
        ("episode", Category::Video, 50),
        ("season", Category::Video, 50),
        ("s01e01", Category::Video, 60),
        ("soundtrack", Category::Music, 50),
        ("ost", Category::Music, 50),
        ("album", Category::Music, 40),
        ("fitgirl", Category::Game, 500),
        ("repack", Category::Game, 50),
        ("同人誌", Category::Book, 50),
        ("sex", Category::Adult, 500),
        ("ntr", Category::Adult, 500),
        ("porn", Category::Adult, 500),
        ("無修正", Category::Adult, 500),
        ("无修正", Category::Adult, 500),
        ("decensored", Category::Adult, 500),
        ("hentai", Category::Adult, 500),
        ("18+", Category::Adult, 500),
        ("屌", Category::Adult, 500),
        ("内射", Category::Adult, 500),
        ("自慰", Category::Adult, 500),
    ]
}

/// What words in the names of files say, and how much that counts.
fn content_table() -> (r: Vec<(&'static str, Category, u64)>)
    ensures
        r@ == content_rules(),
        r@.len() == 20,
        forall|i: int| 0 <= i < r@.len() ==> (#[trigger] r@[i]).2 <= 500,
{
    let r: Vec<(&'static str, Category, u64)> = vec![
        ("episode", Category::Video, 50),
        ("season", Category::Video, 50),
        ("s01e01", Category::Video, 60),
        ("soundtrack", Category::Music, 50),
        ("ost", Category::Music, 50),
        ("album", Category::Music, 40),
        ("fitgirl", Category::Game, 500),
        ("repack", Category::Game, 50),
        ("同人誌", Category::Book, 50),
        ("sex", Category::Adult, 500),
        ("ntr", Category::Adult, 500),
        ("porn", Category::Adult, 500),
        ("無修正", Category::Adult, 500),
        ("无修正", Category::Adult, 500),
        ("decensored", Category::Adult, 500),
        ("hentai", Category::Adult, 500),
        ("18+", Category::Adult, 500),
        ("屌", Category::Adult, 500),
        ("内射", Category::Adult, 500),
        ("自慰", Category::Adult, 500),
    ];
    assert(r@ =~= content_rules());
    r
}

/// Words in the names of files, and the tags that they stand for.
pub open spec fn metadata_rules() -> Seq<(&'static str, &'static str)> {
    seq![
        ("1080p", "1080p"),
        ("1080i", "1080p"),
        ("720p", "720p"),
        ("720i", "720p"),
        ("2160p", "4k"),
        ("4k", "4k"),
        ("uhd", "4k"),
        ("bluray", "bluray"),
        ("blu-ray", "bluray"),
        ("bdrip", "bluray"),
        ("web-dl", "web"),
        ("webrip", "web"),
        ("dl版", "web"),
        ("hdtv", "hdtv"),
        ("x264", "x264"),
        ("h264", "x264"),
        ("avc", "x264"),
        ("x265", "x265"),
        ("h265", "x265"),
        ("hevc", "x265"),
        ("aac", "aac"),
        ("dts", "dts"),
        ("flac", "flac"),
        ("mp3", "mp3"),
        ("cht", "cht"),
        ("繁體", "cht"),
        ("chs", "chs"),
        ("简体", "chs"),
        ("汉化", "chs"),
        ("中文", "chs"),
        ("chinese", "chs"),
        ("nekomoe", "anime"),
        ("uha-wings", "anime"),
        ("airota", "anime"),
        ("mabors", "anime"),
        ("xksub", "anime"),
        ("dmg", "anime"),
        ("sakurasub", "anime"),
        ("sweetsub", "anime"),
        ("lolihouse", "anime"),
        ("vcb-studio", "anime"),
        ("philo-raws", "anime"),
        ("wanko", "anime"),
        ("sumisora", "anime"),
        ("kamigami", "anime"),
        ("gensho", "anime"),
        ("ktxp", "anime"),
        ("flsnow", "anime"),
        ("fysub", "anime"),
        ("lilith-raws", "anime"),
        ("moozzi2", "anime"),
        ("nc-raws", "anime"),
        ("ohys-raws", "anime"),
        ("baha", "anime"),
        ("b-global", "anime"),
        ("bilibili", "anime"),
        ("netflix", "anime"),
        ("crunchyroll", "anime"),
        ("桜都字幕组", "anime"),
    ]
}

/// Words in the names of files, and the tags that they stand for.
fn metadata_table() -> (r: Vec<(&'static str, &'static str)>)
    ensures
        r@ == metadata_rules(),
{
    let r: Vec<(&'static str, &'static str)> = vec![
        ("1080p", "1080p"),
        ("1080i", "1080p"),
        ("720p", "720p"),
        ("720i", "720p"),
        ("2160p", "4k"),
        ("4k", "4k"),
        ("uhd", "4k"),
        ("bluray", "bluray"),
        ("blu-ray", "bluray"),
        ("bdrip", "bluray"),
        ("web-dl", "web"),
        ("webrip", "web"),
        ("dl版", "web"),
        ("hdtv", "hdtv"),
        ("x264", "x264"),
        ("h264", "x264"),
        ("avc", "x264"),
        ("x265", "x265"),
        ("h265", "x265"),
        ("hevc", "x265"),
        ("aac", "aac"),
        ("dts", "dts"),
        ("flac", "flac"),
        ("mp3", "mp3"),
        ("cht", "cht"),
        ("繁體", "cht"),
        ("chs", "chs"),
        ("简体", "chs"),
        ("汉化", "chs"),
        ("中文", "chs"),
        ("chinese", "chs"),
        ("nekomoe", "anime"),
        ("uha-wings", "anime"),
        ("airota", "anime"),
        ("mabors", "anime"),
        ("xksub", "anime"),
        ("dmg", "anime"),
        ("sakurasub", "anime"),
        ("sweetsub", "anime"),
        ("lolihouse", "anime"),
        ("vcb-studio", "anime"),
        ("philo-raws", "anime"),
        ("wanko", "anime"),
        ("sumisora", "anime"),
        ("kamigami", "anime"),
        ("gensho", "anime"),
        ("ktxp", "anime"),
        ("flsnow", "anime"),
        ("fysub", "anime"),
        ("lilith-raws", "anime"),
        ("moozzi2", "anime"),
        ("nc-raws", "anime"),
        ("ohys-raws", "anime"),
        ("baha", "anime"),
        ("b-global", "anime"),
        ("bilibili", "anime"),
        ("netflix", "anime"),
        ("crunchyroll", "anime"),
        ("桜都字幕组", "anime"),
    ];
    assert(r@ =~= metadata_rules());
    r
}

/// Whether bytes occur in others.
pub open spec fn occurs(s: Seq<u8>, word: Seq<u8>) -> bool {
    exists|i: int|
        0 <= i <= s.len() - word.len() && #[trigger] s.subrange(i, i + word.len()) == word
}

/// Whether bytes occur in others.
pub fn contains(s: &[u8], word: &[u8]) -> (r: bool)
    ensures
        r == occurs(s@, word@),
{
    if word.len() > s.len() {
        return false;
    }
    let last: usize = s.len() - word.len();
    let mut i: usize = 0;
    while i <= last
        invariant
            last == s@.len() - word@.len(),
            s@.len() <= usize::MAX,
            i <= last + 1,
            forall|j: int| 0 <= j < i ==> #[trigger] s@.subrange(j, j + word@.len()) != word@,
        decreases last + 1 - i,
    {
        if bytes_equal(sub_slice(s, i, i + word.len()), word) {
            return true;
        }
        if i == last {
            return false;
        }
        i += 1;
    }
    false
}

/// Where the part behind the last occurrence of a byte starts.
pub open spec fn behind_last(s: Seq<u8>, b: u8) -> int
    decreases s.len(),
{
    if s.len() == 0 {
        0
    } else if s.last() == b {
        s.len() as int
    } else {
        behind_last(s.drop_last(), b)
    }
}

/// Where the part behind the last occurrence of a byte starts.
fn find_last(s: &[u8], end: usize, b: u8) -> (r: usize)
    requires
        end <= s@.len(),
    ensures
        r == behind_last(s@.take(end as int), b),
        r <= end,
{
    let mut i: usize = end;
    while i > 0
        invariant
            i <= end <= s@.len(),
            behind_last(s@.take(end as int), b) == behind_last(s@.take(i as int), b),
        decreases i,
    {
        assert(s@.take(i as int).drop_last() =~= s@.take(i - 1));
        if s[i - 1] == b {
            return i;
        }
        i -= 1;
    }
    0
}

/// The last part of a path that names something: parts that are empty or a dot name
/// nothing, and two dots name no file.
pub open spec fn file_name(path: Seq<u8>) -> Option<Seq<u8>>
    decreases path.len(),
{
    let i = behind_last(path, '/' as u8);
    let part = path.skip(i);
    if part.len() == 0 || part == text(".") {
        if 0 < i <= path.len() {
            file_name(path.take(i - 1))
        } else {
            None
        }
    } else if part == text("..") {
        None
    } else {
        Some(part)
    }
}

/// Where the part of a path that names a file stands.
fn find_file_name(path: &[u8]) -> (r: Option<(usize, usize)>)
    ensures
        match r {
            Some((from, to)) => from <= to <= path@.len() && file_name(path@) == Some(
                path@.subrange(from as int, to as int),
            ),
            None => file_name(path@) is None,
        },
{
    let mut end: usize = path.len();
    assert(path@.take(end as int) =~= path@);
    loop
        invariant
            end <= path@.len(),
            file_name(path@) == file_name(path@.take(end as int)),
        decreases end,
    {
        let from: usize = find_last(path, end, '/' as u8);
        let part: &[u8] = sub_slice(path, from, end);
        assert(part@ =~= path@.take(end as int).skip(from as int));
        if part.len() == 0 || bytes_equal(part, ".".as_bytes()) {
            if from == 0 {
                return None;
            }
            assert(path@.take(end as int).take(from - 1) =~= path@.take(from - 1));
            end = from - 1;
            continue ;
        }
        if bytes_equal(part, "..".as_bytes()) {
            return None;
        }
        return Some((from, end));
    }
}

/// The extension of the name of a file: what stands behind the last dot, where that is
/// not the first character.
pub open spec fn extension(name: Seq<u8>) -> Option<Seq<u8>> {
    let i = behind_last(name, '.' as u8);
    if i <= 1 {
        None
    } else {
        Some(name.skip(i))
    }
}

/// An ASCII letter in lower case; every other byte as it is.
pub open spec fn lower_byte(b: u8) -> u8 {
    if 65 <= b <= 90 {
        (b + 32) as u8
    } else {
        b
    }
}

/// Whether bytes are the same up to the case of ASCII letters.
pub open spec fn same_letters(a: Seq<u8>, b: Seq<u8>) -> bool {
    a.len() == b.len() && forall|i: int|
        0 <= i < a.len() ==> lower_byte(#[trigger] a[i]) == lower_byte(b[i])
}

fn to_lower(b: u8) -> (r: u8)
    ensures
        r == lower_byte(b),
{
    if 65 <= b && b <= 90 {
        b + 32
    } else {
        b
    }
}

/// Whether bytes are the same up to the case of ASCII letters.
fn eq_ignore_case(a: &[u8], b: &[u8]) -> (r: bool)
    ensures
        r == same_letters(a@, b@),
{
    if a.len() != b.len() {
        return false;
    }
    let mut i: usize = 0;
    while i < a.len()
        invariant
            a@.len() == b@.len(),
            i <= a@.len(),
            forall|j: int| 0 <= j < i ==> lower_byte(#[trigger] a@[j]) == lower_byte(b@[j]),
        decreases a@.len() - i,
    {
        if to_lower(a[i]) != to_lower(b[i]) {
            return false;
        }
        i += 1;
    }
    true
}

/// What the first of the rules that fits an extension says.
pub open spec fn rule_for(rules: Seq<(&'static str, Category, u64)>, ext: Seq<u8>) -> Option<
    (Category, u64),
>
    decreases rules.len(),
{
    if rules.len() == 0 {
        None
    } else if same_letters(text(rules[0].0), ext) {
        Some((rules[0].1, rules[0].2))
    } else {
        rule_for(rules.skip(1), ext)
    }
}

/// What the extension of a file says.
pub open spec fn file_hit(name: Seq<char>) -> Option<(Category, u64)> {
    match file_name(encode_utf8(name)) {
        Some(part) => match extension(part) {
            Some(ext) => rule_for(extension_rules(), ext),
            None => None,
        },
        None => None,
    }
}

/// What the extension of a file says.
fn find_file_hit(
    table: &Vec<(&'static str, Category, u64)>,
    name: &String,
) -> (r: Option<(Category, u64)>)
    requires
        table@ == extension_rules(),
        forall|i: int| 0 <= i < table@.len() ==> (#[trigger] table@[i]).2 <= 100,
    ensures
        r == file_hit(name@),
        r matches Some((_, score)) ==> score <= 100,
{
    let path: &[u8] = name.as_str().as_bytes();
    let (from, to): (usize, usize) = match find_file_name(path) {
        Some(range) => range,
        None => {
            return None;
        },
    };
    let part: &[u8] = sub_slice(path, from, to);
    assert(part@.take(part@.len() as int) =~= part@);
    let dot: usize = find_last(part, part.len(), '.' as u8);
    if dot <= 1 {
        return None;
    }
    let ext: &[u8] = sub_slice(part, dot, part.len());
    assert(ext@ =~= part@.skip(dot as int));
    let mut i: usize = 0;
    assert(table@.skip(0) =~= table@);
    while i < table.len()
        invariant
            i <= table@.len(),
            forall|i: int| 0 <= i < table@.len() ==> (#[trigger] table@[i]).2 <= 100,
            rule_for(table@, ext@) == rule_for(table@.skip(i as int), ext@),
            file_hit(name@) == rule_for(table@, ext@),
        decreases table@.len() - i,
    {
        let ghost rest = table@.skip(i as int);
        assert(rest[0] == table@[i as int]);
        assert(rest.skip(1) =~= table@.skip(i + 1));
        if eq_ignore_case(table[i].0.as_bytes(), ext) {
            return Some((table[i].1, table[i].2));
        }
        i += 1;
    }
    None
}

/// The sizes of files, added up.
pub open spec fn total_size(files: Seq<TorrentFile>) -> nat
    decreases files.len(),
{
    if files.len() == 0 {
        0
    } else {
        total_size(files.drop_last()) + files.last().size as nat
    }
}

/// The name of a torrent, and behind it the names of its files in lower case with a space
/// behind each.
pub open spec fn combined_name(name: Seq<char>, files: Seq<TorrentFile>) -> Seq<u8>
    decreases files.len(),
{
    if files.len() == 0 {
        encode_utf8(name)
    } else {
        let front = combined_name(name, files.drop_last());
        match file_name(encode_utf8(files.last().name@)) {
            Some(part) => if valid_utf8(part) {
                front + encode_utf8(lowercase_text(decode_utf8(part))) + seq![32u8]
            } else {
                front
            },
            None => front,
        }
    }
}

/// The name of a torrent, and behind it the names of its files.
fn combine_names(name: &str, files: &[TorrentFile]) -> (r: Vec<u8>)
    ensures
        r@ == combined_name(name@, files@),
{
    let mut r: Vec<u8> = to_bytes(name);
    let mut i: usize = 0;
    assert(files@.take(0) =~= seq![]);
    while i < files.len()
        invariant
            i <= files@.len(),
            r@ == combined_name(name@, files@.take(i as int)),
        decreases files@.len() - i,
    {
        assert(files@.take(i + 1).drop_last() =~= files@.take(i as int));
        let ghost before = r@;
        let path: &[u8] = files[i].name.as_str().as_bytes();
        if let Some((from, to)) = find_file_name(path) {
            if let Some(part) = str_from_utf8(sub_slice(path, from, to)) {
                append_slice(&mut r, lowercase(part).as_str().as_bytes());
                r.push(32);
            }
        }
        proof {
            if let Some(part) = file_name(encode_utf8(files@[i as int].name@)) {
                if valid_utf8(part) {
                    assert(r@ =~= before + encode_utf8(lowercase_text(decode_utf8(part)))
                        + seq![32u8]);
                }
            }
        }
        i += 1;
    }
    assert(files@.take(i as int) =~= files@);
    r
}

/// How much the files say for a category, counted in the sizes of the files; nothing where
/// no file says anything for it.
pub open spec fn file_score(files: Seq<TorrentFile>, c: Category) -> Option<nat>
    decreases files.len(),
{
    if files.len() == 0 {
        None
    } else {
        let front = file_score(files.drop_last(), c);
        match file_hit(files.last().name@) {
            Some((category, score)) => if category == c {
                Some(added(front, (score * files.last().size) as nat))
            } else {
                front
            },
            None => front,
        }
    }
}

/// A score with something added to it.
pub open spec fn added(score: Option<nat>, n: nat) -> nat {
    match score {
        Some(m) => m + n,
        None => n,
    }
}

/// How much the files and the first of the rules on words say for a category, as a
/// multiple of one part in `total`; nothing where none says anything for it.
pub open spec fn category_score(
    files: Seq<TorrentFile>,
    name: Seq<u8>,
    rules: Seq<(&'static str, Category, u64)>,
    total: nat,
    c: Category,
) -> Option<nat>
    decreases rules.len(),
{
    if rules.len() == 0 {
        file_score(files, c)
    } else {
        let front = category_score(files, name, rules.drop_last(), total, c);
        let (word, category, bonus) = rules.last();
        if category == c && occurs(name, text(word)) {
            Some(added(front, (bonus * total) as nat))
        } else {
            front
        }
    }
}

/// How much the files and the words in their names say for a category.
fn score_of(
    files: &[TorrentFile],
    name: &[u8],
    total: u64,
    c: Category,
) -> (r: Option<u128>)
    requires
        total_size(files@) <= total,
    ensures
        match r {
            Some(score) => category_score(files@, name@, content_rules(), total as nat, c) == Some(
                score as nat,
            ),
            None => category_score(files@, name@, content_rules(), total as nat, c) is None,
        },
{
    let extensions = extension_table();
    let mut score: Option<u128> = None;
    let mut i: usize = 0;
    assert(files@.take(0) =~= seq![]);
    while i < files.len()
        invariant
            extensions@ == extension_rules(),
            forall|k: int| 0 <= k < extensions@.len() ==> (#[trigger] extensions@[k]).2 <= 100,
            i <= files@.len(),
            total_size(files@) <= total,
            opt_nat(score) == file_score(files@.take(i as int), c),
            score matches Some(s) ==> s <= 100 * total_size(files@.take(i as int)),
        decreases files@.len() - i,
    {
        proof {
            assert(files@.take(i + 1).drop_last() =~= files@.take(i as int));
            lemma_total_prefix(files@, i + 1);
        }
        if let Some((category, base)) = find_file_hit(&extensions, &files[i].name) {
            if category == c {
                let size: u64 = files[i].size;
                assert(base * size <= 100 * size) by (nonlinear_arith)
                    requires
                        base <= 100,
                ;
                let part: u128 = base as u128 * size as u128;
                score = match score {
                    Some(s) => Some(s + part),
                    None => Some(part),
                };
            }
        }
        i += 1;
    }
    assert(files@.take(i as int) =~= files@);
    let rules = content_table();
    let mut k: usize = 0;
    assert(rules@.take(0) =~= seq![]);
    while k < rules.len()
        invariant
            rules@ == content_rules(),
            rules@.len() == 20,
            forall|j: int| 0 <= j < rules@.len() ==> (#[trigger] rules@[j]).2 <= 500,
            k <= rules@.len(),
            opt_nat(score) == category_score(
                files@,
                name@,
                rules@.take(k as int),
                total as nat,
                c,
            ),
            score matches Some(s) ==> s <= (100 + 500 * k) * total,
        decreases rules@.len() - k,
    {
        assert(rules@.take(k + 1).drop_last() =~= rules@.take(k as int));
        assert((100 + 500 * k) * total + 500 * total == (100 + 500 * (k + 1)) * total
            && (100 + 500 * (k + 1)) * total <= 20_000 * total) by (nonlinear_arith)
            requires
                k < 20,
        ;
        if rules[k].1 == c && contains(name, rules[k].0.as_bytes()) {
            let bonus: u64 = rules[k].2;
            assert(bonus * total <= 500 * total) by (nonlinear_arith)
                requires
                    bonus <= 500,
            ;
            let part: u128 = bonus as u128 * total as u128;
            score = match score {
                Some(s) => Some(s + part),
                None => Some(part),
            };
        }
        k += 1;
    }
    assert(rules@.take(k as int) =~= rules@);
    score
}

/// A score as a natural number.
pub open spec fn opt_nat(score: Option<u128>) -> Option<nat> {
    match score {
        Some(s) => Some(s as nat),
        None => None,
    }
}

/// The first files are not larger than all.
proof fn lemma_total_prefix(files: Seq<TorrentFile>, n: int)
    requires
        0 <= n <= files.len(),
    ensures
        total_size(files.take(n)) <= total_size(files),
    decreases files.len() - n,
{
    if n < files.len() {
        lemma_total_prefix(files, n + 1);
        assert(files.take(n + 1).drop_last() =~= files.take(n));
    } else {
        assert(files.take(n) =~= files);
    }
}

/// The category for which most is said, of the first ones; the first of them where there
/// are several.
pub open spec fn best_category(
    files: Seq<TorrentFile>,
    name: Seq<u8>,
    total: nat,
    n: nat,
) -> Option<Category>
    decreases n,
{
    if n == 0 {
        None
    } else {
        let front = best_category(files, name, total, (n - 1) as nat);
        let c = categories()[n - 1];
        match (category_score(files, name, content_rules(), total, c), front) {
            (Some(score), Some(best)) => if category_score(
                files,
                name,
                content_rules(),
                total,
                best,
            )->Some_0 < score {
                Some(c)
            } else {
                front
            },
            (Some(_), None) => Some(c),
            (None, _) => front,
        }
    }
}

/// Something is said for the category for which most is said, and for no other one more;
/// there is such a category where something is said for any.
pub proof fn law_best_category(
    files: Seq<TorrentFile>,
    name: Seq<u8>,
    total: nat,
    n: nat,
    other: int,
)
    requires
        n <= categories().len(),
        0 <= other < n,
    ensures
        ({
            let best = best_category(files, name, total, n);
            let score = category_score(files, name, content_rules(), total, categories()[other]);
            &&& score is Some ==> best is Some
            &&& best matches Some(c) ==> {
                let top = category_score(files, name, content_rules(), total, c);
                top is Some && (score is Some ==> score->Some_0 <= top->Some_0)
            }
        }),
    decreases n,
{
    if other < n - 1 {
        law_best_category(files, name, total, (n - 1) as nat, other);
    } else if n > 1 {
        law_best_category(files, name, total, (n - 1) as nat, 0);
    }
}

/// Tags with another one, unless it is there.
pub open spec fn with_tag(tags: Seq<Seq<char>>, tag: Seq<char>) -> Seq<Seq<char>> {
    if tags.contains(tag) {
        tags
    } else {
        tags.push(tag)
    }
}

/// Tags with those of the first of the rules whose words occur in the names.
pub open spec fn with_metadata(
    tags: Seq<Seq<char>>,
    name: Seq<u8>,
    rules: Seq<(&'static str, &'static str)>,
) -> Seq<Seq<char>>
    decreases rules.len(),
{
    if rules.len() == 0 {
        tags
    } else {
        let front = with_metadata(tags, name, rules.drop_last());
        if occurs(name, text(rules.last().0)) {
            with_tag(front, rules.last().1@)
        } else {
            front
        }
    }
}

/// The size in parts of which scores are counted.
pub open spec fn score_unit(files: Seq<TorrentFile>) -> nat {
    if total_size(files) == 0 {
        1
    } else {
        total_size(files)
    }
}

/// The tags of a torrent: the category for which most is said, the one for adults where
/// enough is said for it, and those for the words in the names.
pub open spec fn torrent_tags(name: Seq<char>, files: Seq<TorrentFile>) -> Seq<Seq<char>> {
    let all = combined_name(name, files);
    let total = score_unit(files);
    let tags = match best_category(files, all, total, 8) {
        Some(c) => seq![c.spec_name()],
        None => seq![],
    };
    let tags = match category_score(files, all, content_rules(), total, Category::Adult) {
        Some(score) => if score > 100 * total {
            with_tag(tags, Category::Adult.spec_name())
        } else {
            tags
        },
        None => tags,
    };
    with_metadata(tags, all, metadata_rules())
}

/// Texts as their characters.
pub open spec fn tag_views(tags: Seq<String>) -> Seq<Seq<char>> {
    Seq::new(tags.len(), |i: int| tags[i]@)
}

/// Adds a tag, unless it is there.
fn add_tag(tags: &mut Vec<String>, tag: &str)
    ensures
        tag_views(final(tags)@) == with_tag(tag_views(old(tags)@), tag@),
{
    let text: String = tag.to_owned();
    let mut i: usize = 0;
    while i < tags.len()
        invariant
            i <= tags@.len(),
            *tags == *old(tags),
            text@ == tag@,
            forall|j: int| 0 <= j < i ==> #[trigger] tag_views(tags@)[j] != tag@,
        decreases tags@.len() - i,
    {
        if tags[i] == text {
            assert(tag_views(tags@)[i as int] == tag@);
            return;
        }
        i += 1;
    }
    assert(!tag_views(tags@).contains(tag@));
    tags.push(text);
    assert(tag_views(tags@) =~= tag_views(old(tags)@).push(tag@));
}

/// The sizes of files, added up.
fn sum_sizes(files: &[TorrentFile]) -> (r: u64)
    requires
        total_size(files@) <= u64::MAX,
    ensures
        r == total_size(files@),
{
    let mut sum: u64 = 0;
    let mut i: usize = 0;
    assert(files@.take(0) =~= seq![]);
    while i < files.len()
        invariant
            i <= files@.len(),
            total_size(files@) <= u64::MAX,
            sum == total_size(files@.take(i as int)),
        decreases files@.len() - i,
    {
        proof {
            assert(files@.take(i + 1).drop_last() =~= files@.take(i as int));
            lemma_total_prefix(files@, i + 1);
        }
        sum += files[i].size;
        i += 1;
    }
    assert(files@.take(i as int) =~= files@);
    sum
}

/// Whether the sizes of files, added up, are a number of 64 bits.
pub fn sizes_fit(files: &[TorrentFile]) -> (r: bool)
    ensures
        r == (total_size(files@) <= u64::MAX),
{
    let mut sum: u64 = 0;
    let mut i: usize = 0;
    assert(files@.take(0) =~= seq![]);
    while i < files.len()
        invariant
            i <= files@.len(),
            sum == total_size(files@.take(i as int)),
        decreases files@.len() - i,
    {
        proof {
            assert(files@.take(i + 1).drop_last() =~= files@.take(i as int));
            lemma_total_prefix(files@, i + 1);
        }
        match sum.checked_add(files[i].size) {
            Some(s) => {
                sum = s;
            },
            None => {
                return false;
            },
        }
        i += 1;
    }
    assert(files@.take(i as int) =~= files@);
    true
}

/// The tags of a torrent, by its name and its files.
pub fn generate_torrent_tags(name: &str, files: &[TorrentFile]) -> (r: Vec<String>)
    requires
        total_size(files@) <= u64::MAX,
    ensures
        tag_views(r@) == torrent_tags(name@, files@),
{
    let sum: u64 = sum_sizes(files);
    let total: u64 = if sum == 0 {
        1
    } else {
        sum
    };
    let all: Vec<u8> = combine_names(name, files);
    let list = all_categories();
    let mut best: Option<(Category, u128)> = None;
    let mut i: usize = 0;
    while i < list.len()
        invariant
            list@ == categories(),
            i <= list@.len(),
            total == score_unit(files@),
            total_size(files@) <= total,
            match best {
                Some((c, score)) => {
                    &&& best_category(files@, all@, total as nat, i as nat) == Some(c)
                    &&& category_score(files@, all@, content_rules(), total as nat, c) == Some(
                        score as nat,
                    )
                },
                None => best_category(files@, all@, total as nat, i as nat) is None,
            },
        decreases list@.len() - i,
    {
        if let Some(score) = score_of(files, all.as_slice(), total, list[i]) {
            let better: bool = match best {
                Some((_, top)) => top < score,
                None => true,
            };
            if better {
                best = Some((list[i], score));
            }
        }
        i += 1;
    }
    let mut tags: Vec<String> = Vec::new();
    if let Some((c, _)) = best {
        tags.push(c.name().to_owned());
        assert(tag_views(tags@) =~= seq![c.spec_name()]);
    } else {
        assert(tag_views(tags@) =~= seq![]);
    }
    if let Some(score) = score_of(files, all.as_slice(), total, Category::Adult) {
        if score > 100 * total as u128 {
            add_tag(&mut tags, Category::Adult.name());
        }
    }
    let rules = metadata_table();
    let ghost before = tag_views(tags@);
    let mut k: usize = 0;
    assert(rules@.take(0) =~= seq![]);
    while k < rules.len()
        invariant
            k <= rules@.len(),
            tag_views(tags@) == with_metadata(before, all@, rules@.take(k as int)),
        decreases rules@.len() - k,
    {
        assert(rules@.take(k + 1).drop_last() =~= rules@.take(k as int));
        if contains(all.as_slice(), rules[k].0.as_bytes()) {
            add_tag(&mut tags, rules[k].1);
        }
        k += 1;
    }
    assert(rules@.take(k as int) =~= rules@);
    tags
}

/// No tag occurs twice.
pub proof fn law_tags_distinct(name: Seq<char>, files: Seq<TorrentFile>)
    ensures
        torrent_tags(name, files).no_duplicates(),
{
    let all = combined_name(name, files);
    let total = score_unit(files);
    let tags = match best_category(files, all, total, 8) {
        Some(c) => seq![c.spec_name()],
        None => seq![],
    };
    let adult = with_tag(tags, Category::Adult.spec_name());
    lemma_metadata_distinct(tags, all, metadata_rules());
    lemma_metadata_distinct(adult, all, metadata_rules());
}

/// No tag occurs twice where tags are added to ones of which none does.
proof fn lemma_metadata_distinct(
    tags: Seq<Seq<char>>,
    name: Seq<u8>,
    rules: Seq<(&'static str, &'static str)>,
)
    requires
        tags.no_duplicates(),
    ensures
        with_metadata(tags, name, rules).no_duplicates(),
    decreases rules.len(),
{
    if rules.len() > 0 {
        lemma_metadata_distinct(tags, name, rules.drop_last());
    }
}

/// A score as a number: nothing counts as zero.
pub open spec fn score_value(score: Option<nat>) -> nat {
    match score {
        Some(n) => n,
        None => 0,
    }
}

/// How much one file says for a category: the score of its extension, where that stands for
/// the category, for each byte.
pub open spec fn hit_value(file: TorrentFile, c: Category) -> Option<nat> {
    match file_hit(file.name@) {
        Some((category, base)) => if category == c {
            Some(base as nat * file.size as nat)
        } else {
            None
        },
        None => None,
    }
}

/// What files say for a category is what the parts of them say, added up, however they are
/// parted; no file says nothing, and one says the score of its extension for each byte.
pub proof fn law_file_score(a: Seq<TorrentFile>, b: Seq<TorrentFile>, f: TorrentFile, c: Category)
    ensures
        file_score(Seq::empty(), c) is None,
        file_score(seq![f], c) == hit_value(f, c),
        file_score(a + b, c) is Some <==> file_score(a, c) is Some || file_score(b, c) is Some,
        score_value(file_score(a + b, c)) == score_value(file_score(a, c)) + score_value(
            file_score(b, c),
        ),
    decreases b.len(),
{
    assert(seq![f].drop_last() =~= Seq::empty());
    assert(file_score(seq![f], c) == hit_value(f, c)) by {
        if let Some((category, base)) = file_hit(f.name@) {
            assert((base * f.size) as nat == base as nat * f.size as nat);
        }
    }
    if b.len() == 0 {
        assert(a + b =~= a);
    } else {
        law_file_score(a, b.drop_last(), f, c);
        assert((a + b).drop_last() =~= a + b.drop_last());
        assert((a + b).last() == b.last());
    }
}

/// A file that is added, wherever among the others, raises the score of its category by the
/// score of its extension for each of its bytes, whatever other files there are, and changes
/// that of no other category.
pub proof fn law_file_added(
    a: Seq<TorrentFile>,
    f: TorrentFile,
    b: Seq<TorrentFile>,
    name: Seq<u8>,
    rules: Seq<(&'static str, Category, u64)>,
    total: nat,
    c: Category,
)
    ensures
        file_hit(f.name@) matches Some((category, base)) ==> (category == c ==> {
            &&& score_value(category_score(a + seq![f] + b, name, rules, total, c))
                == score_value(category_score(a + b, name, rules, total, c)) + base * f.size
            &&& category_score(a + seq![f] + b, name, rules, total, c) is Some
        }),
        !(file_hit(f.name@) matches Some((category, _)) && category == c) ==> category_score(
            a + seq![f] + b,
            name,
            rules,
            total,
            c,
        ) == category_score(a + b, name, rules, total, c),
    decreases rules.len(),
{
    if rules.len() == 0 {
        law_file_score(a + seq![f], b, f, c);
        law_file_score(a, seq![f], f, c);
        law_file_score(a, b, f, c);
    } else {
        law_file_added(a, f, b, name, rules.drop_last(), total, c);
    }
}

/// The scores do not depend on the order of the files.
pub proof fn law_file_order(
    files: Seq<TorrentFile>,
    other: Seq<TorrentFile>,
    name: Seq<u8>,
    rules: Seq<(&'static str, Category, u64)>,
    total: nat,
    c: Category,
)
    requires
        files.to_multiset() == other.to_multiset(),
    ensures
        category_score(files, name, rules, total, c) == category_score(
            other,
            name,
            rules,
            total,
            c,
        ),
    decreases files.len(),
{
    broadcast use vstd::seq_lib::group_to_multiset_ensures;

    assert(files.len() == files.to_multiset().len());
    assert(other.len() == other.to_multiset().len());
    if files.len() == 0 {
        assert(files =~= other);
    } else {
        let f = files.last();
        let front = files.drop_last();
        assert(files.to_multiset().contains(files[files.len() - 1]));
        assert(other.contains(f));
        let i = choose|i: int| 0 <= i < other.len() && other[i] == f;
        let a = other.take(i);
        let b = other.skip(i + 1);
        assert(other =~= a + seq![f] + b);
        assert(other.remove(i) =~= a + b);
        assert((a + b).to_multiset() =~= other.to_multiset().remove(f));
        assert(files =~= front.push(f));
        assert(front.to_multiset() =~= files.to_multiset().remove(f));
        law_file_order(front, a + b, name, rules, total, c);
        law_file_added(a, f, b, name, rules, total, c);
        law_file_added(front, f, seq![], name, rules, total, c);
        assert(front + seq![f] + Seq::<TorrentFile>::empty() =~= files);
        assert(front + Seq::<TorrentFile>::empty() =~= front);
    }
}

/// A rule on a word, wherever among the others, raises the score of its category by its bonus
/// for each part of the whole, where the word occurs in the names, and changes nothing else.
pub proof fn law_word_added(
    files: Seq<TorrentFile>,
    name: Seq<u8>,
    a: Seq<(&'static str, Category, u64)>,
    rule: (&'static str, Category, u64),
    b: Seq<(&'static str, Category, u64)>,
    total: nat,
    c: Category,
)
    ensures
        ({
            let with = category_score(files, name, a + seq![rule] + b, total, c);
            let without = category_score(files, name, a + b, total, c);
            if rule.1 == c && occurs(name, text(rule.0)) {
                with is Some && with->Some_0 == score_value(without) + rule.2 * total
            } else {
                with == without
            }
        }),
    decreases b.len(),
{
    if b.len() == 0 {
        assert((a + seq![rule] + b).drop_last() =~= a);
        assert(a + b =~= a);
        assert((rule.2 * total) as nat == rule.2 * total) by (nonlinear_arith)
            requires
                rule.2 >= 0,
        ;
    } else {
        law_word_added(files, name, a, rule, b.drop_last(), total, c);
        assert((a + seq![rule] + b).drop_last() =~= a + seq![rule] + b.drop_last());
        assert((a + b).drop_last() =~= a + b.drop_last());
        assert((a + b).last() == b.last());
    }
}

/// Every category is among all.
pub proof fn law_categories(c: Category)
    ensures
        exists|i: int| 0 <= i < 8 && #[trigger] categories()[i] == c,
        categories().len() == 8,
{
    let i: int = match c {
        Category::Video => 0,
        Category::Music => 1,
        Category::Book => 2,
        Category::Game => 3,
        Category::Picture => 4,
        Category::Software => 5,
        Category::Adult => 6,
        Category::Archive => 7,
    };
    assert(categories()[i] == c);
}

/// Whether most is said for a category: something is, and for no other more.
pub open spec fn tops(name: Seq<char>, files: Seq<TorrentFile>, c: Category) -> bool {
    let score = |d: Category|
        category_score(files, combined_name(name, files), content_rules(), score_unit(files), d);
    &&& score(c) is Some
    &&& forall|d: Category| #[trigger] score(d) is Some ==> score(d)->Some_0 <= score(c)->Some_0
}

/// The tags of a torrent are the name of one category for which most is said, where anything
/// is said for any; the one for adults where more is said for it than a hundred for all that
/// there is; and those for the words that occur in the names.
pub proof fn law_torrent_tags(name: Seq<char>, files: Seq<TorrentFile>) -> (top: Option<Category>)
    ensures
        match top {
            Some(c) => tops(name, files, c),
            None => forall|c: Category| !tops(name, files, c),
        },
        forall|tag: Seq<char>| #[trigger]
            torrent_tags(name, files).contains(tag) <==> {
                let all = combined_name(name, files);
                let unit = score_unit(files);
                ||| top matches Some(c) && tag == c.spec_name()
                ||| tag == "adult"@ && (category_score(
                    files,
                    all,
                    content_rules(),
                    unit,
                    Category::Adult,
                ) matches Some(score) && score > 100 * unit)
                ||| exists|i: int|
                    0 <= i < metadata_rules().len() && occurs(
                        all,
                        text((#[trigger] metadata_rules()[i]).0),
                    ) && tag == metadata_rules()[i].1@
            },
{
    let all = combined_name(name, files);
    let unit = score_unit(files);
    let top = best_category(files, all, unit, 8);
    let score = |d: Category| category_score(files, all, content_rules(), unit, d);
    match top {
        Some(c) => {
            law_best_category(files, all, unit, 8, 0);
            assert forall|d: Category| #[trigger] score(d) is Some implies score(d)->Some_0
                <= score(c)->Some_0 by {
                law_categories(d);
                let i = choose|i: int| 0 <= i < 8 && #[trigger] categories()[i] == d;
                law_best_category(files, all, unit, 8, i);
            }
            assert(tops(name, files, c));
        },
        None => {
            assert forall|c: Category| !tops(name, files, c) by {
                law_categories(c);
                let i = choose|i: int| 0 <= i < 8 && #[trigger] categories()[i] == c;
                law_best_category(files, all, unit, 8, i);
            }
        },
    }
    let first = match top {
        Some(c) => seq![c.spec_name()],
        None => seq![],
    };
    let adult = match category_score(files, all, content_rules(), unit, Category::Adult) {
        Some(score) => if score > 100 * unit {
            with_tag(first, Category::Adult.spec_name())
        } else {
            first
        },
        None => first,
    };
    assert forall|tag: Seq<char>| #[trigger]
        torrent_tags(name, files).contains(tag) <==> {
            ||| top matches Some(c) && tag == c.spec_name()
            ||| tag == "adult"@ && (category_score(
                files,
                all,
                content_rules(),
                unit,
                Category::Adult,
            ) matches Some(score) && score > 100 * unit)
            ||| exists|i: int|
                0 <= i < metadata_rules().len() && occurs(
                    all,
                    text((#[trigger] metadata_rules()[i]).0),
                ) && tag == metadata_rules()[i].1@
        } by {
        lemma_metadata_tags(adult, all, metadata_rules(), tag);
        lemma_with_tag(first, Category::Adult.spec_name(), tag);
        if let Some(c) = top {
            assert(first[0] == c.spec_name());
        }
    }
    top
}

/// A tag that is added is there, with those that were.
proof fn lemma_with_tag(tags: Seq<Seq<char>>, new: Seq<char>, tag: Seq<char>)
    ensures
        with_tag(tags, new).contains(tag) <==> tags.contains(tag) || tag == new,
{
    let r = with_tag(tags, new);
    if tags.contains(tag) {
        let i = choose|i: int| 0 <= i < tags.len() && tags[i] == tag;
        assert(r[i] == tag);
    }
    if !tags.contains(new) {
        assert(r[tags.len() as int] == new);
        if r.contains(tag) && tag != new {
            let i = choose|i: int| 0 <= i < r.len() && r[i] == tag;
            assert(tags[i] == tag);
        }
    }
}

/// The tags for words are those of the rules whose words occur.
proof fn lemma_metadata_tags(
    tags: Seq<Seq<char>>,
    name: Seq<u8>,
    rules: Seq<(&'static str, &'static str)>,
    tag: Seq<char>,
)
    ensures
        with_metadata(tags, name, rules).contains(tag) <==> tags.contains(tag) || exists|i: int|
            0 <= i < rules.len() && occurs(name, text((#[trigger] rules[i]).0)) && tag
                == rules[i].1@,
    decreases rules.len(),
{
    if rules.len() > 0 {
        let front = rules.drop_last();
        lemma_metadata_tags(tags, name, front, tag);
        lemma_with_tag(with_metadata(tags, name, front), rules.last().1@, tag);
        if exists|i: int|
            0 <= i < front.len() && occurs(name, text((#[trigger] front[i]).0)) && tag
                == front[i].1@ {
            let i = choose|i: int|
                0 <= i < front.len() && occurs(name, text((#[trigger] front[i]).0)) && tag
                    == front[i].1@;
            assert(rules[i] == front[i]);
        }
        if exists|i: int|
            0 <= i < rules.len() && occurs(name, text((#[trigger] rules[i]).0)) && tag
                == rules[i].1@ {
            let i = choose|i: int|
                0 <= i < rules.len() && occurs(name, text((#[trigger] rules[i]).0)) && tag
                    == rules[i].1@;
            if i < front.len() {
                assert(front[i] == rules[i]);
            }
        }
        assert(rules[rules.len() - 1] == rules.last());
    }
}

/// Bytes occur where they stand among others, and only there.
pub proof fn law_occurs(a: Seq<u8>, word: Seq<u8>, b: Seq<u8>, s: Seq<u8>)
    ensures
        occurs(a + word + b, word),
        occurs(s, word) ==> exists|x: Seq<u8>, y: Seq<u8>| s == #[trigger] (x + word + y),
{
    let t = a + word + b;
    assert(t.subrange(a.len() as int, (a.len() + word.len()) as int) =~= word);
    if occurs(s, word) {
        let i = choose|i: int|
            0 <= i <= s.len() - word.len() && #[trigger] s.subrange(i, i + word.len()) == word;
        assert(s =~= s.take(i) + word + s.skip(i + word.len()));
    }
}

/// The name of a torrent comes first in the names that are looked through, and each of its
/// files' names is among them in lower case.
pub proof fn law_combined_name(name: Seq<char>, files: Seq<TorrentFile>, i: int)
    requires
        0 <= i < files.len(),
    ensures
        ({
            let all = combined_name(name, files);
            let own = encode_utf8(name);
            &&& own.len() <= all.len() && all.take(own.len() as int) == own
            &&& file_name(encode_utf8(files[i].name@)) matches Some(part) ==> (valid_utf8(part)
                ==> occurs(all, encode_utf8(lowercase_text(decode_utf8(part)))))
        }),
    decreases files.len(),
{
    let front = combined_name(name, files.drop_last());
    let all = combined_name(name, files);
    let own = encode_utf8(name);
    if files.len() == 1 {
        assert(files.drop_last() =~= seq![]);
        assert(front == own);
    } else if i < files.len() - 1 {
        law_combined_name(name, files.drop_last(), i);
    } else {
        law_combined_name(name, files.drop_last(), 0);
    }
    assert(own.take(own.len() as int) =~= own);
    assert(front.len() <= all.len() && all.take(front.len() as int) =~= front);
    assert(all.take(own.len() as int) =~= front.take(own.len() as int));
    if let Some(part) = file_name(encode_utf8(files[i].name@)) {
        if valid_utf8(part) {
            let word = encode_utf8(lowercase_text(decode_utf8(part)));
            if i == files.len() - 1 {
                law_occurs(front, word, seq![32u8], all);
                assert(all =~= front + word + seq![32u8]);
            } else {
                let k = choose|k: int|
                    0 <= k <= front.len() - word.len() && #[trigger] front.subrange(
                        k,
                        k + word.len(),
                    ) == word;
                assert(all.subrange(k, k + word.len()) =~= front.subrange(k, k + word.len()));
            }
        }
    }
}

/// Behind the last occurrence of a byte it does not occur, and it stands just before.
proof fn lemma_behind_last(s: Seq<u8>, b: u8)
    ensures
        0 <= behind_last(s, b) <= s.len(),
        behind_last(s, b) > 0 ==> s[behind_last(s, b) - 1] == b,
        forall|i: int| behind_last(s, b) <= i < s.len() ==> s[i] != b,
    decreases s.len(),
{
    if s.len() > 0 && s.last() != b {
        lemma_behind_last(s.drop_last(), b);
        assert forall|i: int| behind_last(s, b) <= i < s.len() implies s[i] != b by {
            if i < s.len() - 1 {
                assert(s[i] == s.drop_last()[i]);
            }
        }
    }
}

/// Where a byte stands, and not behind, what is behind its last occurrence starts.
proof fn lemma_behind_last_is(s: Seq<u8>, b: u8, n: int)
    requires
        0 <= n <= s.len(),
        n > 0 ==> s[n - 1] == b,
        forall|i: int| n <= i < s.len() ==> s[i] != b,
    ensures
        behind_last(s, b) == n,
{
    lemma_behind_last(s, b);
}

/// The name of a file in a directory is what stands behind the last slash; an extension is
/// what stands behind the last dot of a name that does not start with it.
pub proof fn law_file_name(dir: Seq<u8>, part: Seq<u8>, stem: Seq<u8>, ext: Seq<u8>)
    requires
        part.len() > 0,
        part != text("."),
        part != text(".."),
        forall|i: int| 0 <= i < part.len() ==> part[i] != '/' as u8,
        stem.len() > 0,
        forall|i: int| 0 <= i < ext.len() ==> ext[i] != '.' as u8,
    ensures
        file_name(part) == Some(part),
        file_name(dir + seq!['/' as u8] + part) == Some(part),
        extension(stem + seq!['.' as u8] + ext) == Some(ext),
        (forall|i: int| 0 <= i < stem.len() ==> stem[i] != '.' as u8) ==> extension(stem) is None,
{
    let path = dir + seq!['/' as u8] + part;
    lemma_behind_last_is(part, '/' as u8, 0);
    assert(part.skip(0) =~= part);
    lemma_behind_last_is(path, '/' as u8, dir.len() as int + 1);
    assert(path.skip(dir.len() as int + 1) =~= part);
    let name = stem + seq!['.' as u8] + ext;
    lemma_behind_last_is(name, '.' as u8, stem.len() as int + 1);
    assert(name.skip(stem.len() as int + 1) =~= ext);
    if forall|i: int| 0 <= i < stem.len() ==> stem[i] != '.' as u8 {
        lemma_behind_last_is(stem, '.' as u8, 0);
    }
}

/// What an extension says is what the first rule with that extension says, up to the case of
/// letters; it says nothing where there is none.
pub proof fn law_rule_for(rules: Seq<(&'static str, Category, u64)>, ext: Seq<u8>) -> (i: int)
    ensures
        match rule_for(rules, ext) {
            Some((c, score)) => {
                &&& 0 <= i < rules.len()
                &&& rules[i].1 == c
                &&& rules[i].2 == score
                &&& same_letters(text(rules[i].0), ext)
                &&& forall|j: int| 0 <= j < i ==> !same_letters(text((#[trigger] rules[j]).0), ext)
            },
            None => forall|j: int|
                0 <= j < rules.len() ==> !same_letters(text((#[trigger] rules[j]).0), ext),
        },
    decreases rules.len(),
{
    if rules.len() == 0 {
        0
    } else if same_letters(text(rules[0].0), ext) {
        0
    } else {
        let rest = rules.skip(1);
        let i = law_rule_for(rest, ext);
        assert forall|j: int| 1 <= j < rules.len() implies #[trigger] rules[j] == rest[j - 1] by {}
        i + 1
    }
}

/// Bytes are the same up to the case of letters exactly where each is the other or is the
/// same letter in the other case.
pub proof fn law_same_letters(a: Seq<u8>, b: Seq<u8>)
    requires
        a.len() == b.len(),
    ensures
        same_letters(a, b) <==> forall|i: int|
            0 <= i < a.len() ==> {
                ||| #[trigger] a[i] == b[i]
                ||| 'A' as u8 <= a[i] <= 'Z' as u8 && b[i] == a[i] + 32
                ||| 'A' as u8 <= b[i] <= 'Z' as u8 && a[i] == b[i] + 32
            },
{
    if same_letters(a, b) {
        assert forall|i: int| 0 <= i < a.len() implies {
            ||| #[trigger] a[i] == b[i]
            ||| 'A' as u8 <= a[i] <= 'Z' as u8 && b[i] == a[i] + 32
            ||| 'A' as u8 <= b[i] <= 'Z' as u8 && a[i] == b[i] + 32
        } by {
            assert(lower_byte(a[i]) == lower_byte(b[i]));
        }
    }
}

/// The size of files is that of their parts, added up; scores are counted in parts of it, or
/// in one where there is nothing.
pub proof fn law_total_size(a: Seq<TorrentFile>, b: Seq<TorrentFile>, f: TorrentFile)
    ensures
        total_size(a + b) == total_size(a) + total_size(b),
        total_size(seq![f]) == f.size,
        score_unit(a) == (if total_size(a) > 0 {
            total_size(a)
        } else {
            1
        }),
    decreases b.len(),
{
    let one = seq![f];
    assert(one.drop_last() =~= Seq::empty());
    assert(total_size(one.drop_last()) == 0);
    assert(total_size(one) == total_size(one.drop_last()) + one.last().size);
    if b.len() == 0 {
        assert(a + b =~= a);
    } else {
        law_total_size(a, b.drop_last(), f);
        assert((a + b).drop_last() =~= a + b.drop_last());
    }
}

/// A word that tells of content for adults counts as much as the most telling of all, and
/// ten times as much as most others.
pub proof fn law_content_scores(k: int)
    requires
        0 <= k < content_rules().len(),
    ensures
        ({
            let (word, category, score) = content_rules()[k];
            &&& category == Category::Adult ==> score == 500
            &&& category == Category::Video ==> 50 <= score <= 60
            &&& category == Category::Music ==> 40 <= score <= 50
            &&& category == Category::Book ==> score == 50
            &&& category == Category::Game ==> score == 50 || score == 500
            &&& score <= 500
        }),
{
}

/// An extension of video, music, books or programs counts four times as much as one of
/// pictures or more, and that twice as much as one of archives.
pub proof fn law_extension_scores(k: int)
    requires
        0 <= k < extension_rules().len(),
    ensures
        ({
            let (extension, category, score) = extension_rules()[k];
            &&& category == Category::Video ==> 90 <= score <= 100
            &&& category == Category::Music || category == Category::Book ==> score == 100
            &&& category == Category::Software ==> score == 80 || score == 100
            &&& category == Category::Picture ==> score == 20
            &&& category == Category::Archive ==> score == 10
        }),
{
}

} // verus!

//! Torrents.

use super::crypto::{sha1, sha1_digest};
use crate::bencode::fields::{field, int_field, list_field};
use crate::bencode::object::views;
use crate::bencode::value::{decode, dict_insert, encode, Value};
use crate::bencode::{Dict, Object};
use crate::bytes::text;
use crate::kad::nodeid::{InfoHash, NodeId};
use crate::krpc::messages::no_entries;
use crate::storage::joined_by;
use crate::strings::str_from_utf8;
use vstd::prelude::*;
use vstd::string::StringExecFns;
use vstd::utf8::{decode_utf8, valid_utf8};

verus! {

/// The info dictionary of a torrent.
pub open spec fn info_of(v: Value) -> Option<Value> {
    field(v, text("info"))
}

/// What is under the first of two keys, or else under the second.
pub open spec fn either_field(v: Value, first: Seq<u8>, second: Seq<u8>) -> Option<Value> {
    match field(v, first) {
        Some(value) => Some(value),
        None => field(v, second),
    }
}

/// The text that a value stands for, where it is valid UTF-8.
pub open spec fn text_of(v: Value) -> Option<Seq<char>> {
    match v {
        Value::Str(s) => if valid_utf8(s) {
            Some(decode_utf8(s))
        } else {
            None
        },
        _ => None,
    }
}

/// The number under a key, where it is not negative.
pub open spec fn size_field(v: Value, key: Seq<u8>) -> Option<u64> {
    match int_field(v, key) {
        Some(i) => if i >= 0 {
            Some(i as u64)
        } else {
            None
        },
        None => None,
    }
}

/// The name of a torrent.
pub open spec fn torrent_name(v: Value) -> Option<Seq<char>> {
    match info_of(v) {
        Some(info) => match either_field(info, text("name.utf-8"), text("name")) {
            Some(name) => text_of(name),
            None => None,
        },
        None => None,
    }
}

/// The number under a key of the info dictionary.
pub open spec fn info_size(v: Value, key: Seq<u8>) -> Option<u64> {
    match info_of(v) {
        Some(info) => size_field(info, key),
        None => None,
    }
}

/// The texts with slashes between them.
pub open spec fn join_path(parts: Seq<Seq<char>>) -> Seq<char>
    decreases parts.len(),
{
    if parts.len() == 0 {
        seq![]
    } else if parts.len() == 1 {
        parts[0]
    } else {
        join_path(parts.drop_last()) + seq!['/'] + parts.last()
    }
}

/// The texts of a list, where all its items are texts.
pub open spec fn texts_of(v: Value) -> Option<Seq<Seq<char>>> {
    match v {
        Value::List(l) => if forall|i: int| 0 <= i < l.len() ==> text_of(#[trigger] l[i]) is Some {
            Some(Seq::new(l.len(), |i: int| text_of(l[i])->Some_0))
        } else {
            None
        },
        _ => None,
    }
}

/// The path and length of a file.
pub open spec fn file_of(v: Value) -> Option<(Seq<char>, u64)> {
    match (size_field(v, text("length")), either_field(v, text("path.utf-8"), text("path"))) {
        (Some(length), Some(path)) => match texts_of(path) {
            Some(parts) => Some((join_path(parts), length)),
            None => None,
        },
        _ => None,
    }
}

/// The files of a torrent that has several, where all of them can be told.
pub open spec fn torrent_files(v: Value) -> Option<Seq<(Seq<char>, u64)>> {
    match info_of(v) {
        Some(info) => match list_field(info, text("files")) {
            Some(l) => if forall|i: int| 0 <= i < l.len() ==> file_of(#[trigger] l[i]) is Some {
                Some(Seq::new(l.len(), |i: int| file_of(l[i])->Some_0))
            } else {
                None
            },
            None => None,
        },
        None => None,
    }
}

/// Whether a value is that of a torrent: it has an info dictionary with a name and a piece
/// length, and with either a length or files.
pub open spec fn is_torrent(v: Value) -> bool {
    &&& torrent_name(v) is Some
    &&& info_size(v, text("piece length")) is Some
    &&& info_size(v, text("length")) is Some || torrent_files(v) is Some
}

/// The length of all files.
pub open spec fn total_length(files: Seq<(Seq<char>, u64)>) -> nat
    decreases files.len(),
{
    if files.len() == 0 {
        0
    } else {
        total_length(files.drop_last()) + files.last().1 as nat
    }
}

/// The files of a torrent; the one file of a torrent that has no list of them.
pub open spec fn all_files(v: Value) -> Seq<(Seq<char>, u64)> {
    match torrent_files(v) {
        Some(files) => files,
        None => seq![(torrent_name(v)->Some_0, info_size(v, text("length"))->Some_0)],
    }
}

/// The paths and lengths of files.
pub open spec fn file_views(files: Seq<(String, u64)>) -> Seq<(Seq<char>, u64)> {
    Seq::new(files.len(), |i: int| (files[i].0@, files[i].1))
}

/// A torrent.
#[derive(Debug)]
pub struct Torrent {
    data: Object,
}

impl View for Torrent {
    type V = Value;

    closed spec fn view(&self) -> Value {
        self.data@
    }
}

/// What is under the first of two keys, or else under the second.
fn either<'a>(obj: &'a Object, first: &str, second: &str) -> (r: Option<&'a Object>)
    ensures
        match r {
            Some(value) => either_field(obj@, text(first), text(second)) == Some(value@),
            None => either_field(obj@, text(first), text(second)) is None,
        },
{
    match obj.field(first) {
        Some(value) => Some(value),
        None => obj.field(second),
    }
}

/// The text that an object stands for.
fn read_text(obj: &Object) -> (r: Option<&str>)
    ensures
        match r {
            Some(s) => text_of(obj@) == Some(s@),
            None => text_of(obj@) is None,
        },
{
    match obj.as_string() {
        Some(s) => str_from_utf8(s.as_slice()),
        None => None,
    }
}

/// The number under a key.
fn read_size(obj: &Object, key: &str) -> (r: Option<u64>)
    ensures
        r == size_field(obj@, text(key)),
{
    match obj.int_field(key) {
        Some(i) => {
            if i >= 0 {
                Some(i as u64)
            } else {
                None
            }
        },
        None => None,
    }
}

/// The path that a list of texts stands for.
fn read_path(obj: &Object) -> (r: Option<String>)
    ensures
        match r {
            Some(path) => texts_of(obj@) matches Some(parts) && path@ == join_path(parts),
            None => texts_of(obj@) is None,
        },
{
    let list = match obj.as_list() {
        Some(list) => list,
        None => {
            return None;
        },
    };
    let ghost l = views(list@);
    let ghost all = Seq::new(l.len(), |i: int| text_of(l[i])->Some_0);
    let mut path: String = String::new();
    let mut i: usize = 0;
    assert(all.take(0) =~= seq![]);
    assert(path@ =~= join_path(all.take(0)));
    while i < list.len()
        invariant
            i <= list@.len(),
            l == views(list@),
            obj@ == Value::List(l),
            all == Seq::new(l.len(), |i: int| text_of(l[i])->Some_0),
            forall|j: int| 0 <= j < i ==> text_of(#[trigger] l[j]) is Some,
            path@ == join_path(all.take(i as int)),
        decreases list@.len() - i,
    {
        assert(l[i as int] == list@[i as int]@);
        match read_text(&list[i]) {
            Some(part) => {
                assert(all.take(i + 1).drop_last() =~= all.take(i as int));
                assert(all.take(i + 1).last() == part@);
                if i > 0 {
                    proof {
                        reveal_strlit("/");
                    }
                    path.append("/");
                    path.append(part);
                    assert("/"@ =~= seq!['/']);
                } else {
                    path.append(part);
                    assert(path@ =~= part@);
                    assert(all.take(1)[0] == part@);
                }
            },
            None => {
                assert(text_of(l[i as int]) is None);
                return None;
            },
        }
        i += 1;
    }
    assert(all.take(i as int) =~= all);
    assert(texts_of(obj@) == Some(all));
    Some(path)
}

/// The path and length of a file.
fn read_file(obj: &Object) -> (r: Option<(String, u64)>)
    ensures
        match r {
            Some((path, length)) => file_of(obj@) == Some((path@, length)),
            None => file_of(obj@) is None,
        },
{
    match (read_size(obj, "length"), either(obj, "path.utf-8", "path")) {
        (Some(length), Some(path)) => match read_path(path) {
            Some(path) => Some((path, length)),
            None => None,
        },
        _ => None,
    }
}

impl Torrent {
    /// Whether the parts that a torrent must have are there.
    #[verifier::type_invariant]
    spec fn valid(self) -> bool {
        is_torrent(self.data@)
    }

    /// The torrent with an info dictionary, where it is one.
    pub fn from_info(info: Object) -> (r: Option<Torrent>)
        ensures
            ({
                let v = Value::Dict(dict_insert(no_entries(), text("info"), info@));
                match r {
                    Some(torrent) => is_torrent(v) && torrent@ == v,
                    None => !is_torrent(v),
                }
            }),
    {
        broadcast use Object::lemma_view;

        let mut dict = Dict::new();
        dict.set("info", info);
        Torrent::from(Object::Dict(dict))
    }

    /// The torrent with an encoded info dictionary, where it is one.
    pub fn from_info_bytes(bytes: &[u8]) -> (r: Option<Torrent>)
        ensures
            match decode(bytes@) {
                Some((info, _)) => {
                    let v = Value::Dict(dict_insert(no_entries(), text("info"), info));
                    match r {
                        Some(torrent) => is_torrent(v) && torrent@ == v,
                        None => !is_torrent(v),
                    }
                },
                None => r is None,
            },
    {
        match Object::decode(bytes) {
            Some((object, _)) => Torrent::from_info(object),
            None => None,
        }
    }

    /// The torrent that an object stands for.
    pub fn from(data: Object) -> (r: Option<Torrent>)
        ensures
            match r {
                Some(torrent) => is_torrent(data@) && torrent@ == data@,
                None => !is_torrent(data@),
            },
    {
        if name_checked(&data).is_none() || piece_length_checked(&data).is_none() {
            return None;
        }
        if length_checked(&data).is_none() && files_checked(&data).is_none() {
            return None;
        }
        Some(Torrent { data })
    }

    /// The torrent that bytes encode.
    pub fn from_bytes(bytes: &[u8]) -> (r: Option<Torrent>)
        ensures
            match decode(bytes@) {
                Some((v, _)) => match r {
                    Some(torrent) => is_torrent(v) && torrent@ == v,
                    None => !is_torrent(v),
                },
                None => r is None,
            },
    {
        match Object::decode(bytes) {
            Some((object, _)) => Torrent::from(object),
            None => None,
        }
    }

    /// The hash by which the torrent is known: the digest of its info dictionary.
    pub fn info_hash(&self) -> (r: InfoHash)
        ensures
            info_of(self@) matches Some(info) && r@ == sha1_digest(encode(info)),
    {
        proof {
            use_type_invariant(self);
        }
        match self.data.field("info") {
            Some(info) => NodeId::new(sha1(info.encode().as_slice())),
            None => NodeId::zero(),
        }
    }

    /// The name.
    pub fn name(&self) -> (r: &str)
        ensures
            torrent_name(self@) == Some(r@),
    {
        proof {
            use_type_invariant(self);
        }
        match name_checked(&self.data) {
            Some(name) => name,
            None => "",
        }
    }

    /// The length of a piece.
    pub fn piece_length(&self) -> (r: u64)
        ensures
            info_size(self@, text("piece length")) == Some(r),
    {
        proof {
            use_type_invariant(self);
        }
        match piece_length_checked(&self.data) {
            Some(length) => length,
            None => 0,
        }
    }

    /// Whether the length of all files fits in 64 bits.
    pub fn length_fits(&self) -> (r: bool)
        ensures
            r == (total_length(all_files(self@)) <= u64::MAX),
    {
        let files = self.files();
        let ghost all = file_views(files@);
        let mut len: u64 = 0;
        let mut i: usize = 0;
        assert(all.take(0) =~= seq![]);
        while i < files.len()
            invariant
                i <= files@.len(),
                all == file_views(files@),
                all == all_files(self@),
                len == total_length(all.take(i as int)),
            decreases files@.len() - i,
        {
            assert(all.take(i + 1).drop_last() =~= all.take(i as int));
            assert(all.take(i + 1).last() == (files@[i as int].0@, files@[i as int].1));
            let next: u64 = files[i].1;
            if next > u64::MAX - len {
                proof {
                    lemma_total_grows(all, i + 1);
                }
                return false;
            }
            len = len + next;
            i += 1;
        }
        assert(all.take(i as int) =~= all);
        true
    }

    /// The length of all files.
    pub fn length(&self) -> (r: u64)
        requires
            total_length(all_files(self@)) <= u64::MAX,
        ensures
            r == total_length(all_files(self@)),
    {
        let files = self.files();
        let ghost all = file_views(files@);
        let mut len: u64 = 0;
        let mut i: usize = 0;
        assert(all.take(0) =~= seq![]);
        while i < files.len()
            invariant
                i <= files@.len(),
                all == file_views(files@),
                total_length(all) <= u64::MAX,
                len == total_length(all.take(i as int)),
            decreases files@.len() - i,
        {
            assert(all.take(i + 1).drop_last() =~= all.take(i as int));
            assert(all.take(i + 1).last() == (files@[i as int].0@, files@[i as int].1));
            proof {
                lemma_total_grows(all, i + 1);
            }
            len = len + files[i].1;
            i += 1;
        }
        assert(all.take(i as int) =~= all);
        len
    }

    /// The files, with their paths and lengths; the name and length where there is no list
    /// of files.
    pub fn files(&self) -> (r: Vec<(String, u64)>)
        ensures
            file_views(r@) == all_files(self@),
    {
        proof {
            use_type_invariant(self);
        }
        match files_checked(&self.data) {
            Some(files) => files,
            None => {
                let length: u64 = match length_checked(&self.data) {
                    Some(length) => length,
                    None => 0,
                };
                let mut files: Vec<(String, u64)> = Vec::new();
                files.push((self.name().to_owned(), length));
                assert(file_views(files@) =~= all_files(self@));
                files
            },
        }
    }

    /// The object.
    pub fn object(&self) -> (r: &Object)
        ensures
            r@ == self@,
    {
        &self.data
    }

    /// The encoded torrent.
    pub fn encode(&self) -> (r: Vec<u8>)
        ensures
            r@ == encode(self@),
    {
        self.data.encode()
    }
}

fn name_checked(data: &Object) -> (r: Option<&str>)
    ensures
        match r {
            Some(name) => torrent_name(data@) == Some(name@),
            None => torrent_name(data@) is None,
        },
{
    match data.field("info") {
        Some(info) => match either(info, "name.utf-8", "name") {
            Some(name) => read_text(name),
            None => None,
        },
        None => None,
    }
}

fn piece_length_checked(data: &Object) -> (r: Option<u64>)
    ensures
        r == info_size(data@, text("piece length")),
{
    match data.field("info") {
        Some(info) => read_size(info, "piece length"),
        None => None,
    }
}

fn length_checked(data: &Object) -> (r: Option<u64>)
    ensures
        r == info_size(data@, text("length")),
{
    match data.field("info") {
        Some(info) => read_size(info, "length"),
        None => None,
    }
}

fn files_checked(data: &Object) -> (r: Option<Vec<(String, u64)>>)
    ensures
        match r {
            Some(files) => torrent_files(data@) == Some(file_views(files@)),
            None => torrent_files(data@) is None,
        },
{
    let info = match data.field("info") {
        Some(info) => info,
        None => {
            return None;
        },
    };
    let list = match info.list_field("files") {
        Some(list) => list,
        None => {
            return None;
        },
    };
    let ghost l = views(list@);
    let mut files: Vec<(String, u64)> = Vec::new();
    let mut i: usize = 0;
    while i < list.len()
        invariant
            i <= list@.len(),
            l == views(list@),
            info_of(data@) == Some(info@),
            list_field(info@, text("files")) == Some(l),
            files@.len() == i,
            forall|j: int|
                0 <= j < i ==> file_of(#[trigger] l[j]) == Some((files@[j].0@, files@[j].1)),
        decreases list@.len() - i,
    {
        assert(l[i as int] == list@[i as int]@);
        match read_file(&list[i]) {
            Some(file) => {
                files.push(file);
            },
            None => {
                assert(file_of(l[i as int]) is None);
                return None;
            },
        }
        i += 1;
    }
    assert(torrent_files(data@) is Some);
    assert(torrent_files(data@)->Some_0 =~= file_views(files@));
    Some(files)
}

/// The length of the first files is at most that of all.
proof fn lemma_total_grows(files: Seq<(Seq<char>, u64)>, n: int)
    requires
        0 <= n <= files.len(),
    ensures
        total_length(files.take(n)) <= total_length(files),
    decreases files.len() - n,
{
    if n == files.len() {
        assert(files.take(n) =~= files);
    } else {
        lemma_total_grows(files, n + 1);
        assert(files.take(n + 1).drop_last() =~= files.take(n));
    }
}

/// A path is its parts with a slash between each two of them.
pub proof fn law_join_path(parts: Seq<Seq<char>>)
    ensures
        join_path(parts) == joined_by(parts, '/'),
    decreases parts.len(),
{
    if parts.len() >= 2 {
        law_join_path(parts.drop_last());
        lemma_joined_last(parts, '/');
    }
}

/// The last of several texts stands behind the others.
proof fn lemma_joined_last(parts: Seq<Seq<char>>, c: char)
    requires
        parts.len() >= 2,
    ensures
        joined_by(parts, c) == joined_by(parts.drop_last(), c) + seq![c] + parts.last(),
    decreases parts.len(),
{
    let front = parts.drop_last();
    if parts.len() == 2 {
        assert(parts.skip(1).len() == 1 && parts.skip(1)[0] == parts.last());
        assert(joined_by(parts.skip(1), c) == parts.last());
        assert(joined_by(front, c) == parts[0]);
    } else {
        lemma_joined_last(parts.skip(1), c);
        assert(parts.skip(1).drop_last() =~= front.skip(1));
        let (a, b, x) = (parts[0], joined_by(front.skip(1), c), parts.last());
        assert(a + seq![c] + (b + seq![c] + x) =~= a + seq![c] + b + seq![c] + x);
    }
}

/// The length of all files is that of each of them, added up.
pub proof fn law_total_length(files: Seq<(Seq<char>, u64)>, more: Seq<(Seq<char>, u64)>, n: u64)
    ensures
        total_length(Seq::empty()) == 0,
        total_length(seq![(Seq::empty(), n)]) == n,
        total_length(files + more) == total_length(files) + total_length(more),
    decreases more.len(),
{
    let one = seq![(Seq::<char>::empty(), n)];
    assert(one.drop_last() =~= Seq::<(Seq<char>, u64)>::empty());
    assert(total_length(one.drop_last()) == 0);
    if more.len() == 0 {
        assert(files + more =~= files);
    } else {
        law_total_length(files, more.drop_last(), n);
        assert((files + more).drop_last() =~= files + more.drop_last());
    }
}

/// A torrent has a name, the length of its pieces, and a length or files: its name is the text
/// under `name.utf-8`, or else under `name`, of the dictionary under `info`.
pub proof fn law_is_torrent(v: Value)
    requires
        is_torrent(v),
    ensures
        field(v, text("info")) matches Some(info) && {
            &&& int_field(info, text("piece length")) matches Some(n) && n >= 0
            &&& (field(info, text("name.utf-8")) matches Some(name) ==> name matches Value::Str(s)
                && valid_utf8(s) && torrent_name(v) == Some(decode_utf8(s)))
            &&& field(info, text("name.utf-8")) is None ==> (field(info, text("name")) matches Some(
                name,
            ) && (name matches Value::Str(s) && valid_utf8(s) && torrent_name(v) == Some(
                decode_utf8(s),
            )))
            &&& field(info, text("files")) is Some || (int_field(info, text("length")) matches Some(
                n,
            ) && n >= 0)
        },
{
}

/// The files of a torrent with a list of them are those of the list, in its order, each with
/// the number under `length` and the parts of its path under `path.utf-8` or else `path`.
pub proof fn law_torrent_files(v: Value, info: Value, l: Seq<Value>, i: int)
    requires
        field(v, text("info")) == Some(info),
        field(info, text("files")) == Some(Value::List(l)),
        torrent_files(v) is Some,
        0 <= i < l.len(),
    ensures
        all_files(v) == torrent_files(v)->Some_0,
        all_files(v).len() == l.len(),
        int_field(l[i], text("length")) matches Some(n) && n == all_files(v)[i].1,
        field(l[i], text("path.utf-8")) matches Some(path) ==> (texts_of(path) matches Some(parts)
            && all_files(v)[i].0 == joined_by(parts, '/')),
        field(l[i], text("path.utf-8")) is None ==> (field(l[i], text("path")) matches Some(path)
            && (texts_of(path) matches Some(parts) && all_files(v)[i].0 == joined_by(parts, '/'))),
{
    assert(file_of(l[i]) is Some);
    match either_field(l[i], text("path.utf-8"), text("path")) {
        Some(path) => {
            law_join_path(texts_of(path)->Some_0);
        },
        None => {},
    }
}

/// A list of texts is read item by item.
pub proof fn law_texts_of(l: Seq<Value>)
    ensures
        match texts_of(Value::List(l)) {
            Some(parts) => parts.len() == l.len() && forall|i: int|
                0 <= i < l.len() ==> (#[trigger] l[i] matches Value::Str(s) && valid_utf8(s)
                    && parts[i] == decode_utf8(s)),
            None => exists|i: int|
                0 <= i < l.len() && !(#[trigger] l[i] matches Value::Str(s) && valid_utf8(s)),
        },
{
    if texts_of(Value::List(l)) is Some {
        assert forall|i: int| 0 <= i < l.len() implies (#[trigger] l[i] matches Value::Str(s)
            && valid_utf8(s) && texts_of(Value::List(l))->Some_0[i] == decode_utf8(s)) by {
            assert(text_of(l[i]) is Some);
        }
    } else {
        let i = choose|i: int| 0 <= i < l.len() && text_of(#[trigger] l[i]) is None;
        assert(0 <= i < l.len() && !(l[i] matches Value::Str(s) && valid_utf8(s)));
    }
}

/// A torrent without a list of files has one file, with the name and the length of the
/// torrent.
pub proof fn law_single_file(v: Value, info: Value)
    requires
        is_torrent(v),
        field(v, text("info")) == Some(info),
        field(info, text("files")) is None,
    ensures
        all_files(v).len() == 1,
        Some(all_files(v)[0].0) == torrent_name(v),
        int_field(info, text("length")) matches Some(n) && n == all_files(v)[0].1,
        total_length(all_files(v)) == all_files(v)[0].1,
{
    let files = all_files(v);
    assert(files.drop_last() =~= Seq::<(Seq<char>, u64)>::empty());
    assert(total_length(files.drop_last()) == 0);
}

} // verus!

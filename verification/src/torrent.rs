//! The typed torrent description and the metadata mapper that projects a
//! decoded bencode dictionary onto it.
//!
//! Byte-string fields hold raw bytes: torrent files may carry data that is
//! not valid UTF-8, so nothing here assumes a text encoding.

use vstd::prelude::*;

use crate::decode::{decode, spec_parse, DecodeError};
use crate::value::{lemma_view_elems, lemma_view_entries, view_elems, view_entries, SpecValue, Value};

verus! {

/// Why torrent file content failed to parse: the bytes did not decode as
/// bencode, or the decoded value did not fit the torrent schema.
#[derive(Clone, Copy, Debug, PartialEq, Eq, Structural)]
pub enum TorrentError {
    Decode(DecodeError),
    Schema(SchemaError),
}

/// Why a decoded value failed to map onto the torrent schema.
#[derive(Clone, Copy, Debug, PartialEq, Eq, Structural)]
pub enum SchemaError {
    /// A required field is absent.
    MissingField,
    /// A field holds the wrong kind of value.
    WrongType,
    /// The `info` dictionary holds both `length` and `files`.
    ConflictingLayout,
    /// The `pieces` byte string is not a whole number of 20-byte digests.
    InvalidPieceLength,
}

/// The per-piece digests: a sequence of 20-byte hashes, piece 0 first.
#[derive(Debug)]
pub struct Hashes(pub Vec<Vec<u8>>);

/// One file of a multi-file torrent.
#[derive(Debug)]
pub struct File {
    /// Size in bytes.
    pub length: u64,
    /// Path segments, the last one the file name; never empty.
    pub path: Vec<Vec<u8>>,
    /// Optional MD5 digest, as the torrent carries it.
    pub md5sum: Option<Vec<u8>>,
}

/// The layout variants of the `info` dictionary: exactly one applies.
#[derive(Debug)]
pub enum Keys {
    SingleFile { length: u64, md5sum: Option<Vec<u8>> },
    MultiFiles { files: Vec<File> },
}

/// The `info` dictionary of a torrent.
#[derive(Debug)]
pub struct Info {
    /// Suggested file name, or directory name for multi-file torrents.
    pub name: Vec<u8>,
    /// Bytes per piece.
    pub piece_length: u64,
    /// The per-piece digests.
    pub pieces: Hashes,
    /// Single-file or multi-file layout.
    pub keys: Keys,
}

/// A parsed torrent file.
#[derive(Debug)]
pub struct Torrent {
    /// Tracker URL.
    pub announce: Vec<u8>,
    /// The `info` dictionary.
    pub info: Info,
    /// Optional character encoding note.
    pub encoding: Option<Vec<u8>>,
}

/// Mathematical model of [`File`].
pub struct SpecFile {
    pub length: u64,
    pub path: Seq<Seq<u8>>,
    pub md5sum: Option<Seq<u8>>,
}

/// Mathematical model of [`Keys`].
pub enum SpecKeys {
    SingleFile { length: u64, md5sum: Option<Seq<u8>> },
    MultiFiles { files: Seq<SpecFile> },
}

/// Mathematical model of [`Info`].
pub struct SpecInfo {
    pub name: Seq<u8>,
    pub piece_length: u64,
    pub pieces: Seq<Seq<u8>>,
    pub keys: SpecKeys,
}

/// Mathematical model of [`Torrent`].
pub struct SpecTorrent {
    pub announce: Seq<u8>,
    pub info: SpecInfo,
    pub encoding: Option<Seq<u8>>,
}

/// The view of an optional byte vector.
pub open spec fn view_opt(o: Option<Vec<u8>>) -> Option<Seq<u8>> {
    match o {
        Option::Some(b) => Option::Some(b@),
        Option::None => Option::None,
    }
}

impl View for Hashes {
    type V = Seq<Seq<u8>>;

    open spec fn view(&self) -> Seq<Seq<u8>> {
        self.0.deep_view()
    }
}

impl View for File {
    type V = SpecFile;

    open spec fn view(&self) -> SpecFile {
        SpecFile { length: self.length, path: self.path.deep_view(), md5sum: view_opt(self.md5sum) }
    }
}

impl DeepView for File {
    type V = SpecFile;

    open spec fn deep_view(&self) -> SpecFile {
        self.view()
    }
}

impl View for Keys {
    type V = SpecKeys;

    open spec fn view(&self) -> SpecKeys {
        match self {
            Keys::SingleFile { length, md5sum } => SpecKeys::SingleFile {
                length: *length,
                md5sum: view_opt(*md5sum),
            },
            Keys::MultiFiles { files } => SpecKeys::MultiFiles { files: files.deep_view() },
        }
    }
}

impl View for Info {
    type V = SpecInfo;

    open spec fn view(&self) -> SpecInfo {
        SpecInfo {
            name: self.name@,
            piece_length: self.piece_length,
            pieces: self.pieces@,
            keys: self.keys@,
        }
    }
}

impl View for Torrent {
    type V = SpecTorrent;

    open spec fn view(&self) -> SpecTorrent {
        SpecTorrent { announce: self.announce@, info: self.info@, encoding: view_opt(self.encoding) }
    }
}

impl SpecInfo {
    /// Every piece digest is exactly 20 bytes, and each length fits the
    /// signed 64-bit range of a bencode integer.
    pub open spec fn wf(self) -> bool {
        &&& forall|i: int| 0 <= i < self.pieces.len() ==> (#[trigger] self.pieces[i]).len() == 20
        &&& self.piece_length <= 0x7fff_ffff_ffff_ffff
        &&& match self.keys {
            SpecKeys::SingleFile { length, .. } => length <= 0x7fff_ffff_ffff_ffff,
            SpecKeys::MultiFiles { files } => forall|i: int|
                0 <= i < files.len() ==> (#[trigger] files[i]).length <= 0x7fff_ffff_ffff_ffff
                    && files[i].path.len() >= 1,
        }
    }
}

/// The bytes of the `announce` key.
pub open spec fn key_announce() -> Seq<u8> {
    seq![97u8, 110, 110, 111, 117, 110, 99, 101]
}

/// The bytes of the `encoding` key.
pub open spec fn key_encoding() -> Seq<u8> {
    seq![101u8, 110, 99, 111, 100, 105, 110, 103]
}

/// The bytes of the `info` key.
pub open spec fn key_info() -> Seq<u8> {
    seq![105u8, 110, 102, 111]
}

/// The bytes of the `name` key.
pub open spec fn key_name() -> Seq<u8> {
    seq![110u8, 97, 109, 101]
}

/// The bytes of the `piece length` key.
pub open spec fn key_piece_length() -> Seq<u8> {
    seq![112u8, 105, 101, 99, 101, 32, 108, 101, 110, 103, 116, 104]
}

/// The bytes of the `pieces` key.
pub open spec fn key_pieces() -> Seq<u8> {
    seq![112u8, 105, 101, 99, 101, 115]
}

/// The bytes of the `length` key.
pub open spec fn key_length() -> Seq<u8> {
    seq![108u8, 101, 110, 103, 116, 104]
}

/// The bytes of the `md5sum` key.
pub open spec fn key_md5sum() -> Seq<u8> {
    seq![109u8, 100, 53, 115, 117, 109]
}

/// The bytes of the `files` key.
pub open spec fn key_files() -> Seq<u8> {
    seq![102u8, 105, 108, 101, 115]
}

/// The bytes of the `path` key.
pub open spec fn key_path() -> Seq<u8> {
    seq![112u8, 97, 116, 104]
}

/// The value under the first entry of `es` whose key is `k`, if any.
pub open spec fn dict_get(es: Seq<(Seq<u8>, SpecValue)>, k: Seq<u8>) -> Option<SpecValue>
    decreases es.len(),
{
    if es.len() == 0 {
        Option::None
    } else if es[0].0 == k {
        Option::Some(es[0].1)
    } else {
        dict_get(es.drop_first(), k)
    }
}

/// The consecutive 20-byte chunks of `b`, in order; exhausts `b` exactly
/// when its length is a multiple of 20.
pub open spec fn chunks20(b: Seq<u8>) -> Seq<Seq<u8>>
    decreases b.len(),
{
    if b.len() < 20 {
        Seq::empty()
    } else {
        seq![b.take(20)] + chunks20(b.skip(20))
    }
}

/// The optional `md5sum` field of a dictionary: absent, a byte string, or a
/// type error.
pub open spec fn spec_map_md5(es: Seq<(Seq<u8>, SpecValue)>) -> Result<
    Option<Seq<u8>>,
    SchemaError,
> {
    match dict_get(es, key_md5sum()) {
        Option::None => Ok(Option::None),
        Option::Some(m) => if m is Bytes {
            Ok(Option::Some(m->Bytes_0))
        } else {
            Err(SchemaError::WrongType)
        },
    }
}

/// The path segments of a file: every element a byte string.
pub open spec fn spec_map_path(es: Seq<SpecValue>) -> Result<Seq<Seq<u8>>, SchemaError>
    decreases es.len(),
{
    if es.len() == 0 {
        Ok(Seq::empty())
    } else if !(es[0] is Bytes) {
        Err(SchemaError::WrongType)
    } else {
        match spec_map_path(es.drop_first()) {
            Err(e) => Err(e),
            Ok(ps) => Ok(seq![es[0]->Bytes_0] + ps),
        }
    }
}

/// One entry of the `files` list: a dictionary with a non-negative `length`,
/// a non-empty `path` list of byte strings, and an optional `md5sum`.
pub open spec fn spec_map_file(v: SpecValue) -> Result<SpecFile, SchemaError> {
    if !(v is Dict) {
        Err(SchemaError::WrongType)
    } else {
        let es = v->Dict_0;
        match dict_get(es, key_length()) {
            Option::None => Err(SchemaError::MissingField),
            Option::Some(l) => if !(l is Int) || l->Int_0 < 0 {
                Err(SchemaError::WrongType)
            } else {
                match dict_get(es, key_path()) {
                    Option::None => Err(SchemaError::MissingField),
                    Option::Some(p) => if !(p is List) {
                        Err(SchemaError::WrongType)
                    } else {
                        match spec_map_path(p->List_0) {
                            Err(e) => Err(e),
                            Ok(segs) => if segs.len() == 0 {
                                Err(SchemaError::WrongType)
                            } else {
                                match spec_map_md5(es) {
                                    Err(e) => Err(e),
                                    Ok(m) => Ok(SpecFile {
                                        length: l->Int_0 as u64,
                                        path: segs,
                                        md5sum: m,
                                    }),
                                }
                            },
                        }
                    },
                }
            },
        }
    }
}

/// The entries of the `files` list, in order.
pub open spec fn spec_map_files(es: Seq<SpecValue>) -> Result<Seq<SpecFile>, SchemaError>
    decreases es.len(),
{
    if es.len() == 0 {
        Ok(Seq::empty())
    } else {
        match spec_map_file(es[0]) {
            Err(e) => Err(e),
            Ok(f) => match spec_map_files(es.drop_first()) {
                Err(e) => Err(e),
                Ok(fs) => Ok(seq![f] + fs),
            },
        }
    }
}

/// The layout of the `info` dictionary: `length` and `files` are mutually
/// exclusive; both present is rejected, neither present is a missing field.
pub open spec fn spec_map_keys(es: Seq<(Seq<u8>, SpecValue)>) -> Result<SpecKeys, SchemaError> {
    match (dict_get(es, key_length()), dict_get(es, key_files())) {
        (Option::Some(_), Option::Some(_)) => Err(SchemaError::ConflictingLayout),
        (Option::Some(l), Option::None) => if !(l is Int) || l->Int_0 < 0 {
            Err(SchemaError::WrongType)
        } else {
            match spec_map_md5(es) {
                Err(e) => Err(e),
                Ok(m) => Ok(SpecKeys::SingleFile { length: l->Int_0 as u64, md5sum: m }),
            }
        },
        (Option::None, Option::Some(f)) => if !(f is List) {
            Err(SchemaError::WrongType)
        } else {
            match spec_map_files(f->List_0) {
                Err(e) => Err(e),
                Ok(fs) => Ok(SpecKeys::MultiFiles { files: fs }),
            }
        },
        (Option::None, Option::None) => Err(SchemaError::MissingField),
    }
}

/// The `info` dictionary: `name`, a non-negative `piece length`, a `pieces`
/// byte string that is a whole number of 20-byte digests, and the layout.
pub open spec fn spec_map_info(es: Seq<(Seq<u8>, SpecValue)>) -> Result<SpecInfo, SchemaError> {
    match dict_get(es, key_name()) {
        Option::None => Err(SchemaError::MissingField),
        Option::Some(nv) => if !(nv is Bytes) {
            Err(SchemaError::WrongType)
        } else {
            match dict_get(es, key_piece_length()) {
                Option::None => Err(SchemaError::MissingField),
                Option::Some(pv) => if !(pv is Int) || pv->Int_0 < 0 {
                    Err(SchemaError::WrongType)
                } else {
                    match dict_get(es, key_pieces()) {
                        Option::None => Err(SchemaError::MissingField),
                        Option::Some(hv) => if !(hv is Bytes) {
                            Err(SchemaError::WrongType)
                        } else if hv->Bytes_0.len() % 20 != 0 {
                            Err(SchemaError::InvalidPieceLength)
                        } else {
                            match spec_map_keys(es) {
                                Err(e) => Err(e),
                                Ok(keys) => Ok(SpecInfo {
                                    name: nv->Bytes_0,
                                    piece_length: pv->Int_0 as u64,
                                    pieces: chunks20(hv->Bytes_0),
                                    keys,
                                }),
                            }
                        },
                    }
                },
            }
        },
    }
}

/// The whole metainfo dictionary: a required `announce` string, an optional
/// `encoding` string, and the required `info` dictionary.
pub open spec fn spec_map_torrent(v: SpecValue) -> Result<SpecTorrent, SchemaError> {
    if !(v is Dict) {
        Err(SchemaError::WrongType)
    } else {
        let es = v->Dict_0;
        match dict_get(es, key_announce()) {
            Option::None => Err(SchemaError::MissingField),
            Option::Some(av) => if !(av is Bytes) {
                Err(SchemaError::WrongType)
            } else {
                let enc = match dict_get(es, key_encoding()) {
                    Option::None => Ok(Option::None),
                    Option::Some(ev) => if ev is Bytes {
                        Ok(Option::Some(ev->Bytes_0))
                    } else {
                        Err(SchemaError::WrongType)
                    },
                };
                match enc {
                    Err(e) => Err(e),
                    Ok(encoding) => match dict_get(es, key_info()) {
                        Option::None => Err(SchemaError::MissingField),
                        Option::Some(iv) => if !(iv is Dict) {
                            Err(SchemaError::WrongType)
                        } else {
                            match spec_map_info(iv->Dict_0) {
                                Err(e) => Err(e),
                                Ok(info) => Ok(SpecTorrent {
                                    announce: av->Bytes_0,
                                    info,
                                    encoding,
                                }),
                            }
                        },
                    },
                }
            },
        }
    }
}

/// The consecutive 20-byte chunks of a whole-multiple byte sequence, by
/// index.
proof fn lemma_chunks20_index(b: Seq<u8>)
    requires
        b.len() % 20 == 0,
    ensures
        chunks20(b).len() == b.len() / 20,
        forall|i: int|
            0 <= i < chunks20(b).len() ==> #[trigger] chunks20(b)[i] == b.subrange(
                20 * i,
                20 * i + 20,
            ),
    decreases b.len(),
{
    if b.len() >= 20 {
        assert(b.skip(20).len() % 20 == 0);
        lemma_chunks20_index(b.skip(20));
        let c = chunks20(b);
        assert forall|i: int| 0 <= i < c.len() implies #[trigger] c[i] == b.subrange(
            20 * i,
            20 * i + 20,
        ) by {
            if i == 0 {
                assert(b.take(20) =~= b.subrange(0, 20));
            } else {
                assert(c[i] == chunks20(b.skip(20))[i - 1]);
                assert(chunks20(b.skip(20))[i - 1] == b.skip(20).subrange(
                    20 * (i - 1),
                    20 * (i - 1) + 20,
                ));
                assert(b.skip(20).subrange(20 * (i - 1), 20 * (i - 1) + 20) =~= b.subrange(
                    20 * i,
                    20 * i + 20,
                ));
            }
        }
    }
}

/// Slice `b` into its consecutive 20-byte digests.
fn chunk_pieces(b: &Vec<u8>) -> (r: Vec<Vec<u8>>)
    requires
        b@.len() % 20 == 0,
    ensures
        r.deep_view() == chunks20(b@),
{
    let mut r: Vec<Vec<u8>> = Vec::new();
    let mut off: usize = 0;
    while off < b.len()
        invariant
            off <= b@.len(),
            off % 20 == 0,
            b@.len() % 20 == 0,
            r@.len() == off / 20,
            forall|j: int|
                0 <= j < r@.len() ==> (#[trigger] r@[j])@ == b@.subrange(20 * j, 20 * j + 20),
        decreases b@.len() - off,
    {
        let chunk = vstd::slice::slice_to_vec(vstd::slice::slice_subrange(
            b.as_slice(),
            off,
            off + 20,
        ));
        r.push(chunk);
        off += 20;
    }
    proof {
        lemma_chunks20_index(b@);
        assert forall|j: int| 0 <= j < r@.len() implies r.deep_view()[j] == chunks20(b@)[j] by {
            assert(r.deep_view()[j] == r@[j]@);
        }
        assert(r.deep_view() =~= chunks20(b@));
    }
    r
}

/// The value under `key` in a dictionary's entry vector, if any, as
/// [`dict_get`] finds it.
fn dict_find<'a>(es: &'a Vec<(Vec<u8>, Value)>, key: &[u8]) -> (r: Option<&'a Value>)
    ensures
        match r {
            Option::Some(val) => dict_get(view_entries(es@), key@) == Option::Some(val@),
            Option::None => dict_get(view_entries(es@), key@) is None,
        },
{
    proof {
        lemma_view_entries(es@);
        assert(view_entries(es@).skip(0) =~= view_entries(es@));
    }
    let ghost full = view_entries(es@);
    let mut i: usize = 0;
    while i < es.len()
        invariant
            0 <= i <= es@.len(),
            full == view_entries(es@),
            full.len() == es@.len(),
            forall|j: int| 0 <= j < es@.len() ==> full[j] == ((#[trigger] es@[j]).0@, es@[j].1@),
            dict_get(full, key@) == dict_get(full.skip(i as int), key@),
        decreases es@.len() - i,
    {
        proof {
            assert(full.skip(i as int)[0] == full[i as int]);
            assert(full.skip(i as int).drop_first() =~= full.skip(i + 1));
        }
        if crate::decode::bytes_eq(es[i].0.as_slice(), key) {
            return Option::Some(&es[i].1);
        }
        i += 1;
    }
    proof {
        assert(full.skip(es@.len() as int) =~= Seq::<(Seq<u8>, SpecValue)>::empty());
    }
    Option::None
}

/// The optional `md5sum` field of a dictionary's entries.
fn map_md5(es: &Vec<(Vec<u8>, Value)>) -> (r: Result<Option<Vec<u8>>, SchemaError>)
    ensures
        match r {
            Ok(m) => spec_map_md5(view_entries(es@)) == Ok::<_, SchemaError>(view_opt(m)),
            Err(e) => spec_map_md5(view_entries(es@)) == Err::<Option<Seq<u8>>, _>(e),
        },
{
    let key: Vec<u8> = vec![109u8, 100, 53, 115, 117, 109];
    proof {
        assert(key@ =~= key_md5sum());
    }
    match dict_find(es, key.as_slice()) {
        Option::None => Ok(Option::None),
        Option::Some(m) => match m {
            Value::ByteString(b) => Ok(Option::Some(vstd::slice::slice_to_vec(b.as_slice()))),
            _ => Err(SchemaError::WrongType),
        },
    }
}

/// The path segments of a file from position `i` on: every element must be
/// a byte string.
fn map_path(ps: &Vec<Value>, i: usize) -> (r: Result<Vec<Vec<u8>>, SchemaError>)
    requires
        i <= ps@.len(),
    ensures
        match r {
            Ok(segs) => spec_map_path(view_elems(ps@).skip(i as int)) == Ok::<_, SchemaError>(
                segs.deep_view(),
            ),
            Err(e) => spec_map_path(view_elems(ps@).skip(i as int)) == Err::<Seq<Seq<u8>>, _>(e),
        },
    decreases ps@.len() - i,
{
    proof {
        lemma_view_elems(ps@);
    }
    let ghost s = view_elems(ps@).skip(i as int);
    if i == ps.len() {
        let none_yet: Vec<Vec<u8>> = Vec::new();
        proof {
            assert(s =~= Seq::<SpecValue>::empty());
            assert(none_yet.deep_view() =~= Seq::<Seq<u8>>::empty());
        }
        return Ok(none_yet);
    }
    proof {
        assert(s[0] == view_elems(ps@)[i as int]);
        assert(s[0] == ps@[i as int]@);
        assert(s.drop_first() =~= view_elems(ps@).skip(i + 1));
    }
    match &ps[i] {
        Value::ByteString(b) => {
            match map_path(ps, i + 1) {
                Err(e) => Err(e),
                Ok(mut segs) => {
                    let ghost tail = segs;
                    let seg = vstd::slice::slice_to_vec(b.as_slice());
                    segs.insert(0, seg);
                    proof {
                        assert forall|j: int|
                            0 <= j < segs@.len() implies segs.deep_view()[j] == (seq![b@]
                            + tail.deep_view())[j] by {
                            if j > 0 {
                                assert(segs@[j] == tail@[j - 1]);
                                assert(tail.deep_view()[j - 1] == tail@[j - 1]@);
                            }
                        }
                        assert(segs.deep_view() =~= seq![b@] + tail.deep_view());
                    }
                    Ok(segs)
                },
            }
        },
        _ => Err(SchemaError::WrongType),
    }
}

/// One entry of the `files` list.
fn map_file(v: &Value) -> (r: Result<File, SchemaError>)
    ensures
        match r {
            Ok(f) => spec_map_file(v@) == Ok::<_, SchemaError>(f@),
            Err(e) => spec_map_file(v@) == Err::<SpecFile, _>(e),
        },
{
    let es = match v {
        Value::Dictionary(es) => es,
        _ => {
            return Err(SchemaError::WrongType);
        },
    };
    let length_key: Vec<u8> = vec![108u8, 101, 110, 103, 116, 104];
    let path_key: Vec<u8> = vec![112u8, 97, 116, 104];
    proof {
        assert(length_key@ =~= key_length());
        assert(path_key@ =~= key_path());
    }
    let length: u64 = match dict_find(es, length_key.as_slice()) {
        Option::None => {
            return Err(SchemaError::MissingField);
        },
        Option::Some(l) => match l {
            Value::Integer(n) => {
                if *n < 0 {
                    return Err(SchemaError::WrongType);
                }
                *n as u64
            },
            _ => {
                return Err(SchemaError::WrongType);
            },
        },
    };
    let pl = match dict_find(es, path_key.as_slice()) {
        Option::None => {
            return Err(SchemaError::MissingField);
        },
        Option::Some(p) => match p {
            Value::List(pl) => pl,
            _ => {
                return Err(SchemaError::WrongType);
            },
        },
    };
    proof {
        assert(view_elems(pl@).skip(0) =~= view_elems(pl@));
    }
    let segs = match map_path(pl, 0) {
        Err(e) => {
            return Err(e);
        },
        Ok(segs) => segs,
    };
    if segs.len() == 0 {
        return Err(SchemaError::WrongType);
    }
    match map_md5(es) {
        Err(e) => Err(e),
        Ok(m) => Ok(File { length, path: segs, md5sum: m }),
    }
}

/// The views of a file vector, file by file.
fn map_files(fs: &Vec<Value>, i: usize) -> (r: Result<Vec<File>, SchemaError>)
    requires
        i <= fs@.len(),
    ensures
        match r {
            Ok(out) => spec_map_files(view_elems(fs@).skip(i as int)) == Ok::<_, SchemaError>(
                out.deep_view(),
            ),
            Err(e) => spec_map_files(view_elems(fs@).skip(i as int)) == Err::<Seq<SpecFile>, _>(
                e,
            ),
        },
    decreases fs@.len() - i,
{
    proof {
        lemma_view_elems(fs@);
    }
    let ghost s = view_elems(fs@).skip(i as int);
    if i == fs.len() {
        let none_yet: Vec<File> = Vec::new();
        proof {
            assert(s =~= Seq::<SpecValue>::empty());
            assert(none_yet.deep_view() =~= Seq::<SpecFile>::empty());
        }
        return Ok(none_yet);
    }
    proof {
        assert(s[0] == fs@[i as int]@);
        assert(s.drop_first() =~= view_elems(fs@).skip(i + 1));
    }
    match map_file(&fs[i]) {
        Err(e) => Err(e),
        Ok(f) => {
            match map_files(fs, i + 1) {
                Err(e) => Err(e),
                Ok(mut out) => {
                    let ghost fv = f@;
                    let ghost tail = out;
                    out.insert(0, f);
                    proof {
                        assert forall|j: int|
                            0 <= j < out@.len() implies out.deep_view()[j] == (seq![fv]
                            + tail.deep_view())[j] by {
                            if j > 0 {
                                assert(out@[j] == tail@[j - 1]);
                                assert(tail.deep_view()[j - 1] == tail@[j - 1].deep_view());
                            }
                        }
                        assert(out.deep_view() =~= seq![fv] + tail.deep_view());
                    }
                    Ok(out)
                },
            }
        },
    }
}

/// The single-file or multi-file layout of an `info` dictionary.
fn map_keys(es: &Vec<(Vec<u8>, Value)>) -> (r: Result<Keys, SchemaError>)
    ensures
        match r {
            Ok(k) => spec_map_keys(view_entries(es@)) == Ok::<_, SchemaError>(k@),
            Err(e) => spec_map_keys(view_entries(es@)) == Err::<SpecKeys, _>(e),
        },
{
    let length_key: Vec<u8> = vec![108u8, 101, 110, 103, 116, 104];
    let files_key: Vec<u8> = vec![102u8, 105, 108, 101, 115];
    proof {
        assert(length_key@ =~= key_length());
        assert(files_key@ =~= key_files());
    }
    let lv = dict_find(es, length_key.as_slice());
    let fv = dict_find(es, files_key.as_slice());
    match (lv, fv) {
        (Option::Some(_), Option::Some(_)) => Err(SchemaError::ConflictingLayout),
        (Option::Some(l), Option::None) => {
            let length: u64 = match l {
                Value::Integer(n) => {
                    if *n < 0 {
                        return Err(SchemaError::WrongType);
                    }
                    *n as u64
                },
                _ => {
                    return Err(SchemaError::WrongType);
                },
            };
            match map_md5(es) {
                Err(e) => Err(e),
                Ok(m) => Ok(Keys::SingleFile { length, md5sum: m }),
            }
        },
        (Option::None, Option::Some(f)) => {
            let fl = match f {
                Value::List(fl) => fl,
                _ => {
                    return Err(SchemaError::WrongType);
                },
            };
            proof {
                assert(view_elems(fl@).skip(0) =~= view_elems(fl@));
            }
            match map_files(fl, 0) {
                Err(e) => Err(e),
                Ok(out) => Ok(Keys::MultiFiles { files: out }),
            }
        },
        (Option::None, Option::None) => Err(SchemaError::MissingField),
    }
}

/// The `info` dictionary of a torrent, from its decoded entries.
fn map_info(es: &Vec<(Vec<u8>, Value)>) -> (r: Result<Info, SchemaError>)
    ensures
        match r {
            Ok(info) => spec_map_info(view_entries(es@)) == Ok::<_, SchemaError>(info@),
            Err(e) => spec_map_info(view_entries(es@)) == Err::<SpecInfo, _>(e),
        },
{
    let name_key: Vec<u8> = vec![110u8, 97, 109, 101];
    let plen_key: Vec<u8> = vec![112u8, 105, 101, 99, 101, 32, 108, 101, 110, 103, 116, 104];
    let pieces_key: Vec<u8> = vec![112u8, 105, 101, 99, 101, 115];
    proof {
        assert(name_key@ =~= key_name());
        assert(plen_key@ =~= key_piece_length());
        assert(pieces_key@ =~= key_pieces());
    }
    let name: Vec<u8> = match dict_find(es, name_key.as_slice()) {
        Option::None => {
            return Err(SchemaError::MissingField);
        },
        Option::Some(nv) => match nv {
            Value::ByteString(b) => vstd::slice::slice_to_vec(b.as_slice()),
            _ => {
                return Err(SchemaError::WrongType);
            },
        },
    };
    let piece_length: u64 = match dict_find(es, plen_key.as_slice()) {
        Option::None => {
            return Err(SchemaError::MissingField);
        },
        Option::Some(pv) => match pv {
            Value::Integer(n) => {
                if *n < 0 {
                    return Err(SchemaError::WrongType);
                }
                *n as u64
            },
            _ => {
                return Err(SchemaError::WrongType);
            },
        },
    };
    let pieces: Vec<Vec<u8>> = match dict_find(es, pieces_key.as_slice()) {
        Option::None => {
            return Err(SchemaError::MissingField);
        },
        Option::Some(hv) => match hv {
            Value::ByteString(b) => {
                if b.len() % 20 != 0 {
                    return Err(SchemaError::InvalidPieceLength);
                }
                chunk_pieces(b)
            },
            _ => {
                return Err(SchemaError::WrongType);
            },
        },
    };
    match map_keys(es) {
        Err(e) => Err(e),
        Ok(keys) => Ok(Info { name, piece_length, pieces: Hashes(pieces), keys }),
    }
}

/// Project a decoded bencode value onto the torrent schema: fails with the
/// reason if a required field is absent, a field has the wrong kind of
/// value, `length` and `files` are both present, or the `pieces` byte
/// string is not a whole number of 20-byte digests.
pub fn map_torrent(v: &Value) -> (r: Result<Torrent, SchemaError>)
    ensures
        match r {
            Ok(t) => spec_map_torrent(v@) == Ok::<_, SchemaError>(t@),
            Err(e) => spec_map_torrent(v@) == Err::<SpecTorrent, _>(e),
        },
{
    let es = match v {
        Value::Dictionary(es) => es,
        _ => {
            return Err(SchemaError::WrongType);
        },
    };
    let announce_key: Vec<u8> = vec![97u8, 110, 110, 111, 117, 110, 99, 101];
    let encoding_key: Vec<u8> = vec![101u8, 110, 99, 111, 100, 105, 110, 103];
    let info_key: Vec<u8> = vec![105u8, 110, 102, 111];
    proof {
        assert(announce_key@ =~= key_announce());
        assert(encoding_key@ =~= key_encoding());
        assert(info_key@ =~= key_info());
    }
    let announce: Vec<u8> = match dict_find(es, announce_key.as_slice()) {
        Option::None => {
            return Err(SchemaError::MissingField);
        },
        Option::Some(av) => match av {
            Value::ByteString(b) => vstd::slice::slice_to_vec(b.as_slice()),
            _ => {
                return Err(SchemaError::WrongType);
            },
        },
    };
    let encoding: Option<Vec<u8>> = match dict_find(es, encoding_key.as_slice()) {
        Option::None => Option::None,
        Option::Some(ev) => match ev {
            Value::ByteString(b) => Option::Some(vstd::slice::slice_to_vec(b.as_slice())),
            _ => {
                return Err(SchemaError::WrongType);
            },
        },
    };
    let ies = match dict_find(es, info_key.as_slice()) {
        Option::None => {
            return Err(SchemaError::MissingField);
        },
        Option::Some(iv) => match iv {
            Value::Dictionary(ies) => ies,
            _ => {
                return Err(SchemaError::WrongType);
            },
        },
    };
    match map_info(ies) {
        Err(e) => Err(e),
        Ok(info) => Ok(Torrent { announce, info, encoding }),
    }
}

/// Every file list the mapper accepts has bounded lengths and non-empty
/// paths.
proof fn lemma_spec_map_files_wf(es: Seq<SpecValue>)
    ensures
        match spec_map_files(es) {
            Ok(fs) => forall|i: int|
                0 <= i < fs.len() ==> (#[trigger] fs[i]).length <= 0x7fff_ffff_ffff_ffff
                    && fs[i].path.len() >= 1,
            Err(_) => true,
        },
    decreases es.len(),
{
    if es.len() > 0 {
        lemma_spec_map_files_wf(es.drop_first());
        match spec_map_file(es[0]) {
            Err(_) => {},
            Ok(f) => {
                match spec_map_files(es.drop_first()) {
                    Err(_) => {},
                    Ok(fs) => {
                        assert forall|i: int|
                            0 <= i < (seq![f] + fs).len() implies (#[trigger] (seq![f]
                            + fs)[i]).length <= 0x7fff_ffff_ffff_ffff && (seq![f]
                            + fs)[i].path.len() >= 1 by {
                            if i > 0 {
                                assert((seq![f] + fs)[i] == fs[i - 1]);
                            } else {
                                assert((seq![f] + fs)[0] == f);
                            }
                        }
                    },
                }
            },
        }
    }
}

/// Every torrent the mapper accepts satisfies the `info` well-formedness
/// invariant: 20-byte piece digests, lengths within the bencode integer
/// range, non-empty file paths.
pub proof fn lemma_map_torrent_wf(v: SpecValue)
    ensures
        match spec_map_torrent(v) {
            Ok(t) => t.info.wf(),
            Err(_) => true,
        },
{
    match spec_map_torrent(v) {
        Err(_) => {},
        Ok(t) => {
            let es = v->Dict_0;
            let iv = dict_get(es, key_info());
            let ies = iv->0->Dict_0;
            let hv = dict_get(ies, key_pieces());
            lemma_chunks20_index(hv->0->Bytes_0);
            match (dict_get(ies, key_length()), dict_get(ies, key_files())) {
                (Option::Some(_), Option::Some(_)) => {},
                (Option::Some(_), Option::None) => {},
                (Option::None, Option::Some(f)) => {
                    lemma_spec_map_files_wf(f->List_0);
                },
                (Option::None, Option::None) => {},
            }
        },
    }
}

/// Parse torrent file content: decode the leading bencode term and map it
/// onto the torrent schema, with the exact error of whichever stage failed.
pub fn decode_torrent_file(content: &[u8]) -> (r: Result<Torrent, TorrentError>)
    ensures
        match spec_parse(content@) {
            Err(e) => r == Err::<Torrent, _>(TorrentError::Decode(e)),
            Ok(p) => match spec_map_torrent(p.0) {
                Err(e) => r == Err::<Torrent, _>(TorrentError::Schema(e)),
                Ok(t) => r matches Ok(rt) && rt@ == t && rt@.info.wf(),
            },
        },
{
    let v = match decode(content) {
        Ok(p) => p.0,
        Err(e) => {
            return Err(TorrentError::Decode(e));
        },
    };
    proof {
        lemma_map_torrent_wf(v@);
    }
    match map_torrent(&v) {
        Ok(t) => Ok(t),
        Err(e) => Err(TorrentError::Schema(e)),
    }
}

} // verus!

//! The info-hash computer: rebuilds the `info` dictionary as a bencode
//! value, encodes it canonically, and digests the bytes with SHA-1.
//!
//! The digest itself is an outside primitive; everything around it — the
//! reconstruction of the dictionary, its canonical encoding, and the hex
//! rendering — is specified exactly, so identical `Info` content always
//! yields an identical digest.

use vstd::prelude::*;

use sha1::{Digest, Sha1};

use crate::encode::{canon, encode, serialized};
use crate::torrent::{
    key_files, key_length, key_md5sum, key_name, key_path, key_piece_length, key_pieces, File,
    Hashes, Info, Keys, SpecFile, SpecInfo, SpecKeys,
};
use crate::value::{view_elems, view_entries, SpecValue, Value};

verus! {

/// The SHA-1 digest of a byte sequence, named: it is a function of the
/// bytes alone, computed by the outside crate.
pub uninterp spec fn sha1_of(bytes: Seq<u8>) -> Seq<u8>;

/// Relies on `sha1::Sha1` through the `Digest` interface: the digest
/// depends on the input bytes alone and is always exactly 20 bytes
/// (`OutputSize = U20`).
#[verifier::external_body]
fn sha1_digest(bytes: &[u8]) -> (r: Vec<u8>)
    ensures
        r@ == sha1_of(bytes@),
        r@.len() == 20,
{
    let mut hasher = Sha1::new();
    hasher.update(bytes);
    hasher.finalize().to_vec()
}

/// The lowercase hex digit for a nibble.
pub open spec fn hex_digit(n: u8) -> char {
    if n < 10 {
        (48 + n) as char
    } else {
        (87 + n) as char
    }
}

/// Lowercase hex rendering of a byte sequence: two digits per byte, high
/// nibble first.
pub open spec fn hex_of(b: Seq<u8>) -> Seq<char>
    decreases b.len(),
{
    if b.len() == 0 {
        Seq::empty()
    } else {
        hex_of(b.drop_last()).push(hex_digit(b.last() / 16)).push(hex_digit(b.last() % 16))
    }
}

/// Relies on `hex::encode`: two lowercase hex digits for each input byte,
/// high nibble first.
#[verifier::external_body]
pub(crate) fn hex_encode(bytes: &[u8]) -> (r: String)
    ensures
        r@ == hex_of(bytes@),
{
    hex::encode(bytes)
}

/// The concatenation of the piece digests, in piece order.
pub open spec fn concat_pieces(ps: Seq<Seq<u8>>) -> Seq<u8>
    decreases ps.len(),
{
    if ps.len() == 0 {
        Seq::empty()
    } else {
        ps[0] + concat_pieces(ps.drop_first())
    }
}

/// Concatenating one more piece appends its bytes.
proof fn lemma_concat_pieces_snoc(ps: Seq<Seq<u8>>, x: Seq<u8>)
    ensures
        concat_pieces(ps.push(x)) == concat_pieces(ps) + x,
    decreases ps.len(),
{
    if ps.len() == 0 {
        reveal_with_fuel(concat_pieces, 2);
        assert(ps.push(x)[0] == x);
        assert(ps.push(x).drop_first() =~= Seq::empty());
        assert(concat_pieces(ps.push(x)) =~= x);
        assert(concat_pieces(ps) + x =~= x);
    } else {
        assert(ps.push(x).drop_first() =~= ps.drop_first().push(x));
        assert(ps.push(x)[0] == ps[0]);
        lemma_concat_pieces_snoc(ps.drop_first(), x);
        assert(concat_pieces(ps.push(x)) =~= concat_pieces(ps) + x);
    }
}

/// The `md5sum` entry of an `info` or file dictionary, if the digest is
/// present.
pub open spec fn md5_entries(m: Option<Seq<u8>>) -> Seq<(Seq<u8>, SpecValue)> {
    match m {
        Option::Some(b) => seq![(key_md5sum(), SpecValue::Bytes(b))],
        Option::None => Seq::empty(),
    }
}

/// The dictionary value of one file entry, keys in ascending order:
/// `length`, `md5sum` when present, `path`.
pub open spec fn spec_file_value(f: SpecFile) -> SpecValue {
    SpecValue::Dict(
        seq![(key_length(), SpecValue::Int(f.length as i64))] + md5_entries(f.md5sum) + seq![
            (
                key_path(),
                SpecValue::List(Seq::new(f.path.len(), |j: int| SpecValue::Bytes(f.path[j]))),
            ),
        ],
    )
}

/// The `info` dictionary value rebuilt from the typed description, keys in
/// ascending order: `length`/`files` and `md5sum` by layout, then `name`,
/// `piece length`, `pieces`.
pub open spec fn spec_info_value(i: SpecInfo) -> SpecValue {
    let common = seq![
        (key_name(), SpecValue::Bytes(i.name)),
        (key_piece_length(), SpecValue::Int(i.piece_length as i64)),
        (key_pieces(), SpecValue::Bytes(concat_pieces(i.pieces))),
    ];
    match i.keys {
        SpecKeys::SingleFile { length, md5sum } => SpecValue::Dict(
            seq![(key_length(), SpecValue::Int(length as i64))] + md5_entries(md5sum) + common,
        ),
        SpecKeys::MultiFiles { files } => SpecValue::Dict(
            seq![
                (
                    key_files(),
                    SpecValue::List(Seq::new(files.len(), |j: int| spec_file_value(files[j]))),
                ),
            ] + common,
        ),
    }
}

/// All piece digests, concatenated in piece order.
fn flatten_pieces(h: &Hashes) -> (r: Vec<u8>)
    ensures
        r@ == concat_pieces(h@),
{
    let mut r: Vec<u8> = Vec::new();
    let mut i: usize = 0;
    proof {
        assert(h@.take(0) =~= Seq::empty());
        assert(r@ =~= concat_pieces(h@.take(0)));
    }
    while i < h.0.len()
        invariant
            0 <= i <= h.0@.len(),
            h@.len() == h.0@.len(),
            forall|j: int| 0 <= j < h.0@.len() ==> h@[j] == (#[trigger] h.0@[j])@,
            r@ == concat_pieces(h@.take(i as int)),
        decreases h.0@.len() - i,
    {
        let piece = &h.0[i];
        let mut k: usize = 0;
        let ghost mid = r@;
        while k < piece.len()
            invariant
                0 <= k <= piece@.len(),
                r@ == mid + piece@.take(k as int),
            decreases piece@.len() - k,
        {
            r.push(piece[k]);
            proof {
                assert(piece@.take(k + 1) =~= piece@.take(k as int).push(piece@[k as int]));
                assert(r@ =~= mid + piece@.take(k + 1));
            }
            k += 1;
        }
        proof {
            assert(piece@.take(piece@.len() as int) =~= piece@);
            assert(h@.take(i + 1) =~= h@.take(i as int).push(h@[i as int]));
            lemma_concat_pieces_snoc(h@.take(i as int), h@[i as int]);
            assert(r@ =~= concat_pieces(h@.take(i + 1)));
        }
        i += 1;
    }
    proof {
        assert(h@.take(h@.len() as int) =~= h@);
    }
    r
}

/// The dictionary value of one file entry.
fn file_to_value(f: &File) -> (r: Value)
    requires
        f@.length <= 0x7fff_ffff_ffff_ffff,
    ensures
        r@ == spec_file_value(f@),
{
    let mut entries: Vec<(Vec<u8>, Value)> = Vec::new();
    let length_key: Vec<u8> = vec![108u8, 101, 110, 103, 116, 104];
    let md5_key: Vec<u8> = vec![109u8, 100, 53, 115, 117, 109];
    let path_key: Vec<u8> = vec![112u8, 97, 116, 104];
    proof {
        assert(length_key@ =~= key_length());
        assert(md5_key@ =~= key_md5sum());
        assert(path_key@ =~= key_path());
    }
    let ghost layout: Seq<(Seq<u8>, SpecValue)> = seq![
        (key_length(), SpecValue::Int(f@.length as i64)),
    ] + md5_entries(f@.md5sum);
    entries.push((length_key, Value::Integer(f.length as i64)));
    match &f.md5sum {
        Option::Some(m) => {
            entries.push((md5_key, Value::ByteString(vstd::slice::slice_to_vec(m.as_slice()))));
            proof {
                crate::value::lemma_view_entries(entries@);
                assert(view_entries(entries@)[0] == ((entries@[0].0@, entries@[0].1@)));
                assert(view_entries(entries@)[1] == ((entries@[1].0@, entries@[1].1@)));
                assert(layout[1] == (key_md5sum(), SpecValue::Bytes(m@)));
                assert(view_entries(entries@) =~= layout);
            }
        },
        Option::None => {
            proof {
                crate::value::lemma_view_entries(entries@);
                assert(view_entries(entries@)[0] == ((entries@[0].0@, entries@[0].1@)));
                assert(view_entries(entries@) =~= layout);
            }
        },
    };
    let mut segs: Vec<Value> = Vec::new();
    let mut j: usize = 0;
    while j < f.path.len()
        invariant
            0 <= j <= f.path@.len(),
            segs@.len() == j,
            forall|t: int| 0 <= t < j ==> (#[trigger] segs@[t])@ == SpecValue::Bytes(
                f.path@[t]@,
            ),
        decreases f.path@.len() - j,
    {
        segs.push(Value::ByteString(vstd::slice::slice_to_vec(f.path[j].as_slice())));
        j += 1;
    }
    proof {
        crate::value::lemma_view_elems(segs@);
        assert forall|t: int|
            0 <= t < segs@.len() implies view_elems(segs@)[t] == SpecValue::Bytes(
            f@.path[t],
        ) by {
            assert(view_elems(segs@)[t] == segs@[t]@);
            assert(f@.path[t] == f.path@[t]@);
        }
        assert(view_elems(segs@) =~= Seq::new(
            f@.path.len(),
            |t: int| SpecValue::Bytes(f@.path[t]),
        ));
    }
    let ghost split: int = entries@.len() as int;
    let ghost pre = entries@;
    proof {
        assert(view_entries(pre) == layout);
    }
    entries.push((path_key, Value::List(segs)));
    let r = Value::Dictionary(entries);
    proof {
        crate::value::lemma_view_entries(entries@);
        crate::value::lemma_view_entries(pre);
        let spec_es = spec_file_value(f@)->Dict_0;
        assert(spec_es.len() == split + 1);
        assert forall|i: int|
            0 <= i < entries@.len() implies view_entries(entries@)[i] == spec_es[i] by {
            assert(view_entries(entries@)[i] == ((entries@[i].0@, entries@[i].1@)));
            if i < split {
                assert(entries@[i] == pre[i]);
                assert(view_entries(pre)[i] == ((pre[i].0@, pre[i].1@)));
                assert(view_entries(pre)[i] == layout[i]);
                assert(spec_es[i] == layout[i]);
            }
        }
        assert(view_entries(entries@) =~= spec_es);
        assert(r@ == spec_file_value(f@));
    }
    r
}

/// The `info` dictionary value rebuilt from the typed description, entries
/// already in canonical key order.
pub fn info_to_value(info: &Info) -> (r: Value)
    requires
        info@.wf(),
    ensures
        r@ == spec_info_value(info@),
{
    let mut entries: Vec<(Vec<u8>, Value)> = Vec::new();
    let length_key: Vec<u8> = vec![108u8, 101, 110, 103, 116, 104];
    let md5_key: Vec<u8> = vec![109u8, 100, 53, 115, 117, 109];
    let files_key: Vec<u8> = vec![102u8, 105, 108, 101, 115];
    let name_key: Vec<u8> = vec![110u8, 97, 109, 101];
    let plen_key: Vec<u8> = vec![112u8, 105, 101, 99, 101, 32, 108, 101, 110, 103, 116, 104];
    let pieces_key: Vec<u8> = vec![112u8, 105, 101, 99, 101, 115];
    proof {
        assert(length_key@ =~= key_length());
        assert(md5_key@ =~= key_md5sum());
        assert(files_key@ =~= key_files());
        assert(name_key@ =~= key_name());
        assert(plen_key@ =~= key_piece_length());
        assert(pieces_key@ =~= key_pieces());
    }
    let ghost layout: Seq<(Seq<u8>, SpecValue)> = match info@.keys {
        SpecKeys::SingleFile { length, md5sum } => seq![
            (key_length(), SpecValue::Int(length as i64)),
        ] + md5_entries(md5sum),
        SpecKeys::MultiFiles { files } => seq![
            (
                key_files(),
                SpecValue::List(Seq::new(files.len(), |t: int| spec_file_value(files[t]))),
            ),
        ],
    };
    match &info.keys {
        Keys::SingleFile { length, md5sum } => {
            entries.push((length_key, Value::Integer(*length as i64)));
            match md5sum {
                Option::Some(m) => {
                    entries.push((
                        md5_key,
                        Value::ByteString(vstd::slice::slice_to_vec(m.as_slice())),
                    ));
                    proof {
                        crate::value::lemma_view_entries(entries@);
                        assert(view_entries(entries@)[0] == ((
                            entries@[0].0@,
                            entries@[0].1@,
                        )));
                        assert(view_entries(entries@)[1] == ((
                            entries@[1].0@,
                            entries@[1].1@,
                        )));
                        assert(layout[1] == (key_md5sum(), SpecValue::Bytes(m@)));
                        assert(view_entries(entries@) =~= layout);
                    }
                },
                Option::None => {
                    proof {
                        crate::value::lemma_view_entries(entries@);
                        assert(view_entries(entries@)[0] == ((
                            entries@[0].0@,
                            entries@[0].1@,
                        )));
                        assert(view_entries(entries@) =~= layout);
                    }
                },
            }
        },
        Keys::MultiFiles { files } => {
            let mut fvs: Vec<Value> = Vec::new();
            let mut j: usize = 0;
            while j < files.len()
                invariant
                    info.keys == (Keys::MultiFiles { files: *files }),
                    info@.wf(),
                    0 <= j <= files@.len(),
                    fvs@.len() == j,
                    forall|t: int| 0 <= t < j ==> (#[trigger] fvs@[t])@ == spec_file_value(
                        files@[t]@,
                    ),
                decreases files@.len() - j,
            {
                proof {
                    assert(info@.keys->MultiFiles_files[j as int] == files@[j as int]@);
                }
                let fv = file_to_value(&files[j]);
                fvs.push(fv);
                j += 1;
            }
            proof {
                crate::value::lemma_view_elems(fvs@);
                let files_spec = info@.keys->MultiFiles_files;
                assert forall|t: int|
                    0 <= t < fvs@.len() implies view_elems(fvs@)[t] == spec_file_value(
                    files_spec[t],
                ) by {
                    assert(view_elems(fvs@)[t] == fvs@[t]@);
                    assert(files_spec[t] == files@[t]@);
                }
                assert(view_elems(fvs@) =~= Seq::new(
                    files_spec.len(),
                    |t: int| spec_file_value(files_spec[t]),
                ));
            }
            entries.push((files_key, Value::List(fvs)));
            proof {
                crate::value::lemma_view_entries(entries@);
                assert(view_entries(entries@)[0] == ((entries@[0].0@, entries@[0].1@)));
                assert(view_entries(entries@) =~= layout);
            }
        },
    }
    let ghost split: int = entries@.len() as int;
    let ghost pre = entries@;
    proof {
        assert(view_entries(pre) == layout);
    }
    entries.push((
        name_key,
        Value::ByteString(vstd::slice::slice_to_vec(info.name.as_slice())),
    ));
    entries.push((plen_key, Value::Integer(info.piece_length as i64)));
    entries.push((pieces_key, Value::ByteString(flatten_pieces(&info.pieces))));
    let r = Value::Dictionary(entries);
    proof {
        crate::value::lemma_view_entries(entries@);
        crate::value::lemma_view_entries(pre);
        let spec_es = spec_info_value(info@)->Dict_0;
        assert(spec_es.len() == split + 3);
        assert forall|i: int|
            0 <= i < entries@.len() implies view_entries(entries@)[i] == spec_es[i] by {
            assert(view_entries(entries@)[i] == ((entries@[i].0@, entries@[i].1@)));
            if i < split {
                assert(entries@[i] == pre[i]);
                assert(view_entries(pre)[i] == ((pre[i].0@, pre[i].1@)));
                assert(view_entries(pre)[i] == layout[i]);
                assert(spec_es[i] == layout[i]);
            }
        }
        assert(view_entries(entries@) =~= spec_es);
        assert(r@ == spec_info_value(info@));
    }
    r
}

/// The info hash of a torrent: the lowercase hex of the SHA-1 digest of the
/// canonical bencode encoding of the rebuilt `info` dictionary. Identical
/// `Info` content always yields the identical digest.
pub fn info_sha1_hash(info: &Info) -> (r: String)
    requires
        info@.wf(),
    ensures
        r@ == hex_of(sha1_of(serialized(canon(spec_info_value(info@))))),
{
    let v = info_to_value(info);
    let bytes = encode(&v);
    let digest = sha1_digest(bytes.as_slice());
    hex_encode(digest.as_slice())
}

} // verus!

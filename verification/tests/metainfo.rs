use bittorrent::decode::decode;
use bittorrent::executors::{Command, ExecOutcome, ExecutorFactory};
use bittorrent::torrent::TorrentError;
use bittorrent::hashing::info_sha1_hash;
use bittorrent::torrent::{decode_torrent_file, map_torrent, Keys, SchemaError};
use sha1::{Digest, Sha1};

fn bstr(s: &[u8]) -> Vec<u8> {
    let mut out = format!("{}:", s.len()).into_bytes();
    out.extend_from_slice(s);
    out
}

fn bint(i: i64) -> Vec<u8> {
    format!("i{}e", i).into_bytes()
}

/// The sample single-file metainfo: announce URL, then the info dictionary
/// with the given pieces byte string.
fn sample_torrent_bytes(pieces: &[u8], extra_info: &[(&[u8], Vec<u8>)]) -> Vec<u8> {
    let mut out = Vec::new();
    out.push(b'd');
    out.extend_from_slice(&bstr(b"announce"));
    out.extend_from_slice(&bstr(
        b"http://bittorrent-test-tracker.codecrafters.io/announce",
    ));
    out.extend_from_slice(&bstr(b"info"));
    out.push(b'd');
    out.extend_from_slice(&bstr(b"length"));
    out.extend_from_slice(&bint(92063));
    out.extend_from_slice(&bstr(b"name"));
    out.extend_from_slice(&bstr(b"sample.txt"));
    out.extend_from_slice(&bstr(b"piece length"));
    out.extend_from_slice(&bint(32768));
    out.extend_from_slice(&bstr(b"pieces"));
    out.extend_from_slice(&bstr(pieces));
    for (k, v) in extra_info {
        out.extend_from_slice(&bstr(k));
        out.extend_from_slice(v);
    }
    out.push(b'e');
    out.push(b'e');
    out
}

fn sample_pieces() -> Vec<u8> {
    let mut pieces = Vec::new();
    pieces.extend_from_slice(&hex::decode("e876f67a2a8886e8f36b136726c30fa29703022d").unwrap());
    pieces.extend_from_slice(&hex::decode("6e2275e604a0766656736e81ff10b55204ad8d35").unwrap());
    pieces.extend_from_slice(&hex::decode("f00d937a0213df1982bc8d097227ad9e909acc17").unwrap());
    pieces
}

#[test]
fn maps_single_file_torrent() {
    let raw = sample_torrent_bytes(&sample_pieces(), &[]);
    let (v, n) = decode(&raw).unwrap();
    assert_eq!(n, raw.len());
    let t = map_torrent(&v).unwrap();
    assert_eq!(
        t.announce,
        b"http://bittorrent-test-tracker.codecrafters.io/announce".to_vec()
    );
    assert_eq!(t.info.name, b"sample.txt".to_vec());
    assert_eq!(t.info.piece_length, 32768);
    assert_eq!(t.info.pieces.0.len(), 3);
    assert_eq!(
        hex::encode(&t.info.pieces.0[0]),
        "e876f67a2a8886e8f36b136726c30fa29703022d"
    );
    match &t.info.keys {
        Keys::SingleFile { length, md5sum } => {
            assert_eq!(*length, 92063);
            assert!(md5sum.is_none());
        }
        _ => panic!("expected a single-file layout"),
    }
    assert!(t.encoding.is_none());
}

#[test]
fn sample_info_hash_matches_reference_digest() {
    let raw = sample_torrent_bytes(&sample_pieces(), &[]);
    let (v, _) = decode(&raw).unwrap();
    let t = map_torrent(&v).unwrap();
    let first = info_sha1_hash(&t.info);
    assert_eq!(first, "d69f91e6b2ae4c542468d1073a71d4ea13879a7f");
    // Recomputing on the same content is idempotent.
    let second = info_sha1_hash(&t.info);
    assert_eq!(first, second);
}

#[test]
fn pieces_length_not_multiple_of_twenty_is_rejected() {
    let raw = sample_torrent_bytes(&vec![7u8; 37], &[]);
    let (v, _) = decode(&raw).unwrap();
    assert_eq!(map_torrent(&v).err(), Some(SchemaError::InvalidPieceLength));
}

#[test]
fn length_and_files_together_are_conflicting_layout() {
    let mut files = Vec::new();
    files.push(b'l');
    files.push(b'd');
    files.extend_from_slice(&bstr(b"length"));
    files.extend_from_slice(&bint(5));
    files.extend_from_slice(&bstr(b"path"));
    files.push(b'l');
    files.extend_from_slice(&bstr(b"a.txt"));
    files.push(b'e');
    files.push(b'e');
    files.push(b'e');
    let raw = sample_torrent_bytes(&sample_pieces(), &[(b"files", files)]);
    let (v, _) = decode(&raw).unwrap();
    assert_eq!(map_torrent(&v).err(), Some(SchemaError::ConflictingLayout));
}

fn multi_file_torrent_bytes() -> Vec<u8> {
    let mut out = Vec::new();
    out.push(b'd');
    out.extend_from_slice(&bstr(b"announce"));
    out.extend_from_slice(&bstr(b"http://tracker.example/announce"));
    out.extend_from_slice(&bstr(b"info"));
    out.push(b'd');
    out.extend_from_slice(&bstr(b"files"));
    out.push(b'l');
    out.push(b'd');
    out.extend_from_slice(&bstr(b"length"));
    out.extend_from_slice(&bint(100));
    out.extend_from_slice(&bstr(b"path"));
    out.push(b'l');
    out.extend_from_slice(&bstr(b"dir1"));
    out.extend_from_slice(&bstr(b"file.ext"));
    out.push(b'e');
    out.push(b'e');
    out.push(b'd');
    out.extend_from_slice(&bstr(b"length"));
    out.extend_from_slice(&bint(23));
    out.extend_from_slice(&bstr(b"path"));
    out.push(b'l');
    out.extend_from_slice(&bstr(b"other.txt"));
    out.push(b'e');
    out.push(b'e');
    out.push(b'e');
    out.extend_from_slice(&bstr(b"name"));
    out.extend_from_slice(&bstr(b"dir"));
    out.extend_from_slice(&bstr(b"piece length"));
    out.extend_from_slice(&bint(16384));
    out.extend_from_slice(&bstr(b"pieces"));
    out.extend_from_slice(&bstr(&[3u8; 20]));
    out.push(b'e');
    out.push(b'e');
    out
}

#[test]
fn maps_multi_file_torrent() {
    let raw = multi_file_torrent_bytes();
    let (v, _) = decode(&raw).unwrap();
    let t = map_torrent(&v).unwrap();
    match &t.info.keys {
        Keys::MultiFiles { files } => {
            assert_eq!(files.len(), 2);
            assert_eq!(files[0].length, 100);
            assert_eq!(files[0].path, vec![b"dir1".to_vec(), b"file.ext".to_vec()]);
            assert_eq!(files[1].length, 23);
            assert_eq!(files[1].path, vec![b"other.txt".to_vec()]);
        }
        _ => panic!("expected a multi-file layout"),
    }
}

#[test]
fn missing_announce_is_missing_field() {
    let raw = b"d4:infod6:lengthi1e4:name1:a12:piece lengthi1e6:pieces0:ee".to_vec();
    let (v, _) = decode(&raw).unwrap();
    assert_eq!(map_torrent(&v).err(), Some(SchemaError::MissingField));
}

#[test]
fn announce_of_wrong_kind_is_wrong_type() {
    let raw = b"d8:announcei7e4:infod6:lengthi1e4:name1:a12:piece lengthi1e6:pieces0:ee"
        .to_vec();
    let (v, _) = decode(&raw).unwrap();
    assert_eq!(map_torrent(&v).err(), Some(SchemaError::WrongType));
}

#[test]
fn executor_factory_runs_info_command() {
    let raw = sample_torrent_bytes(&sample_pieces(), &[]);
    let command = Command::Info { content: raw };
    let factory = ExecutorFactory::new();
    let outcome = factory.create(&command).execute().unwrap();
    match outcome {
        ExecOutcome::TorrentInfo {
            announce,
            total_length,
            info_hash,
            piece_length,
            piece_hashes,
        } => {
            assert_eq!(
                announce,
                b"http://bittorrent-test-tracker.codecrafters.io/announce".to_vec()
            );
            assert_eq!(total_length, 92063);
            assert_eq!(info_hash, "d69f91e6b2ae4c542468d1073a71d4ea13879a7f");
            assert_eq!(piece_length, 32768);
            assert_eq!(
                piece_hashes,
                vec![
                    "e876f67a2a8886e8f36b136726c30fa29703022d".to_string(),
                    "6e2275e604a0766656736e81ff10b55204ad8d35".to_string(),
                    "f00d937a0213df1982bc8d097227ad9e909acc17".to_string(),
                ]
            );
        }
        _ => panic!("expected a torrent report"),
    }
}

#[test]
fn executor_factory_runs_decode_command() {
    let command = Command::Decode {
        value: b"l5:helloi52ee".to_vec(),
    };
    let factory = ExecutorFactory::new();
    let outcome = factory.create(&command).execute().unwrap();
    match outcome {
        ExecOutcome::Decoded(v) => {
            assert_eq!(
                v,
                bittorrent::value::Value::List(vec![
                    bittorrent::value::Value::ByteString(b"hello".to_vec()),
                    bittorrent::value::Value::Integer(52),
                ])
            );
        }
        _ => panic!("expected a decoded value"),
    }
}

#[test]
fn info_command_total_length_sums_files() {
    let raw = multi_file_torrent_bytes();
    let command = Command::Info { content: raw };
    let outcome = ExecutorFactory::new().create(&command).execute().unwrap();
    match outcome {
        ExecOutcome::TorrentInfo { total_length, .. } => assert_eq!(total_length, 123),
        _ => panic!("expected a torrent report"),
    }
}

#[test]
fn info_command_reports_decode_errors() {
    let command = Command::Info {
        content: b"not bencode".to_vec(),
    };
    let result = ExecutorFactory::new().create(&command).execute();
    assert!(matches!(result, Err(TorrentError::Decode(_))));
}

#[test]
fn info_command_reports_schema_errors() {
    let command = Command::Info {
        content: b"i52e".to_vec(),
    };
    let result = ExecutorFactory::new().create(&command).execute();
    assert!(matches!(
        result,
        Err(TorrentError::Schema(SchemaError::WrongType))
    ));
}

#[test]
fn decode_torrent_file_parses_content() {
    let raw = sample_torrent_bytes(&sample_pieces(), &[]);
    let t = decode_torrent_file(&raw).unwrap();
    assert_eq!(t.info.name, b"sample.txt".to_vec());
    assert_eq!(t.info.piece_length, 32768);
    let bad = decode_torrent_file(b"i52e");
    assert_eq!(bad.err(), Some(TorrentError::Schema(SchemaError::WrongType)));
}

#[test]
fn multi_file_info_hash_matches_independent_digest() {
    let raw = multi_file_torrent_bytes();
    let t = decode_torrent_file(&raw).unwrap();
    let got = info_sha1_hash(&t.info);

    // The canonical form of the info dictionary, built by hand.
    let mut info = Vec::new();
    info.push(b'd');
    info.extend_from_slice(&bstr(b"files"));
    info.push(b'l');
    info.push(b'd');
    info.extend_from_slice(&bstr(b"length"));
    info.extend_from_slice(&bint(100));
    info.extend_from_slice(&bstr(b"path"));
    info.push(b'l');
    info.extend_from_slice(&bstr(b"dir1"));
    info.extend_from_slice(&bstr(b"file.ext"));
    info.push(b'e');
    info.push(b'e');
    info.push(b'd');
    info.extend_from_slice(&bstr(b"length"));
    info.extend_from_slice(&bint(23));
    info.extend_from_slice(&bstr(b"path"));
    info.push(b'l');
    info.extend_from_slice(&bstr(b"other.txt"));
    info.push(b'e');
    info.push(b'e');
    info.push(b'e');
    info.extend_from_slice(&bstr(b"name"));
    info.extend_from_slice(&bstr(b"dir"));
    info.extend_from_slice(&bstr(b"piece length"));
    info.extend_from_slice(&bint(16384));
    info.extend_from_slice(&bstr(b"pieces"));
    info.extend_from_slice(&bstr(&[3u8; 20]));
    info.push(b'e');

    let mut hasher = Sha1::new();
    hasher.update(&info);
    let expected = hex::encode(hasher.finalize());
    assert_eq!(got, expected);
}

#[test]
fn info_hash_ignores_source_key_order() {
    // The same single-file info dictionary, fields in two different orders.
    let mut a = Vec::new();
    a.push(b'd');
    a.extend_from_slice(&bstr(b"announce"));
    a.extend_from_slice(&bstr(b"http://t.example/a"));
    a.extend_from_slice(&bstr(b"info"));
    a.push(b'd');
    a.extend_from_slice(&bstr(b"pieces"));
    a.extend_from_slice(&bstr(&[9u8; 20]));
    a.extend_from_slice(&bstr(b"name"));
    a.extend_from_slice(&bstr(b"x"));
    a.extend_from_slice(&bstr(b"length"));
    a.extend_from_slice(&bint(4));
    a.extend_from_slice(&bstr(b"piece length"));
    a.extend_from_slice(&bint(2));
    a.push(b'e');
    a.push(b'e');
    let mut b = Vec::new();
    b.push(b'd');
    b.extend_from_slice(&bstr(b"announce"));
    b.extend_from_slice(&bstr(b"http://t.example/a"));
    b.extend_from_slice(&bstr(b"info"));
    b.push(b'd');
    b.extend_from_slice(&bstr(b"length"));
    b.extend_from_slice(&bint(4));
    b.extend_from_slice(&bstr(b"name"));
    b.extend_from_slice(&bstr(b"x"));
    b.extend_from_slice(&bstr(b"piece length"));
    b.extend_from_slice(&bint(2));
    b.extend_from_slice(&bstr(b"pieces"));
    b.extend_from_slice(&bstr(&[9u8; 20]));
    b.push(b'e');
    b.push(b'e');
    let ta = decode_torrent_file(&a).unwrap();
    let tb = decode_torrent_file(&b).unwrap();
    assert_eq!(info_sha1_hash(&ta.info), info_sha1_hash(&tb.info));
}

#[test]
fn md5sum_is_carried_and_hashed() {
    let md5 = b"0123456789abcdef0123456789abcdef";
    let raw = sample_torrent_bytes(&sample_pieces(), &[(b"md5sum", bstr(md5))]);
    let t = decode_torrent_file(&raw).unwrap();
    match &t.info.keys {
        Keys::SingleFile { md5sum, .. } => assert_eq!(md5sum.as_deref(), Some(&md5[..])),
        _ => panic!("expected a single-file layout"),
    }
    // A torrent with an md5sum digests differently from one without.
    let plain = decode_torrent_file(&sample_torrent_bytes(&sample_pieces(), &[])).unwrap();
    assert_ne!(info_sha1_hash(&t.info), info_sha1_hash(&plain.info));
}

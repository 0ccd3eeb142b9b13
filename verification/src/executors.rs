//! The command executors: thin verified glue from a parsed command to the
//! decoded value or the torrent report. Reading files and printing stay with
//! the caller; the executors take the raw bytes and hand back plain values.

use vstd::prelude::*;

use crate::decode::{decode, decode_bencoded_value, DecodeError};
use crate::encode::{canon, serialized};
use crate::hashing::{hex_encode, hex_of, info_sha1_hash, sha1_of, spec_info_value};
use crate::torrent::{
    lemma_map_torrent_wf, map_torrent, spec_map_torrent, SpecKeys, Torrent, TorrentError,
};
use crate::value::{SpecValue, Value};

verus! {

/// A parsed command: decode a bencoded literal, or report on the content of
/// a torrent file.
pub enum Command {
    Decode { value: Vec<u8> },
    Info { content: Vec<u8> },
}

/// What a command produced: the decoded value, or the torrent report with
/// every derived quantity already computed.
pub enum ExecOutcome {
    Decoded(Value),
    TorrentInfo {
        announce: Vec<u8>,
        total_length: u128,
        info_hash: String,
        piece_length: u64,
        piece_hashes: Vec<String>,
    },
}

/// The total number of bytes described by a torrent's layout: the single
/// file's length, or the sum of the file lengths in list order.
pub open spec fn spec_total_length(k: SpecKeys) -> int {
    match k {
        SpecKeys::SingleFile { length, .. } => length as int,
        SpecKeys::MultiFiles { files } => sum_file_lengths(
            Seq::new(files.len(), |i: int| files[i].length),
        ),
    }
}

/// The sum of a sequence of lengths.
pub open spec fn sum_file_lengths(ls: Seq<u64>) -> int
    decreases ls.len(),
{
    if ls.len() == 0 {
        0
    } else {
        ls[0] + sum_file_lengths(ls.drop_first())
    }
}

/// Summing one more length adds it.
proof fn lemma_sum_snoc(ls: Seq<u64>, x: u64)
    ensures
        sum_file_lengths(ls.push(x)) == sum_file_lengths(ls) + x,
    decreases ls.len(),
{
    if ls.len() == 0 {
        reveal_with_fuel(sum_file_lengths, 2);
        assert(ls.push(x)[0] == x);
        assert(ls.push(x).drop_first() =~= Seq::empty());
    } else {
        assert(ls.push(x).drop_first() =~= ls.drop_first().push(x));
        assert(ls.push(x)[0] == ls[0]);
        lemma_sum_snoc(ls.drop_first(), x);
    }
}

/// A sum of `n` lengths is at most `n` times the largest length.
proof fn lemma_sum_bound(ls: Seq<u64>)
    ensures
        0 <= sum_file_lengths(ls) <= ls.len() * 0xffff_ffff_ffff_ffff,
    decreases ls.len(),
{
    if ls.len() == 0 {
    } else {
        lemma_sum_bound(ls.drop_first());
        assert(ls.len() * 0xffff_ffff_ffff_ffff == (ls.len() - 1) * 0xffff_ffff_ffff_ffff
            + 0xffff_ffff_ffff_ffff) by (nonlinear_arith);
    }
}

/// What holds of a finished `decode` command for the given input bytes.
pub open spec fn decode_outcome_ok(input: Seq<u8>, r: Result<ExecOutcome, TorrentError>) -> bool {
    match r {
        Ok(o) => o matches ExecOutcome::Decoded(v) && (exists|n: int|
            crate::decode::spec_parse(input) == Ok::<_, DecodeError>((v@, n))),
        Err(e) => e matches TorrentError::Decode(d) && crate::decode::spec_parse(input) == Err::<
            (SpecValue, int),
            _,
        >(d),
    }
}

/// What holds of a finished `info` command for the given file bytes: each
/// report field equals what the specification decode, mapping, and digest
/// give, and each error is the one those stages give.
pub open spec fn info_outcome_ok(input: Seq<u8>, r: Result<ExecOutcome, TorrentError>) -> bool {
    match crate::decode::spec_parse(input) {
        Err(e) => r == Err::<ExecOutcome, _>(TorrentError::Decode(e)),
        Ok(p) => match spec_map_torrent(p.0) {
            Err(e) => r == Err::<ExecOutcome, _>(TorrentError::Schema(e)),
            Ok(t) => match r {
                Ok(
                    ExecOutcome::TorrentInfo {
                        announce,
                        total_length,
                        info_hash,
                        piece_length,
                        piece_hashes,
                    },
                ) => {
                    &&& announce@ == t.announce
                    &&& total_length as int == spec_total_length(t.info.keys)
                    &&& info_hash@ == hex_of(
                        sha1_of(serialized(canon(spec_info_value(t.info)))),
                    )
                    &&& piece_length == t.info.piece_length
                    &&& piece_hashes@.len() == t.info.pieces.len()
                    &&& forall|j: int|
                        0 <= j < t.info.pieces.len() ==> (#[trigger] piece_hashes@[j])@
                            == hex_of(t.info.pieces[j])
                },
                _ => false,
            },
        },
    }
}

/// The executor of the `decode` command.
pub struct DecodeExecutor<'a> {
    value: &'a Vec<u8>,
}

impl<'a> View for DecodeExecutor<'a> {
    type V = Seq<u8>;

    closed spec fn view(&self) -> Seq<u8> {
        self.value@
    }
}

impl<'a> DecodeExecutor<'a> {
    /// An executor over the given bencoded literal.
    pub fn new(value: &'a Vec<u8>) -> (r: Self)
        ensures
            r@ == value@,
    {
        DecodeExecutor { value }
    }

    /// Decode the literal and hand the leading term back.
    pub fn run(&self) -> (r: Result<ExecOutcome, TorrentError>)
        ensures
            decode_outcome_ok(self@, r),
    {
        match decode_bencoded_value(self.value.as_slice()) {
            Ok(v) => Ok(ExecOutcome::Decoded(v)),
            Err(e) => Err(TorrentError::Decode(e)),
        }
    }
}

/// The executor of the `info` command.
pub struct InfoExecutor<'a> {
    content: &'a Vec<u8>,
}

impl<'a> View for InfoExecutor<'a> {
    type V = Seq<u8>;

    closed spec fn view(&self) -> Seq<u8> {
        self.content@
    }
}

impl<'a> InfoExecutor<'a> {
    /// An executor over the given torrent file content.
    pub fn new(content: &'a Vec<u8>) -> (r: Self)
        ensures
            r@ == content@,
    {
        InfoExecutor { content }
    }

    /// Decode the content, map it onto the torrent schema, and compute the
    /// report: announce URL, total length, info hash, piece length, and the
    /// piece hashes in piece order, all in lowercase hex.
    pub fn run(&self) -> (r: Result<ExecOutcome, TorrentError>)
        ensures
            info_outcome_ok(self@, r),
    {
        let v = match decode(self.content.as_slice()) {
            Ok(p) => p.0,
            Err(e) => {
                return Err(TorrentError::Decode(e));
            },
        };
        let t: Torrent = match map_torrent(&v) {
            Ok(t) => t,
            Err(e) => {
                return Err(TorrentError::Schema(e));
            },
        };
        proof {
            lemma_map_torrent_wf(v@);
        }
        let total_length: u128 = match &t.info.keys {
            crate::torrent::Keys::SingleFile { length, .. } => *length as u128,
            crate::torrent::Keys::MultiFiles { files } => {
                let ghost lens = Seq::new(
                    t@.info.keys->MultiFiles_files.len(),
                    |i: int| t@.info.keys->MultiFiles_files[i].length,
                );
                let mut total: u128 = 0;
                let mut i: usize = 0;
                proof {
                    assert(lens.take(0) =~= Seq::empty());
                }
                while i < files.len()
                    invariant
                        t.info.keys == (crate::torrent::Keys::MultiFiles { files: *files }),
                        lens == Seq::new(
                            t@.info.keys->MultiFiles_files.len(),
                            |i: int| t@.info.keys->MultiFiles_files[i].length,
                        ),
                        0 <= i <= files@.len(),
                        lens.len() == files@.len(),
                        total as int == sum_file_lengths(lens.take(i as int)),
                    decreases files@.len() - i,
                {
                    proof {
                        lemma_sum_bound(lens.take(i as int));
                        assert(lens.take(i as int).len() * 0xffff_ffff_ffff_ffff
                            < 0x1_0000_0000_0000_0000 * 0xffff_ffff_ffff_ffff) by (
                        nonlinear_arith)
                            requires
                                lens.take(i as int).len() < 0x1_0000_0000_0000_0000,
                        ;
                        assert(lens[i as int] == t@.info.keys->MultiFiles_files[i as int].length);
                        assert(t@.info.keys->MultiFiles_files[i as int]
                            == files@[i as int]@);
                        lemma_sum_snoc(lens.take(i as int), files@[i as int]@.length);
                        assert(lens.take(i + 1) =~= lens.take(i as int).push(lens[i as int]));
                    }
                    total = total + files[i].length as u128;
                    i += 1;
                }
                proof {
                    assert(lens.take(lens.len() as int) =~= lens);
                }
                total
            },
        };
        let info_hash = info_sha1_hash(&t.info);
        let mut piece_hashes: Vec<String> = Vec::new();
        let mut i: usize = 0;
        while i < t.info.pieces.0.len()
            invariant
                0 <= i <= t.info.pieces.0@.len(),
                t@.info.pieces.len() == t.info.pieces.0@.len(),
                forall|j: int|
                    0 <= j < t.info.pieces.0@.len() ==> t@.info.pieces[j]
                        == (#[trigger] t.info.pieces.0@[j])@,
                piece_hashes@.len() == i,
                forall|j: int|
                    0 <= j < i ==> (#[trigger] piece_hashes@[j])@ == hex_of(t@.info.pieces[j]),
            decreases t.info.pieces.0@.len() - i,
        {
            let h = hex_encode(t.info.pieces.0[i].as_slice());
            piece_hashes.push(h);
            i += 1;
        }
        let piece_length = t.info.piece_length;
        Ok(ExecOutcome::TorrentInfo {
            announce: t.announce,
            total_length,
            info_hash,
            piece_length,
            piece_hashes,
        })
    }
}

/// An executor, whatever its command.
pub trait Executor {
    /// Perform the command on the data the executor was built over.
    fn execute(&self) -> Result<ExecOutcome, TorrentError>;
}

impl<'a> Executor for DecodeExecutor<'a> {
    fn execute(&self) -> Result<ExecOutcome, TorrentError> {
        self.run()
    }
}

impl<'a> Executor for InfoExecutor<'a> {
    fn execute(&self) -> Result<ExecOutcome, TorrentError> {
        self.run()
    }
}

/// The executor chosen for a command.
pub enum ExecutorChoice<'a> {
    Decode(DecodeExecutor<'a>),
    Info(InfoExecutor<'a>),
}

impl<'a> ExecutorChoice<'a> {
    /// Perform the chosen command.
    pub fn execute(&self) -> (r: Result<ExecOutcome, TorrentError>)
        ensures
            match self {
                ExecutorChoice::Decode(d) => decode_outcome_ok(d@, r),
                ExecutorChoice::Info(x) => info_outcome_ok(x@, r),
            },
    {
        match self {
            ExecutorChoice::Decode(d) => d.run(),
            ExecutorChoice::Info(x) => x.run(),
        }
    }
}

/// Builds the executor that a command calls for.
pub struct ExecutorFactory {}

impl ExecutorFactory {
    /// A factory.
    pub fn new() -> (r: Self) {
        ExecutorFactory {  }
    }

    /// The executor for `command`: decoding for a `decode` command, the
    /// torrent report for an `info` command.
    pub fn create<'a>(&self, command: &'a Command) -> (r: ExecutorChoice<'a>)
        ensures
            match command {
                Command::Decode { value } => r matches ExecutorChoice::Decode(d) && d@ == value@,
                Command::Info { content } => r matches ExecutorChoice::Info(x) && x@ == content@,
            },
    {
        match command {
            Command::Decode { value } => ExecutorChoice::Decode(DecodeExecutor::new(value)),
            Command::Info { content } => ExecutorChoice::Info(InfoExecutor::new(content)),
        }
    }
}

} // verus!

//! Command-line options of the streamer and their parser.
//!
//! The front end hands the raw argument strings in; everything decided
//! from them — option values, file-descriptor lists, the subcommand — is
//! parsed here on plain values.

use vstd::prelude::*;
use vstd::string::StrSliceExecFns;
use vstd::utf8::{encode_utf8, decode_utf8, valid_utf8};
use crate::util::{copy_range, string_from_utf8, str_eq};

verus! {

/// Why the arguments were rejected.
#[derive(Clone, Copy, Debug, PartialEq, Eq, Structural)]
pub enum CliError {
    /// An option that takes a value stands last.
    MissingValue,
    /// An argument is no known option or subcommand.
    UnknownArgument,
    /// No `--images-dir` was given.
    MissingImagesDir,
    /// No subcommand was given.
    MissingOperation,
    /// A file descriptor is not a valid integer.
    InvalidInteger,
    /// An external file is not in `filename:fd` form.
    InvalidExtFd,
    /// An argument follows where the subcommand allows none.
    UnexpectedArgument,
}

// ---------------------------------------------------------------------------
// Integers
// ---------------------------------------------------------------------------

pub open spec fn is_digit(b: u8) -> bool {
    48 <= b <= 57
}

pub open spec fn all_digits(s: Seq<u8>) -> bool {
    forall|i: int| 0 <= i < s.len() ==> is_digit(#[trigger] s[i])
}

/// The number the digit bytes spell, most significant first.
pub open spec fn digits_value(s: Seq<u8>) -> int
    decreases s.len(),
{
    if s.len() == 0 {
        0
    } else {
        digits_value(s.drop_last()) * 10 + (s.last() - 48)
    }
}

/// Sign and digit bytes of an integer literal.
pub open spec fn int_bytes_parts(s: Seq<u8>) -> (bool, Seq<u8>) {
    if s.len() > 0 && (s[0] == 43 || s[0] == 45) {
        (s[0] == 45, s.drop_first())
    } else {
        (false, s)
    }
}

/// Whether the bytes spell an integer in the range of `i32`.
pub open spec fn valid_i32_bytes(s: Seq<u8>) -> bool {
    let (neg, d) = int_bytes_parts(s);
    &&& d.len() > 0
    &&& all_digits(d)
    &&& (if neg {
        digits_value(d) <= 0x8000_0000
    } else {
        digits_value(d) <= 0x7fff_ffff
    })
}

/// The integer the bytes spell.
pub open spec fn i32_value_of(s: Seq<u8>) -> int {
    let (neg, d) = int_bytes_parts(s);
    if neg {
        -digits_value(d)
    } else {
        digits_value(d)
    }
}

proof fn lemma_digits_value_nonneg(s: Seq<u8>)
    requires
        all_digits(s),
    ensures
        digits_value(s) >= 0,
    decreases s.len(),
{
    if s.len() > 0 {
        assert(all_digits(s.drop_last())) by {
            assert(forall|i: int|
                0 <= i < s.drop_last().len() ==> s.drop_last()[i] == #[trigger] s[i]);
        }
        lemma_digits_value_nonneg(s.drop_last());
    }
}

proof fn lemma_digits_value_mono(s: Seq<u8>, i: int)
    requires
        all_digits(s),
        0 <= i <= s.len(),
    ensures
        digits_value(s) >= digits_value(s.take(i)),
    decreases s.len() - i,
{
    if i < s.len() {
        assert(s.take(i + 1).drop_last() =~= s.take(i));
        assert(s.take(i + 1).last() == s[i]);
        assert(all_digits(s.take(i))) by {
            assert(forall|k: int| 0 <= k < i ==> s.take(i)[k] == #[trigger] s[k]);
        }
        lemma_digits_value_nonneg(s.take(i));
        assert(digits_value(s.take(i + 1)) >= digits_value(s.take(i)));
        lemma_digits_value_mono(s, i + 1);
    } else {
        assert(s.take(i) =~= s);
    }
}

/// Parses the bytes as an `i32`; yields a value exactly on a well-formed
/// in-range literal.
pub fn parse_i32(bytes: &Vec<u8>) -> (r: Option<i32>)
    ensures
        match r {
            Some(v) => valid_i32_bytes(bytes@) && v == i32_value_of(bytes@),
            None => !valid_i32_bytes(bytes@),
        },
{
    let n = bytes.len();
    let (neg, start): (bool, usize) = if n > 0 && (bytes[0] == 43 || bytes[0] == 45) {
        (bytes[0] == 45, 1)
    } else {
        (false, 0)
    };
    let ghost d = int_bytes_parts(bytes@).1;
    proof {
        assert(d =~= bytes@.skip(start as int));
        assert(neg == int_bytes_parts(bytes@).0);
    }
    if n == start {
        return None;
    }
    let mut acc: u64 = 0;
    let mut i: usize = start;
    while i < n
        invariant
            n == bytes@.len(),
            start <= i <= n,
            d == bytes@.skip(start as int),
            neg == int_bytes_parts(bytes@).0,
            d == int_bytes_parts(bytes@).1,
            d.len() == n - start,
            all_digits(d.take(i - start)),
            acc == digits_value(d.take(i - start)),
            acc <= 0x8000_0000,
        decreases n - i,
    {
        let b = bytes[i];
        assert(d[i - start] == b);
        if b < 48 || b > 57 {
            proof {
                assert(0 <= i - start < d.len());
                assert(!is_digit(d[i - start]));
                assert(!all_digits(d));
            }
            return None;
        }
        let next: u64 = acc * 10 + (b - 48) as u64;
        proof {
            assert(d.take(i - start + 1).drop_last() =~= d.take(i - start));
            assert(d.take(i - start + 1).last() == b);
            assert(all_digits(d.take(i - start + 1)));
        }
        if next > 0x8000_0000 {
            proof {
                if all_digits(d) {
                    assert(digits_value(d.take(i - start + 1)) == acc * 10 + (b - 48));
                    lemma_digits_value_mono(d, i - start + 1);
                    assert(digits_value(d) > 0x8000_0000);
                }
                assert(!valid_i32_bytes(bytes@));
            }
            return None;
        }
        acc = next;
        i = i + 1;
    }
    proof {
        assert(d.take(d.len() as int) =~= d);
    }
    if neg {
        let v: i64 = 0i64 - acc as i64;
        Some(v as i32)
    } else {
        if acc > 0x7fff_ffff {
            return None;
        }
        Some(acc as i32)
    }
}

// ---------------------------------------------------------------------------
// Splitting on a separator byte
// ---------------------------------------------------------------------------

/// The index of the first `sep` in `s`, or its length.
pub open spec fn first_index(s: Seq<u8>, sep: u8) -> int
    decreases s.len(),
{
    if s.len() == 0 {
        0
    } else if s[0] == sep {
        0
    } else {
        1 + first_index(s.drop_first(), sep)
    }
}

proof fn lemma_first_index_le(s: Seq<u8>, sep: u8)
    ensures
        0 <= first_index(s, sep) <= s.len(),
        first_index(s, sep) < s.len() ==> s[first_index(s, sep)] == sep,
        forall|k: int| 0 <= k < first_index(s, sep) ==> s[k] != sep,
    decreases s.len(),
{
    if s.len() > 0 && s[0] != sep {
        lemma_first_index_le(s.drop_first(), sep);
        assert forall|k: int| 0 <= k < first_index(s, sep) implies s[k] != sep by {
            if k > 0 {
                assert(s[k] == s.drop_first()[k - 1]);
            }
        }
    }
}

/// The segments of `s` between occurrences of `sep`.
pub open spec fn spec_split(s: Seq<u8>, sep: u8) -> Seq<Seq<u8>>
    decreases s.len(),
    via spec_split_decreases
{
    let i = first_index(s, sep);
    if i == s.len() {
        seq![s]
    } else {
        seq![s.take(i)] + spec_split(s.skip(i + 1), sep)
    }
}

#[via_fn]
proof fn spec_split_decreases(s: Seq<u8>, sep: u8) {
    lemma_first_index_le(s, sep);
}

/// Splits the suffix of `bytes` from `from` on at every `sep`.
pub fn split_bytes(bytes: &Vec<u8>, from: usize, sep: u8) -> (parts: Vec<Vec<u8>>)
    requires
        from <= bytes@.len(),
    ensures
        parts@.map_values(|p: Vec<u8>| p@) == spec_split(bytes@.skip(from as int), sep),
    decreases bytes@.len() - from,
{
    let ghost tail = bytes@.skip(from as int);
    proof {
        lemma_first_index_le(tail, sep);
    }
    let n = bytes.len();
    let mut i: usize = from;
    while i < n
        invariant
            from <= i <= n,
            n == bytes@.len(),
            tail == bytes@.skip(from as int),
            forall|k: int| 0 <= k < i - from ==> tail[k] != sep,
        decreases n - i,
    {
        if bytes[i] == sep {
            proof {
                assert(tail[i - from] == sep);
                assert(first_index(tail, sep) == i - from) by {
                    lemma_first_index_le(tail, sep);
                    if first_index(tail, sep) > i - from {
                        assert(tail[i - from] != sep);
                    }
                }
            }
            let part = copy_range(bytes, from, i - from);
            let rest = split_bytes(bytes, i + 1, sep);
            let ghost rest_view = rest@.map_values(|p: Vec<u8>| p@);
            let mut parts = rest;
            parts.insert(0, part);
            proof {
                assert(part@ =~= tail.take(i - from));
                assert(bytes@.skip(i as int + 1) =~= tail.skip(i - from + 1));
                assert(parts@.map_values(|p: Vec<u8>| p@) =~= seq![tail.take(i - from)]
                    + rest_view);
            }
            return parts;
        }
        i = i + 1;
    }
    proof {
        assert(first_index(tail, sep) == tail.len()) by {
            lemma_first_index_le(tail, sep);
            if first_index(tail, sep) < tail.len() {
                assert(tail[first_index(tail, sep)] != sep);
            }
        }
    }
    let part = copy_range(bytes, from, n - from);
    let mut parts: Vec<Vec<u8>> = Vec::new();
    parts.push(part);
    proof {
        assert(part@ =~= tail);
        assert(parts@.map_values(|p: Vec<u8>| p@) =~= seq![tail]);
    }
    parts
}

// ---------------------------------------------------------------------------
// External files and descriptor lists
// ---------------------------------------------------------------------------

/// Whether the bytes are in `filename:fd` form.
pub open spec fn valid_ext_fd(part: Seq<u8>) -> bool {
    let sub = spec_split(part, 58);
    &&& sub.len() >= 2
    &&& valid_utf8(sub[0])
    &&& valid_i32_bytes(sub[1])
}

/// The name and descriptor the bytes spell.
pub open spec fn ext_fd_of(part: Seq<u8>) -> (Seq<char>, int) {
    let sub = spec_split(part, 58);
    (decode_utf8(sub[0]), i32_value_of(sub[1]))
}

/// Parses one `filename:fd` pair, as the external-file option carries
/// them. Anything past a second `:` is ignored.
pub fn parse_ext_fd(s: &str) -> (r: Result<(String, i32), CliError>)
    ensures
        match r {
            Ok((name, fd)) => valid_ext_fd(encode_utf8(s@)) && (name@, fd as int) == ext_fd_of(
                encode_utf8(s@),
            ),
            Err(e) => {
                &&& !valid_ext_fd(encode_utf8(s@))
                &&& (e == CliError::InvalidExtFd || e == CliError::InvalidInteger)
            },
        },
{
    let bytes = s.as_bytes_vec();
    proof {
        assert(bytes@.skip(0) =~= bytes@);
    }
    let mut parts = split_bytes(&bytes, 0, 58);
    let ghost parts_view = parts@.map_values(|p: Vec<u8>| p@);
    if parts.len() < 2 {
        return Err(CliError::InvalidExtFd);
    }
    let p0 = parts.remove(0);
    let p1 = parts.remove(0);
    proof {
        assert(p0@ == parts_view[0]);
        assert(p1@ == parts_view[1]);
    }
    let fd = match parse_i32(&p1) {
        Some(fd) => fd,
        None => {
            return Err(CliError::InvalidInteger);
        },
    };
    match string_from_utf8(p0) {
        Some(name) => Ok((name, fd)),
        None => Err(CliError::InvalidExtFd),
    }
}

/// Whether every comma-separated entry of the bytes is a valid `i32`.
pub open spec fn valid_fd_list(bytes: Seq<u8>) -> bool {
    forall|k: int|
        0 <= k < spec_split(bytes, 44).len() ==> valid_i32_bytes(#[trigger] spec_split(bytes, 44)[k])
}

/// The descriptors a comma-separated list spells.
pub open spec fn fd_list_of(bytes: Seq<u8>) -> Seq<int> {
    spec_split(bytes, 44).map_values(|p: Seq<u8>| i32_value_of(p))
}

/// Parses a comma-separated descriptor list.
pub fn parse_fd_list(s: &str) -> (r: Option<Vec<i32>>)
    ensures
        match r {
            Some(v) => valid_fd_list(encode_utf8(s@)) && v@.map_values(|x: i32| x as int)
                == fd_list_of(encode_utf8(s@)),
            None => !valid_fd_list(encode_utf8(s@)),
        },
{
    let bytes = s.as_bytes_vec();
    proof {
        assert(bytes@.skip(0) =~= bytes@);
    }
    let parts = split_bytes(&bytes, 0, 44);
    let ghost parts_view = parts@.map_values(|p: Vec<u8>| p@);
    let n = parts.len();
    let mut out: Vec<i32> = Vec::new();
    let mut i: usize = 0;
    while i < n
        invariant
            n == parts@.len(),
            parts_view == parts@.map_values(|p: Vec<u8>| p@),
            parts_view == spec_split(encode_utf8(s@), 44),
            i <= n,
            out@.len() == i,
            forall|k: int|
                0 <= k < i ==> valid_i32_bytes(#[trigger] parts_view[k]) && out@[k] as int
                    == i32_value_of(parts_view[k]),
        decreases n - i,
    {
        proof {
            assert(parts@[i as int]@ == parts_view[i as int]);
        }
        match parse_i32(&parts[i]) {
            Some(v) => {
                out.push(v);
            },
            None => {
                return None;
            },
        }
        i = i + 1;
    }
    proof {
        assert(out@.map_values(|x: i32| x as int) =~= fd_list_of(encode_utf8(s@)));
    }
    Some(out)
}

/// Whether every comma-separated entry of the bytes is a valid
/// `filename:fd` pair.
pub open spec fn valid_ext_fd_list(bytes: Seq<u8>) -> bool {
    forall|k: int|
        0 <= k < spec_split(bytes, 44).len() ==> valid_ext_fd(#[trigger] spec_split(bytes, 44)[k])
}

/// The pairs a comma-separated external-file list spells.
pub open spec fn ext_fd_list_of(bytes: Seq<u8>) -> Seq<(Seq<char>, int)> {
    spec_split(bytes, 44).map_values(|p: Seq<u8>| ext_fd_of(p))
}

/// Parses a comma-separated list of `filename:fd` pairs.
pub fn parse_ext_fd_list(s: &str) -> (r: Option<Vec<(String, i32)>>)
    ensures
        match r {
            Some(v) => valid_ext_fd_list(encode_utf8(s@)) && v@.map_values(
                |p: (String, i32)| (p.0@, p.1 as int),
            ) == ext_fd_list_of(encode_utf8(s@)),
            None => !valid_ext_fd_list(encode_utf8(s@)),
        },
{
    let bytes = s.as_bytes_vec();
    proof {
        assert(bytes@.skip(0) =~= bytes@);
    }
    let parts = split_bytes(&bytes, 0, 44);
    let ghost parts_view = parts@.map_values(|p: Vec<u8>| p@);
    let n = parts.len();
    let mut out: Vec<(String, i32)> = Vec::new();
    let mut i: usize = 0;
    while i < n
        invariant
            n == parts@.len(),
            parts_view == parts@.map_values(|p: Vec<u8>| p@),
            parts_view == spec_split(encode_utf8(s@), 44),
            i <= n,
            out@.len() == i,
            forall|k: int|
                0 <= k < i ==> valid_ext_fd(#[trigger] parts_view[k]) && (out@[k].0@, out@[k].1 as int)
                    == ext_fd_of(parts_view[k]),
        decreases n - i,
    {
        proof {
            assert(parts@[i as int]@ == parts_view[i as int]);
        }
        let ghost inner = parts_view[i as int];
        let inner_parts = split_bytes(&parts[i], 0, 58);
        proof {
            assert(parts@[i as int]@.skip(0) =~= inner);
        }
        let ghost inner_view = inner_parts@.map_values(|p: Vec<u8>| p@);
        if inner_parts.len() < 2 {
            return None;
        }
        let mut inner_parts = inner_parts;
        let p0 = inner_parts.remove(0);
        let p1 = inner_parts.remove(0);
        proof {
            assert(p0@ == inner_view[0]);
            assert(p1@ == inner_view[1]);
        }
        let fd = match parse_i32(&p1) {
            Some(fd) => fd,
            None => {
                return None;
            },
        };
        match string_from_utf8(p0) {
            Some(name) => {
                out.push((name, fd));
            },
            None => {
                return None;
            },
        }
        i = i + 1;
    }
    proof {
        assert(out@.map_values(|p: (String, i32)| (p.0@, p.1 as int)) =~= ext_fd_list_of(
            encode_utf8(s@),
        ));
    }
    Some(out)
}

// ---------------------------------------------------------------------------
// The options
// ---------------------------------------------------------------------------

/// The operation to run.
#[derive(Clone, Copy, Debug, PartialEq, Eq, Structural)]
pub enum Operation {
    /// Capture an image.
    Capture,
    /// Extract a captured image.
    Extract {
        /// Buffer the image in memory and serve it on demand.
        serve: bool,
    },
}

/// The parsed command line.
#[derive(Debug, PartialEq)]
pub struct Opts {
    /// Images directory where the sockets are created during streaming.
    pub images_dir: String,
    /// File descriptors of the shards.
    pub shard_fds: Vec<i32>,
    /// External files to incorporate in or extract from the image, each a
    /// name with the descriptor of the pipe carrying its content.
    pub ext_file_fds: Vec<(String, i32)>,
    /// File descriptor to report progress on.
    pub progress_fd: Option<i32>,
    pub operation: Operation,
}

/// The mathematical value of the parsed command line.
pub struct SpecOpts {
    pub images_dir: Seq<char>,
    pub shard_fds: Seq<int>,
    pub ext_file_fds: Seq<(Seq<char>, int)>,
    pub progress_fd: Option<int>,
    pub operation: Operation,
}

impl View for Opts {
    type V = SpecOpts;

    open spec fn view(&self) -> SpecOpts {
        SpecOpts {
            images_dir: self.images_dir@,
            shard_fds: self.shard_fds@.map_values(|x: i32| x as int),
            ext_file_fds: self.ext_file_fds@.map_values(|p: (String, i32)| (p.0@, p.1 as int)),
            progress_fd: match self.progress_fd {
                Some(fd) => Some(fd as int),
                None => None,
            },
            operation: self.operation,
        }
    }
}

/// The options gathered so far while walking the arguments.
pub struct CliAcc {
    pub images_dir: Option<Seq<char>>,
    pub shard_fds: Seq<int>,
    pub ext_file_fds: Seq<(Seq<char>, int)>,
    pub progress_fd: Option<int>,
}

pub open spec fn empty_acc() -> CliAcc {
    CliAcc {
        images_dir: None,
        shard_fds: Seq::empty(),
        ext_file_fds: Seq::empty(),
        progress_fd: None,
    }
}

/// Closes parsing once the subcommand is known: the images directory is
/// mandatory.
pub open spec fn finish_parse(acc: CliAcc, op: Operation) -> Result<SpecOpts, CliError> {
    match acc.images_dir {
        None => Err(CliError::MissingImagesDir),
        Some(dir) => Ok(
            SpecOpts {
                images_dir: dir,
                shard_fds: acc.shard_fds,
                ext_file_fds: acc.ext_file_fds,
                progress_fd: acc.progress_fd,
                operation: op,
            },
        ),
    }
}

/// The grammar of the command line, one argument at a time: options with
/// their values in any order, then the subcommand, which must come last —
/// only `extract` takes one trailing flag of its own.
pub open spec fn spec_parse_args(args: Seq<Seq<char>>, i: int, acc: CliAcc) -> Result<
    SpecOpts,
    CliError,
>
    decreases args.len() - i,
{
    if i < 0 || i >= args.len() {
        Err(CliError::MissingOperation)
    } else {
        let a = args[i];
        if a == "--images-dir"@ || a == "-D"@ {
            if i + 1 >= args.len() {
                Err(CliError::MissingValue)
            } else {
                spec_parse_args(args, i + 2, CliAcc { images_dir: Some(args[i + 1]), ..acc })
            }
        } else if a == "--shard-fds"@ || a == "-s"@ {
            if i + 1 >= args.len() {
                Err(CliError::MissingValue)
            } else if valid_fd_list(encode_utf8(args[i + 1])) {
                spec_parse_args(
                    args,
                    i + 2,
                    CliAcc { shard_fds: fd_list_of(encode_utf8(args[i + 1])), ..acc },
                )
            } else {
                Err(CliError::InvalidInteger)
            }
        } else if a == "--ext-file-fds"@ || a == "-e"@ {
            if i + 1 >= args.len() {
                Err(CliError::MissingValue)
            } else if valid_ext_fd_list(encode_utf8(args[i + 1])) {
                spec_parse_args(
                    args,
                    i + 2,
                    CliAcc { ext_file_fds: ext_fd_list_of(encode_utf8(args[i + 1])), ..acc },
                )
            } else {
                Err(CliError::InvalidExtFd)
            }
        } else if a == "--progress-fd"@ || a == "-p"@ {
            if i + 1 >= args.len() {
                Err(CliError::MissingValue)
            } else if valid_i32_bytes(encode_utf8(args[i + 1])) {
                spec_parse_args(
                    args,
                    i + 2,
                    CliAcc { progress_fd: Some(i32_value_of(encode_utf8(args[i + 1]))), ..acc },
                )
            } else {
                Err(CliError::InvalidInteger)
            }
        } else if a == "capture"@ {
            if i + 1 == args.len() {
                finish_parse(acc, Operation::Capture)
            } else {
                Err(CliError::UnexpectedArgument)
            }
        } else if a == "extract"@ {
            if i + 1 == args.len() {
                finish_parse(acc, Operation::Extract { serve: false })
            } else if args[i + 1] == "--serve"@ {
                if i + 2 == args.len() {
                    finish_parse(acc, Operation::Extract { serve: true })
                } else {
                    Err(CliError::UnexpectedArgument)
                }
            } else {
                Err(CliError::UnknownArgument)
            }
        } else {
            Err(CliError::UnknownArgument)
        }
    }
}

impl Opts {
    /// Parses a full command line, the program name first.
    pub fn from_iter(args: &Vec<String>) -> (r: Result<Opts, CliError>)
        ensures
            ({
                let vargs = args@.map_values(|s: String| s@);
                match r {
                    Ok(o) => spec_parse_args(vargs, 1, empty_acc()) == Ok::<SpecOpts, CliError>(
                        o@,
                    ),
                    Err(e) => spec_parse_args(vargs, 1, empty_acc()) == Err::<SpecOpts, CliError>(
                        e,
                    ),
                }
            }),
    {
        let ghost vargs = args@.map_values(|s: String| s@);
        let n = args.len();
        let mut images_dir: Option<String> = None;
        let mut shard_fds: Vec<i32> = Vec::new();
        let mut ext_file_fds: Vec<(String, i32)> = Vec::new();
        let mut progress_fd: Option<i32> = None;
        let mut i: usize = 1;
        proof {
            assert(shard_fds@.map_values(|x: i32| x as int) =~= Seq::<int>::empty());
            assert(ext_file_fds@.map_values(|p: (String, i32)| (p.0@, p.1 as int)) =~= Seq::<
                (Seq<char>, int),
            >::empty());
        }
        while i < n
            invariant
                n == args@.len(),
                vargs == args@.map_values(|s: String| s@),
                1 <= i,
                spec_parse_args(vargs, 1, empty_acc()) == spec_parse_args(
                    vargs,
                    i as int,
                    CliAcc {
                        images_dir: match images_dir {
                            Some(ref d) => Some(d@),
                            None => None,
                        },
                        shard_fds: shard_fds@.map_values(|x: i32| x as int),
                        ext_file_fds: ext_file_fds@.map_values(
                            |p: (String, i32)| (p.0@, p.1 as int),
                        ),
                        progress_fd: match progress_fd {
                            Some(fd) => Some(fd as int),
                            None => None,
                        },
                    },
                ),
            decreases n - i,
        {
            let ghost acc0 = CliAcc {
                images_dir: match images_dir {
                    Some(ref d) => Some(d@),
                    None => None,
                },
                shard_fds: shard_fds@.map_values(|x: i32| x as int),
                ext_file_fds: ext_file_fds@.map_values(|p: (String, i32)| (p.0@, p.1 as int)),
                progress_fd: match progress_fd {
                    Some(fd) => Some(fd as int),
                    None => None,
                },
            };
            proof {
                assert(vargs[i as int] == args@[i as int]@);
            }
            let a = &args[i];
            if str_eq(a.as_str(), "--images-dir") || str_eq(a.as_str(), "-D") {
                if i + 1 >= n {
                    return Err(CliError::MissingValue);
                }
                proof {
                    assert(vargs[i as int + 1] == args@[i as int + 1]@);
                }
                images_dir = Some(args[i + 1].clone());
                i = i + 2;
            } else if str_eq(a.as_str(), "--shard-fds") || str_eq(a.as_str(), "-s") {
                if i + 1 >= n {
                    return Err(CliError::MissingValue);
                }
                proof {
                    assert(vargs[i as int + 1] == args@[i as int + 1]@);
                }
                match parse_fd_list(args[i + 1].as_str()) {
                    Some(v) => {
                        shard_fds = v;
                    },
                    None => {
                        return Err(CliError::InvalidInteger);
                    },
                }
                i = i + 2;
            } else if str_eq(a.as_str(), "--ext-file-fds") || str_eq(a.as_str(), "-e") {
                if i + 1 >= n {
                    return Err(CliError::MissingValue);
                }
                proof {
                    assert(vargs[i as int + 1] == args@[i as int + 1]@);
                }
                match parse_ext_fd_list(args[i + 1].as_str()) {
                    Some(v) => {
                        ext_file_fds = v;
                    },
                    None => {
                        return Err(CliError::InvalidExtFd);
                    },
                }
                i = i + 2;
            } else if str_eq(a.as_str(), "--progress-fd") || str_eq(a.as_str(), "-p") {
                if i + 1 >= n {
                    return Err(CliError::MissingValue);
                }
                proof {
                    assert(vargs[i as int + 1] == args@[i as int + 1]@);
                }
                let bytes = args[i + 1].as_str().as_bytes_vec();
                match parse_i32(&bytes) {
                    Some(v) => {
                        progress_fd = Some(v);
                    },
                    None => {
                        return Err(CliError::InvalidInteger);
                    },
                }
                i = i + 2;
            } else if str_eq(a.as_str(), "capture") {
                if i + 1 != n {
                    return Err(CliError::UnexpectedArgument);
                }
                return Self::finish(images_dir, shard_fds, ext_file_fds, progress_fd,
                    Operation::Capture, Ghost(acc0));
            } else if str_eq(a.as_str(), "extract") {
                if i + 1 == n {
                    return Self::finish(images_dir, shard_fds, ext_file_fds, progress_fd,
                        Operation::Extract { serve: false }, Ghost(acc0));
                }
                proof {
                    assert(vargs[i as int + 1] == args@[i as int + 1]@);
                }
                if str_eq(args[i + 1].as_str(), "--serve") {
                    if i + 2 == n {
                        return Self::finish(images_dir, shard_fds, ext_file_fds, progress_fd,
                            Operation::Extract { serve: true }, Ghost(acc0));
                    }
                    return Err(CliError::UnexpectedArgument);
                }
                return Err(CliError::UnknownArgument);
            } else {
                return Err(CliError::UnknownArgument);
            }
        }
        Err(CliError::MissingOperation)
    }

    /// Builds the options once the subcommand is known.
    fn finish(
        images_dir: Option<String>,
        shard_fds: Vec<i32>,
        ext_file_fds: Vec<(String, i32)>,
        progress_fd: Option<i32>,
        operation: Operation,
        Ghost(acc): Ghost<CliAcc>,
    ) -> (r: Result<Opts, CliError>)
        requires
            acc == (CliAcc {
                images_dir: match images_dir {
                    Some(ref d) => Some(d@),
                    None => None,
                },
                shard_fds: shard_fds@.map_values(|x: i32| x as int),
                ext_file_fds: ext_file_fds@.map_values(|p: (String, i32)| (p.0@, p.1 as int)),
                progress_fd: match progress_fd {
                    Some(fd) => Some(fd as int),
                    None => None,
                },
            }),
        ensures
            match r {
                Ok(o) => finish_parse(acc, operation) == Ok::<SpecOpts, CliError>(o@),
                Err(e) => finish_parse(acc, operation) == Err::<SpecOpts, CliError>(e),
            },
    {
        match images_dir {
            None => Err(CliError::MissingImagesDir),
            Some(dir) => Ok(
                Opts { images_dir: dir, shard_fds, ext_file_fds, progress_fd, operation },
            ),
        }
    }
}

} // verus!

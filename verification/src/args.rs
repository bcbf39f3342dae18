//! The options of a run and what follows from them.

use vstd::prelude::*;
use vstd::utf8::encode_utf8;

verus! {

/// The block size where none is given, or none that can be read.
pub const DEFAULT_BLOCK_SIZE: usize = 32768;

/// The options of a run, as they were given.
#[derive(Debug, Clone)]
pub struct Args {
    /// The device or file to image.
    pub dev: String,
    /// The output file.
    pub output: String,
    /// The block size, as a size with or without a unit, such as `64K`.
    pub bs: Option<String>,
    /// The number of worker threads.
    pub threads: Option<usize>,
    /// Stop after this many blocks.
    pub nblocks: Option<u64>,
    /// The log file; the log goes to the terminal where none is given.
    pub log: Option<String>,
    /// Copy the source as it is, without framing.
    pub dd: bool,
    /// Compress every block with LZ4.
    pub compress: bool,
    /// Compute the SHA-256 digest of the source.
    pub sha256: bool,
    /// Compute the BLAKE3 digest of the source.
    pub blake3: bool,
    /// How often the verbose flag was given.
    pub verbose: u8,
}

/// How much is logged.
#[derive(Debug, Clone, Copy, PartialEq, Eq, Structural)]
pub enum LogLevel {
    Warn,
    Info,
    Debug,
    Trace,
}

/// The most decimal digits that a size may be written with. A 64-bit
/// number has 20 at most.
pub const MAX_SIZE_DIGITS: usize = 20;

/// Whether `byte` is an ASCII decimal digit.
pub open spec fn is_digit(byte: u8) -> bool {
    0x30 <= byte <= 0x39
}

/// The number of decimal digits among `text`.
pub open spec fn digits_in(text: Seq<u8>) -> nat
    decreases text.len(),
{
    if text.len() == 0 {
        0
    } else {
        digits_in(text.drop_last()) + if is_digit(text.last()) {
            1nat
        } else {
            0nat
        }
    }
}

/// The number of bytes that the text `text`, of `MAX_SIZE_DIGITS` digits at
/// most, stands for, with every unit read as a power of 1024; `None` where
/// the parser refuses the text.
pub uninterp spec fn binary_size(text: Seq<u8>) -> Option<u64>;

/// The size that a text is read as: that of the parser for a text of
/// `MAX_SIZE_DIGITS` digits at most, and none for a longer number.
pub open spec fn size_of_text(text: Seq<u8>) -> Option<u64> {
    if digits_in(text) <= MAX_SIZE_DIGITS {
        binary_size(text)
    } else {
        None
    }
}

/// `parse_size::Config::new().with_binary().parse_size`, with its three
/// failures taken together. Trusted: the outcome depends on the bytes of the
/// text alone. The parser adds to its 64-bit mantissa without a check when
/// it rounds a number of more than 20 digits, and counts digits in 32 bits;
/// texts with more than `MAX_SIZE_DIGITS` digits are left out.
#[verifier::external_body]
fn parse_binary_size(text: &[u8]) -> (r: Option<u64>)
    requires
        digits_in(text@) <= MAX_SIZE_DIGITS,
    ensures
        r == binary_size(text@),
{
    parse_size::Config::new().with_binary().parse_size(text).ok()
}

/// Counts the decimal digits among `text`.
pub fn count_digits(text: &[u8]) -> (n: usize)
    ensures
        n == digits_in(text@),
{
    let mut n: usize = 0;
    let mut i: usize = 0;
    while i < text.len()
        invariant
            i <= text.len(),
            n <= i,
            n == digits_in(text@.take(i as int)),
        decreases text.len() - i,
    {
        assert(text@.take(i + 1).drop_last() =~= text@.take(i as int));
        if 0x30 <= text[i] && text[i] <= 0x39 {
            n += 1;
        }
        i += 1;
    }
    assert(text@.take(text@.len() as int) =~= text@);
    n
}

/// Reads `text` as a size in bytes, every unit a power of 1024. A text
/// that is no size, a size beyond 64 bits and a number of more than
/// `MAX_SIZE_DIGITS` digits give `None`.
pub fn read_size(text: &str) -> (size: Option<u64>)
    ensures
        size == size_of_text(encode_utf8(text@)),
{
    let bytes = text.as_bytes();
    if count_digits(bytes) <= MAX_SIZE_DIGITS {
        parse_binary_size(bytes)
    } else {
        None
    }
}

/// `num_cpus::get`. Trusted: the number of processors that this process
/// can use is at least one. It differs from machine to machine.
#[verifier::external_body]
fn available_cpus() -> (n: usize)
    ensures
        n >= 1,
{
    num_cpus::get()
}

/// The block size that a size parsed, or not parsed, gives.
pub open spec fn block_size_of(parsed: Option<u64>) -> usize {
    match parsed {
        Some(size) => size as usize,
        None => DEFAULT_BLOCK_SIZE,
    }
}

/// The block size that a size read, or not read, gives: the default where
/// there is none, else the size, cut to the width of the machine's
/// addresses.
pub fn block_size_from(parsed: Option<u64>) -> (size: usize)
    ensures
        size == block_size_of(parsed),
{
    match parsed {
        Some(size) => #[verifier::truncate]
        (size as usize),
        None => DEFAULT_BLOCK_SIZE,
    }
}

/// The level for `verbose` repetitions of the verbose flag.
pub open spec fn level_of(verbose: u8) -> LogLevel {
    if verbose == 0 {
        LogLevel::Warn
    } else if verbose == 1 {
        LogLevel::Info
    } else if verbose == 2 {
        LogLevel::Debug
    } else {
        LogLevel::Trace
    }
}

/// The level for `verbose` repetitions of the verbose flag: warnings
/// without it, then information, debugging, and everything from three on.
pub fn log_level(verbose: u8) -> (level: LogLevel)
    ensures
        level == level_of(verbose),
{
    match verbose {
        0 => LogLevel::Warn,
        1 => LogLevel::Info,
        2 => LogLevel::Debug,
        _ => LogLevel::Trace,
    }
}

/// The number of worker threads: the number asked for, else the number of
/// processors.
pub fn worker_threads(requested: Option<usize>, available: usize) -> (threads: usize)
    ensures
        threads == match requested {
            Some(n) => n,
            None => available,
        },
{
    match requested {
        Some(n) => n,
        None => available,
    }
}

impl Args {
    /// The block size in bytes. A size that cannot be read gives the
    /// default: a text that is no size, a size beyond 64 bits, a number of
    /// more than `MAX_SIZE_DIGITS` digits. One that is too large for the
    /// machine's addresses is cut to their width.
    pub fn block_size(&self) -> (size: usize)
        ensures
            size == match self.bs {
                Some(text) => block_size_of(size_of_text(encode_utf8(text@))),
                None => DEFAULT_BLOCK_SIZE,
            },
    {
        match &self.bs {
            Some(text) => block_size_from(read_size(text.as_str())),
            None => DEFAULT_BLOCK_SIZE,
        }
    }
}

/// Completes the options as given: where no number of threads was asked
/// for, it becomes the number of processors. Also gives the log level that
/// the options ask for. Nothing else changes.
pub fn get_args(parsed: Args) -> (r: (Args, LogLevel))
    ensures
        r.1 == level_of(parsed.verbose),
        r.0.threads is Some,
        parsed.threads is Some ==> r.0.threads == parsed.threads,
        parsed.threads is None ==> r.0.threads->0 >= 1,
        r.0.dev == parsed.dev,
        r.0.output == parsed.output,
        r.0.bs == parsed.bs,
        r.0.nblocks == parsed.nblocks,
        r.0.log == parsed.log,
        r.0.dd == parsed.dd,
        r.0.compress == parsed.compress,
        r.0.sha256 == parsed.sha256,
        r.0.blake3 == parsed.blake3,
        r.0.verbose == parsed.verbose,
{
    let mut args = parsed;
    if args.threads.is_none() {
        args.threads = Some(worker_threads(None, available_cpus()));
    }
    let level = log_level(args.verbose);
    (args, level)
}

} // verus!

//! Sorts the lines of text files alphabetically, choosing between two
//! strategies by input size: an in-memory sort for files that fit in memory
//! (`standard`), and a disk-bucketed external sort for larger files (`slow`).
//! The library holds the pure core: line splitting and joining, the two
//! sorters, the memory-mode policy, and the planning of concurrent
//! per-file jobs for a directory run. File and network I/O stay with the
//! caller, which hands the core plain bytes and takes plain bytes back.
use vstd::prelude::*;

pub mod lines;
pub mod order;
pub mod recursion;
pub mod slow;
pub mod standard;
pub mod utils;

verus! {

/// Command-line options that drive a run, as plain values.
pub struct Args {
    /// Path to the input file or directory.
    pub path: String,
    /// Output path; `None` means the caller's default.
    pub output: Option<String>,
    /// Byte sequence that separates lines in the input.
    pub delimiter: Vec<u8>,
    /// Byte sequence placed between lines in the output.
    pub output_delimiter: Vec<u8>,
    /// Force the low-memory (bucketed) strategy.
    pub low_memory_mode: bool,
    /// Force the standard strategy, whatever the file size.
    pub disable_low_memory_mode: bool,
}

/// The two read/sort strategies.
#[derive(Debug, Clone, Copy, PartialEq, Eq, Structural)]
pub enum MemoryMode {
    Standard,
    Low,
}

/// The orderings the sorters can produce. Only one exists.
#[derive(Debug, Clone, Copy, PartialEq, Eq, Structural)]
pub enum SortingStrategy {
    Alphabetical,
}

/// A fatal configuration fault, reported before any work is attempted.
#[derive(Debug, Clone, Copy, PartialEq, Eq, Structural)]
pub enum ConfigError {
    /// Both the low-memory flag and its disabling flag were set.
    ConflictingFlags,
}

/// What one of the two read strategies hands to its sorter: the split lines
/// for the standard strategy, the filled bucket store for the low-memory
/// one.
#[derive(Debug)]
pub enum ReadResult {
    StandardReadResult(Vec<Vec<u8>>),
    SlowReadResult(Vec<slow::Bucket>),
}

/// Reads the lines of `content` under the chosen strategy: splits on the
/// delimiter — a trailing delimiter adds no empty last line — and for the
/// low-memory mode partitions the lines into the bucket store.
pub fn read_start(mode: MemoryMode, content: &Vec<u8>, delimiter: &Vec<u8>) -> (r: ReadResult)
    ensures
        match r {
            ReadResult::StandardReadResult(read_lines) => mode == MemoryMode::Standard
                && read_lines.deep_view() == lines::read_lines_spec(content@, delimiter@),
            ReadResult::SlowReadResult(buckets) => {
                let split = lines::read_lines_spec(content@, delimiter@);
                &&& mode == MemoryMode::Low
                &&& slow::buckets_wf(buckets@)
                &&& forall|i: int|
                    0 <= i < buckets@.len() ==> (#[trigger] buckets@[i]).lines.deep_view()
                        == slow::lines_with_key(split, buckets@[i].key)
                &&& forall|k: u8| slow::has_key(split, k) <==> slow::key_present(buckets@, k)
            },
        },
{
    let read_lines = lines::read_lines(content, delimiter);
    match mode {
        MemoryMode::Low => ReadResult::SlowReadResult(slow::read(&read_lines)),
        MemoryMode::Standard => ReadResult::StandardReadResult(read_lines),
    }
}

/// The output bytes of one whole sort job: the input read as lines on the
/// delimiter (a trailing delimiter adds no empty last line), sorted under
/// the mode the options and the file size pick, and joined with the output
/// delimiter.
pub open spec fn run_output(args: Args, file_size: u64, content: Seq<u8>) -> Seq<u8> {
    let split = lines::read_lines_spec(content, args.delimiter@);
    if utils::chosen_mode(
        args.low_memory_mode,
        args.disable_low_memory_mode,
        file_size,
    ) == MemoryMode::Low {
        lines::join_spec(slow::bucketed_spec(split), args.output_delimiter@)
    } else {
        lines::join_spec(standard::sort_spec(split), args.output_delimiter@)
    }
}

/// One whole sort job on plain values: picks the strategy from the options
/// and the file's size, reads and sorts under it, and returns the joined
/// output, ready to be written to the destination in one write. Rejects a
/// conflicting pair of flags before any work.
pub fn run(args: &Args, file_size: u64, content: &Vec<u8>) -> (r: Result<Vec<u8>, ConfigError>)
    ensures
        match r {
            Ok(out) => !(args.low_memory_mode && args.disable_low_memory_mode) && out@
                == run_output(*args, file_size, content@),
            Err(e) => args.low_memory_mode && args.disable_low_memory_mode && e
                == ConfigError::ConflictingFlags,
        },
{
    let mode = match utils::select_mode(
        args.low_memory_mode,
        args.disable_low_memory_mode,
        file_size,
    ) {
        Ok(m) => m,
        Err(e) => {
            return Err(e);
        },
    };
    let ghost split = lines::read_lines_spec(content@, args.delimiter@);
    match read_start(mode, content, &args.delimiter) {
        ReadResult::SlowReadResult(buckets) => {
            proof {
                slow::lemma_partition_multiset(split, buckets@);
                order::lemma_bucket_le_total_ordering();
                order::lemma_sort_by_of_equal_multisets(
                    slow::all_lines(buckets@),
                    slow::nonempty_lines(split),
                    order::bucket_le(),
                );
            }
            Ok(slow::sort(buckets, &args.output_delimiter))
        },
        ReadResult::StandardReadResult(read_lines) => Ok(
            standard::sort(read_lines, &args.output_delimiter),
        ),
    }
}

} // verus!

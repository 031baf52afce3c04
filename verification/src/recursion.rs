//! Planning a directory run: which entries become sort jobs, under which
//! mode each runs, and the completion counter the concurrent jobs share.
//! The caller enumerates the directory, runs one job per planned file —
//! in any order, concurrently — and reports each completion; every decision
//! is made here on plain values.
use vstd::prelude::*;
use crate::{Args, MemoryMode};
use crate::utils::{chosen_mode, get_memory_mode};

verus! {

/// What a run over a directory can reject before any job starts.
#[derive(Debug, Clone, Copy, PartialEq, Eq, Structural)]
pub enum RecurseError {
    /// Some entry's name is not representable as text.
    NonUtf8FileName,
    /// Both the low-memory flag and its disabling flag were set.
    ConflictingFlags,
}

/// One directory entry, as the caller's enumeration found it.
#[derive(Debug)]
pub struct FileEntry {
    /// The entry's name within the input directory.
    pub name: String,
    /// Whether the entry is a regular file; anything else is skipped.
    pub is_file: bool,
    /// Whether the entry's name is representable as text.
    pub name_is_text: bool,
    /// The entry's size in bytes.
    pub size: u64,
}

/// One scheduled unit of work: sort the named file under the given mode,
/// writing the result under the same name in the output directory.
#[derive(Debug, PartialEq, Eq)]
pub struct SortJob {
    /// The input file's name, which the output mirrors.
    pub name: String,
    /// The strategy the file's size and the options picked.
    pub mode: MemoryMode,
}

/// The job an entry becomes.
pub open spec fn job_of(e: FileEntry, low: bool, disable: bool) -> SortJob {
    SortJob { name: e.name, mode: chosen_mode(low, disable, e.size) }
}

/// The jobs a directory run schedules: one per regular file, in enumeration
/// order, each under the mode its size and the options pick.
pub open spec fn planned_jobs(entries: Seq<FileEntry>, low: bool, disable: bool) -> Seq<SortJob> {
    entries.filter(|e: FileEntry| e.is_file).map_values(|e: FileEntry| job_of(e, low, disable))
}

/// Scheduling one more entry appends its job exactly when it is a regular
/// file.
proof fn lemma_planned_jobs_push(entries: Seq<FileEntry>, e: FileEntry, low: bool, disable: bool)
    ensures
        e.is_file ==> planned_jobs(entries.push(e), low, disable) == planned_jobs(
            entries,
            low,
            disable,
        ).push(job_of(e, low, disable)),
        !e.is_file ==> planned_jobs(entries.push(e), low, disable) == planned_jobs(
            entries,
            low,
            disable,
        ),
{
    reveal(Seq::filter);
    assert(entries.push(e).drop_last() =~= entries);
    assert(entries.push(e).last() == e);
    let f = entries.filter(|x: FileEntry| x.is_file);
    let m = |x: FileEntry| job_of(x, low, disable);
    if e.is_file {
        assert(entries.push(e).filter(|x: FileEntry| x.is_file) == f.push(e));
        assert(f.push(e).map_values(m) =~= f.map_values(m).push(m(e)));
    }
}

/// Plans a directory run: rejects a conflicting pair of flags before
/// anything else, then an entry whose name is not text, and otherwise
/// schedules one job per regular file, in enumeration order, each under the
/// mode its size and the options pick.
pub fn plan_jobs(entries: Vec<FileEntry>, args: &Args) -> (r: Result<Vec<SortJob>, RecurseError>)
    ensures
        match r {
            Ok(jobs) => {
                &&& !(args.low_memory_mode && args.disable_low_memory_mode)
                &&& forall|i: int| 0 <= i < entries@.len() ==> (#[trigger] entries@[i]).name_is_text
                &&& jobs@ == planned_jobs(
                    entries@,
                    args.low_memory_mode,
                    args.disable_low_memory_mode,
                )
            },
            Err(e) => match e {
                RecurseError::ConflictingFlags => args.low_memory_mode
                    && args.disable_low_memory_mode,
                RecurseError::NonUtf8FileName => {
                    &&& !(args.low_memory_mode && args.disable_low_memory_mode)
                    &&& exists|i: int|
                        0 <= i < entries@.len() && !(#[trigger] entries@[i]).name_is_text
                },
            },
        },
{
    if args.low_memory_mode && args.disable_low_memory_mode {
        return Err(RecurseError::ConflictingFlags);
    }
    let mut j: usize = 0;
    while j < entries.len()
        invariant
            j <= entries@.len(),
            !(args.low_memory_mode && args.disable_low_memory_mode),
            forall|i: int| 0 <= i < j ==> (#[trigger] entries@[i]).name_is_text,
        decreases entries.len() - j,
    {
        if !entries[j].name_is_text {
            assert(!entries@[j as int].name_is_text);
            return Err(RecurseError::NonUtf8FileName);
        }
        j = j + 1;
    }
    let ghost ev: Seq<FileEntry> = entries@;
    let mut remaining = entries;
    let mut jobs: Vec<SortJob> = Vec::new();
    let ghost t: int = 0;
    proof {
        assert(ev.skip(0) =~= ev);
        assert(ev.take(0) =~= Seq::<FileEntry>::empty());
        assert(planned_jobs(ev.take(0), args.low_memory_mode, args.disable_low_memory_mode)
            =~= Seq::<SortJob>::empty()) by {
            reveal(Seq::filter);
        }
    }
    while remaining.len() > 0
        invariant
            0 <= t <= ev.len(),
            remaining@ == ev.skip(t),
            !(args.low_memory_mode && args.disable_low_memory_mode),
            jobs@ == planned_jobs(ev.take(t), args.low_memory_mode, args.disable_low_memory_mode),
        decreases remaining.len(),
    {
        let e = remaining.remove(0);
        proof {
            assert(e == ev[t]);
            assert(remaining@ =~= ev.skip(t + 1));
            lemma_planned_jobs_push(
                ev.take(t),
                ev[t],
                args.low_memory_mode,
                args.disable_low_memory_mode,
            );
            assert(ev.take(t).push(ev[t]) =~= ev.take(t + 1));
        }
        if e.is_file {
            let mode = get_memory_mode(args, e.size);
            jobs.push(SortJob { name: e.name, mode });
        }
        proof {
            t = t + 1;
        }
    }
    proof {
        assert(ev.take(t) =~= ev);
    }
    Ok(jobs)
}

/// The completion count the concurrent jobs of one directory run share.
/// The caller increments it once per finished job — atomically, since jobs
/// finish in any order — and it never passes the number of planned jobs.
pub struct Progress {
    /// How many jobs the run planned.
    pub total: u64,
    /// How many jobs have finished so far.
    pub finished: u64,
}

impl Progress {
    /// No more jobs have finished than were planned.
    pub open spec fn wf(&self) -> bool {
        self.finished <= self.total
    }

    /// A fresh counter for a run of `total` jobs.
    pub fn new(total: u64) -> (r: Progress)
        ensures
            r.total == total,
            r.finished == 0,
            r.wf(),
    {
        Progress { total, finished: 0 }
    }

    /// Records one finished job and returns the new count.
    pub fn record_one(&mut self) -> (n: u64)
        requires
            old(self).wf(),
            old(self).finished < old(self).total,
        ensures
            final(self).total == old(self).total,
            final(self).finished == old(self).finished + 1,
            final(self).wf(),
            n == final(self).finished,
    {
        self.finished = self.finished + 1;
        self.finished
    }

    /// Whether every planned job has finished.
    pub fn is_done(&self) -> (r: bool)
        ensures
            r == (self.finished == self.total),
    {
        self.finished == self.total
    }
}

} // verus!

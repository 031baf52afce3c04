use txt_sorter::recursion::{plan_jobs, FileEntry, Progress, RecurseError, SortJob};
use txt_sorter::utils::{get_memory_mode, select_mode, MEMORY_MODE_THRESHOLD};
use txt_sorter::{run, read_start, Args, ConfigError, MemoryMode, ReadResult};

fn bytes(s: &str) -> Vec<u8> {
    s.as_bytes().to_vec()
}

fn args_with(low: bool, disable: bool) -> Args {
    Args {
        path: String::from("input.txt"),
        output: None,
        delimiter: bytes("\n"),
        output_delimiter: bytes("\n"),
        low_memory_mode: low,
        disable_low_memory_mode: disable,
    }
}

fn entry(name: &str, size: u64, is_file: bool) -> FileEntry {
    FileEntry { name: String::from(name), is_file, name_is_text: true, size }
}

#[test]
fn mode_selection() {
    assert_eq!(select_mode(false, false, 600_000_000), Ok(MemoryMode::Low));
    assert_eq!(select_mode(false, true, 600_000_000), Ok(MemoryMode::Standard));
    assert_eq!(select_mode(true, true, 0), Err(ConfigError::ConflictingFlags));
    assert_eq!(select_mode(true, true, u64::MAX), Err(ConfigError::ConflictingFlags));
    assert_eq!(select_mode(true, false, 10), Ok(MemoryMode::Low));
}

#[test]
fn mode_threshold_boundary() {
    assert_eq!(select_mode(false, false, MEMORY_MODE_THRESHOLD), Ok(MemoryMode::Standard));
    assert_eq!(select_mode(false, false, MEMORY_MODE_THRESHOLD + 1), Ok(MemoryMode::Low));
}

#[test]
fn get_memory_mode_follows_args() {
    assert_eq!(get_memory_mode(&args_with(false, false), 10), MemoryMode::Standard);
    assert_eq!(get_memory_mode(&args_with(true, false), 10), MemoryMode::Low);
    assert_eq!(get_memory_mode(&args_with(false, true), 600_000_000), MemoryMode::Standard);
}

#[test]
fn standard_mode_scenario() {
    let args = args_with(false, false);
    let out = run(&args, 5, &bytes("b\na\nc")).unwrap();
    assert_eq!(out, bytes("a\nb\nc"));
}

#[test]
fn standard_mode_newline_terminated_file() {
    let args = args_with(false, false);
    let out = run(&args, 5, &bytes("b\na\nc\n")).unwrap();
    assert_eq!(out, bytes("a\nb\nc"));
}

#[test]
fn low_mode_scenario() {
    let args = args_with(true, false);
    let out = run(&args, 5, &bytes("b\na\nc")).unwrap();
    assert_eq!(out, bytes("a\nb\nc"));
}

#[test]
fn run_honors_configured_delimiters() {
    let mut args = args_with(false, false);
    args.delimiter = bytes(",");
    args.output_delimiter = bytes(";");
    let out = run(&args, 5, &bytes("b,a,c")).unwrap();
    assert_eq!(out, bytes("a;b;c"));
}

#[test]
fn run_rejects_conflicting_flags() {
    let args = args_with(true, true);
    assert_eq!(run(&args, 5, &bytes("b\na")), Err(ConfigError::ConflictingFlags));
}

#[test]
fn run_drops_empty_lines_only_in_low_mode() {
    let standard_out = run(&args_with(false, false), 5, &bytes("b\n\na")).unwrap();
    assert_eq!(standard_out, bytes("\na\nb"));
    let low_out = run(&args_with(true, false), 5, &bytes("b\n\na")).unwrap();
    assert_eq!(low_out, bytes("a\nb"));
}

#[test]
fn read_start_picks_the_strategy() {
    match read_start(MemoryMode::Standard, &bytes("b\na"), &bytes("\n")) {
        ReadResult::StandardReadResult(ls) => {
            assert_eq!(ls, vec![bytes("b"), bytes("a")]);
        }
        ReadResult::SlowReadResult(_) => panic!("standard mode must not bucket"),
    }
    match read_start(MemoryMode::Low, &bytes("b\na"), &bytes("\n")) {
        ReadResult::SlowReadResult(buckets) => {
            assert_eq!(buckets.len(), 2);
            assert_eq!(buckets[0].key, b'a');
            assert_eq!(buckets[1].key, b'b');
        }
        ReadResult::StandardReadResult(_) => panic!("low mode must bucket"),
    }
}

#[test]
fn directory_scenario() {
    // three files of varying size, one over the threshold; a subdirectory
    // is not scheduled
    let entries = vec![
        entry("notes.txt", 100, true),
        entry("big.txt", 600_000_000, true),
        entry("sub", 0, false),
        entry("todo.txt", 50, true),
    ];
    let args = args_with(false, false);
    let jobs: Vec<SortJob> = plan_jobs(entries, &args).unwrap();
    assert_eq!(jobs.len(), 3);
    assert_eq!(jobs[0].name, "notes.txt");
    assert_eq!(jobs[0].mode, MemoryMode::Standard);
    assert_eq!(jobs[1].name, "big.txt");
    assert_eq!(jobs[1].mode, MemoryMode::Low);
    assert_eq!(jobs[2].name, "todo.txt");
    assert_eq!(jobs[2].mode, MemoryMode::Standard);

    // each job's output is complete and correct whatever the completion
    // order; both modes sort the same content the same way here
    let contents = [bytes("b\na"), bytes("d\nc"), bytes("f\ne")];
    let sizes: [u64; 3] = [100, 600_000_000, 50];
    let mut outputs: Vec<Vec<u8>> = Vec::new();
    for (i, job) in jobs.iter().enumerate().rev() {
        assert!(matches!(job.mode, MemoryMode::Standard | MemoryMode::Low));
        outputs.push(run(&args, sizes[i], &contents[i]).unwrap());
    }
    assert_eq!(outputs[0], bytes("e\nf"));
    assert_eq!(outputs[1], bytes("c\nd"));
    assert_eq!(outputs[2], bytes("a\nb"));

    let mut progress = Progress::new(3);
    assert!(!progress.is_done());
    assert_eq!(progress.record_one(), 1);
    assert_eq!(progress.record_one(), 2);
    assert_eq!(progress.record_one(), 3);
    assert!(progress.is_done());
}

#[test]
fn plan_rejects_conflicting_flags() {
    let entries = vec![entry("a.txt", 1, true)];
    assert_eq!(plan_jobs(entries, &args_with(true, true)), Err(RecurseError::ConflictingFlags));
}

#[test]
fn plan_rejects_non_text_name() {
    let mut bad = entry("ignored", 1, true);
    bad.name_is_text = false;
    let entries = vec![entry("a.txt", 1, true), bad];
    assert_eq!(plan_jobs(entries, &args_with(false, false)), Err(RecurseError::NonUtf8FileName));
}

#[test]
fn plan_of_empty_directory_is_empty() {
    let jobs = plan_jobs(Vec::new(), &args_with(false, false)).unwrap();
    assert_eq!(jobs.len(), 0);
}

//! Sampling: ring buffers, counts, sessions.

use std::time::Duration;

use profcast::capture::{CaptureSpec, Target};
use profcast::model::Frame;
use profcast::ring::{drain, event_flags, thread_error, CONTEXT_MAX};
use profcast::sampling::{build_profile, record_sample, record_samples, symbolized_profile, Counts};
use profcast::session::{
    c_str_from_array, check_command, check_opened, child_has_exited, has_run, is_due, maps_path,
    plan, snapshot_interval, symbol_covers, symbol_frame, take_snapshot, task_dir, thread_ids,
    threads_unreadable, window, Observation, Phase, Tick, Window, MIN_INTERVAL,
};
use profcast::symbols::Symbolizer;

#[test]
fn snapshot_interval_is_reciprocal_and_floored() {
    // 100 Hz -> 10 ms.
    assert_eq!(Duration::from_nanos(snapshot_interval(100)), Duration::from_millis(10));
    // 1 Hz -> 1 s.
    assert_eq!(Duration::from_nanos(snapshot_interval(1)), Duration::from_secs(1));
    // An absurd rate is floored, not turned into a busy-wait.
    assert_eq!(snapshot_interval(u32::MAX), MIN_INTERVAL);
    // No rate at all falls back.
    assert_eq!(snapshot_interval(0), 10_000_000);
}

/// A record of some type with a body of words, in the byte order of the machine.
fn record(kind: u32, words: &[u64]) -> Vec<u8> {
    let size = (8 + 8 * words.len()) as u16;
    let mut out = Vec::new();
    out.extend_from_slice(&kind.to_le_bytes());
    out.extend_from_slice(&0_u16.to_le_bytes());
    out.extend_from_slice(&size.to_le_bytes());
    for word in words {
        out.extend_from_slice(&word.to_le_bytes());
    }
    out
}

#[test]
fn samples_are_drained_without_markers() {
    let mut ring = record(9, &[3, CONTEXT_MAX, 0x10, 0x20]);
    ring.extend(record(2, &[7]));
    ring.extend(record(9, &[1, u64::MAX]));
    ring.extend(record(9, &[1, 0x30]));
    let head = ring.len() as u64;
    ring.resize(256, 0);
    let (chains, tail) = drain(&ring, head, 0, true);
    assert_eq!(chains, vec![vec![0x10, 0x20], vec![0x30]]);
    assert_eq!(tail, head);
}

#[test]
fn draining_wraps_around_the_ring() {
    let bytes = record(9, &[2, 0x11, 0x22]);
    let mut ring = vec![0_u8; 64];
    let start = 48_usize;
    for (i, b) in bytes.iter().enumerate() {
        ring[(start + i) % 64] = *b;
    }
    let tail = 64 * 5 + start as u64;
    let (chains, next) = drain(&ring, tail + bytes.len() as u64, tail, true);
    assert_eq!(chains, vec![vec![0x11, 0x22]]);
    assert_eq!(next, tail + 32);
}

#[test]
fn corrupt_counts_are_clamped_and_empty_records_stop() {
    let mut ring = record(9, &[1000, 0x5]);
    ring.resize(128, 0);
    let (chains, tail) = drain(&ring, 128, 0, true);
    assert_eq!(chains, vec![vec![0x5]]);
    assert_eq!(tail, 24);
}

#[test]
fn big_endian_rings_are_read_too() {
    let mut ring = vec![0, 0, 0, 9, 0, 0, 0, 24, 0, 0, 0, 0, 0, 0, 0, 1];
    ring.extend_from_slice(&0x1234_u64.to_be_bytes());
    ring.resize(32, 0);
    let (chains, tail) = drain(&ring, 24, 0, false);
    assert_eq!(chains, vec![vec![0x1234]]);
    assert_eq!(tail, 24);
}

#[test]
fn event_flags_tell_apart_a_launched_target() {
    assert_eq!(event_flags(false), 1 | 1 << 5 | 1 << 6 | 1 << 10);
    assert_eq!(event_flags(true), 1 | 1 << 5 | 1 << 6 | 1 << 10 | 1 << 12);
}

#[test]
fn thread_errors_hint_at_permissions() {
    assert_eq!(
        thread_error("mmap perf ring", 7, "boom", false).message(),
        "capture error: mmap perf ring failed for thread 7: boom",
    );
    assert_eq!(
        thread_error("perf_event_open", 7, "denied", true).message(),
        "capture error: perf_event_open failed for thread 7: denied (try lowering \
         /proc/sys/kernel/perf_event_paranoid, or run with more privileges)",
    );
}

#[test]
fn samples_are_counted_and_reversed() {
    let mut counts = Counts::new();
    counts = record_sample(counts, &[3, 2, 1]);
    counts = record_samples(counts, &vec![vec![2, 1], vec![3, 2, 1]]);
    assert_eq!(counts.len(), 2);
    assert_eq!(counts.addresses(), vec![1, 2, 3]);
    let frames = vec![Frame::default(), Frame::default(), Frame::default()];
    let profile = build_profile(&counts, frames).unwrap();
    assert!(profile.validate().is_ok());
    let stacks: Vec<Vec<u32>> =
        profile.samples.iter().map(|s| s.stack.iter().map(|id| id.0).collect()).collect();
    assert_eq!(stacks, vec![vec![0, 1, 2], vec![0, 1]]);
    assert_eq!(profile.samples[0].values, vec![2]);
    assert_eq!(profile.samples[1].values, vec![1]);
    assert_eq!(profile.value_kinds[0].kind, "samples");
    assert_eq!(profile.value_kinds[0].unit, "count");
}

#[test]
fn addresses_without_a_map_become_frames() {
    let counts = record_sample(Counts::new(), &[0xabc]);
    let profile = symbolized_profile(&counts, &Symbolizer::new("")).unwrap();
    assert_eq!(profile.frame_intern[0].raw, "0xabc");
    assert_eq!(profile.frame_intern[0].address, Some(0xabc));
    assert_eq!(profile.frame_intern[0].module, None);
}

#[test]
fn plans_follow_the_target() {
    let spec = CaptureSpec::default();
    let own = plan(&spec).unwrap();
    assert!(!own.launch && !own.wait_for_exit);
    let pid = plan(&CaptureSpec { target: Target::Pid(3), ..CaptureSpec::default() }).unwrap();
    assert!(!pid.launch && pid.wait_for_exit);
    let argv = vec!["true".to_owned()];
    let run = plan(&CaptureSpec { target: Target::Command(argv), ..CaptureSpec::default() });
    assert!(run.unwrap().launch);
    let idle = CaptureSpec { frequency_hz: 0, ..CaptureSpec::default() };
    assert_eq!(
        plan(&idle).unwrap_err().message(),
        "capture error: sampling frequency must be greater than zero",
    );
}

#[test]
fn windows_follow_the_request() {
    let second = Duration::from_secs(1);
    assert_eq!(window(Some(second), true), Window::Requested(second));
    assert_eq!(window(None, true), Window::UntilExit);
    assert_eq!(window(None, false), Window::Standard);
}

#[test]
fn sessions_drain_once_more_after_disabling() {
    let mut phase = Phase::Sleep;
    let mut seen = Vec::new();
    for yes in [false, false, false, false, false, false, true, false, false] {
        seen.push(phase);
        phase = phase.next(yes);
    }
    assert_eq!(phase, Phase::Finished);
    assert_eq!(
        seen,
        vec![
            Phase::Sleep,
            Phase::Drain,
            Phase::AskDeadline,
            Phase::AskExit,
            Phase::Sleep,
            Phase::Drain,
            Phase::AskDeadline,
            Phase::Disable,
            Phase::LastDrain,
        ],
    );
}

#[test]
fn ticks_pause_between_snapshots() {
    assert_eq!(Tick::Snapshot.next(true), Tick::AskDeadline);
    assert_eq!(Tick::AskDeadline.next(true), Tick::Finished);
    assert_eq!(Tick::AskDeadline.next(false), Tick::AskExit);
    assert_eq!(Tick::AskExit.next(true), Tick::Finished);
    assert_eq!(Tick::AskExit.next(false), Tick::Pause);
    assert_eq!(Tick::Pause.next(false), Tick::Snapshot);
    assert_eq!(Tick::Finished.next(false), Tick::Finished);
}

#[test]
fn only_threads_that_ran_are_walked() {
    assert!(has_run(Some(1), Some(2)));
    assert!(!has_run(Some(2), Some(2)));
    assert!(!has_run(None, Some(2)));
    assert!(!has_run(Some(1), None));
    assert!(is_due(None, 5));
    assert!(is_due(Some(5), 5));
    assert!(!is_due(Some(4), 5));
}

#[test]
fn snapshots_count_walked_threads_and_keep_baselines() {
    let seen = vec![
        Observation { tid: 1, cycles: Some(10), stack: vec![5, 6] },
        Observation { tid: 2, cycles: Some(20), stack: vec![] },
        Observation { tid: 3, cycles: None, stack: vec![7] },
    ];
    let (counts, cycles) = take_snapshot(Counts::new(), &seen);
    assert_eq!(counts.len(), 1);
    assert_eq!(counts.addresses(), vec![6, 5]);
    assert_eq!(cycles.len(), 2);
    assert_eq!(cycles.get(&1), Some(&10));
    assert_eq!(cycles.get(&2), Some(&20));
}

#[test]
fn symbols_cover_their_extent() {
    assert!(symbol_covers(0x10, false, 0xf));
    assert!(!symbol_covers(0x10, false, 0x10));
    assert!(symbol_covers(0, true, 0x2000));
    assert!(!symbol_covers(0, true, 0x2001));
    assert!(symbol_covers(0, false, 0x2001));
}

#[test]
fn c_strings_end_at_the_first_nul() {
    assert_eq!(c_str_from_array(&[104, 105, 0, 120]), "hi");
    assert_eq!(c_str_from_array(&[104, 105]), "hi");
    assert_eq!(c_str_from_array(&[-61, -92, 0]), "\u{e4}");
    assert_eq!(c_str_from_array(&[-1]), "\u{fffd}");
}

#[test]
fn debugger_frames_fall_back_to_the_address() {
    let known = symbol_frame(0x20, Some("f".to_owned()), None, Some("a.c".to_owned()), Some(3));
    assert_eq!(known.raw, "f");
    assert_eq!(known.file.as_deref(), Some("a.c"));
    let unknown = symbol_frame(0x20, None, Some("m".to_owned()), None, None);
    assert_eq!(unknown.raw, "0x20");
    assert_eq!(unknown.module.as_deref(), Some("m"));
}

#[test]
fn process_paths_name_the_process() {
    assert_eq!(maps_path(0), "/proc/self/maps");
    assert_eq!(maps_path(12), "/proc/12/maps");
    assert_eq!(task_dir(12), "/proc/12/task");
    assert_eq!(
        threads_unreadable(12, "gone").message(),
        "capture error: cannot read threads of process 12 (/proc/12/task): gone",
    );
}

#[test]
fn thread_ids_are_numbers_in_order() {
    let names = vec!["30".to_owned(), "x".to_owned(), "4".to_owned(), "4294967296".to_owned()];
    assert_eq!(thread_ids(1, &names).unwrap(), vec![4, 30]);
    assert_eq!(
        thread_ids(1, &vec!["x".to_owned()]).unwrap_err().message(),
        "capture error: process 1 has no readable threads",
    );
    assert!(check_opened(1, 2).is_ok());
    assert_eq!(
        check_opened(1, 0).unwrap_err().message(),
        "capture error: could not open any sampling events for process 1",
    );
}

#[test]
fn commands_are_checked_before_launch() {
    assert!(check_command(&["a".to_owned()]).is_ok());
    assert_eq!(
        check_command(&[]).unwrap_err().message(),
        "capture error: empty command: no program to launch",
    );
    assert_eq!(
        check_command(&["a".to_owned(), "b\0".to_owned()]).unwrap_err().message(),
        "capture error: command contains an interior NUL byte",
    );
    assert!(!child_has_exited(false, 0));
    assert!(child_has_exited(false, 5));
    assert!(child_has_exited(true, 0));
}

//! The decisions of a sampling session: what to attach to, when to stop, what
//! to read next. The system calls between the decisions are the caller's.

use std::collections::HashMap;

use vstd::prelude::*;

use crate::capture::{texts, CaptureSpec, Target, TargetView};
use crate::error::{outcome, ErrorView, ProfcastError, Result};
use crate::model::{opt_text, Frame, FrameView};
use crate::number::{decimal, parse_unsigned, push_decimal, push_hexadecimal, read_unsigned};
use crate::sampling::{record_sample, Counts};
use crate::sorting::{orders, stable_order};
use crate::symbols::address_text;
use crate::text::{chars_of, lossy, lossy_text};

verus! {

broadcast use vstd::std_specs::hash::group_hash_axioms;

/// Default sampling window, in seconds, when the caller does not specify a
/// duration and the target is not a separate process we can wait on.
pub const DEFAULT_SECONDS: u64 = 10;

/// How often ring buffers are drained, in milliseconds.
pub const DRAIN_MILLIS: u64 = 100;

/// Floor on the interval between thread snapshots, in nanoseconds, so that an
/// absurd frequency cannot spin the sampler into a busy-wait that starves the
/// threads it keeps suspending.
pub const MIN_INTERVAL: u64 = 1_000_000;

/// Interval between thread snapshots, in nanoseconds, where the frequency says
/// nothing.
pub const FALLBACK_INTERVAL: u64 = 10_000_000;

/// How long to reuse a list of threads before enumerating them again, in
/// nanoseconds.
pub const THREAD_LIST_REFRESH: u64 = 500_000_000;

/// How long to coast between refreshes of the list of modules, in nanoseconds.
pub const MODULE_LIST_REFRESH: u64 = 150_000_000;

/// Largest displacement past an export (one with no known size) that is still
/// trusted as that function, rather than an unexported neighbor.
pub const EXPORT_MAX_DISPLACEMENT: u64 = 0x2000;

/// How a session goes about its target.
#[derive(Debug, Clone, Copy, PartialEq, Eq, Structural)]
pub struct Plan {
    /// Whether the target is a program to be launched, which is held back until
    /// sampling can start with it.
    pub launch: bool,
    /// Whether the end of the target ends the session.
    pub wait_for_exit: bool,
}

/// How a session goes about a target, or why it does not.
pub open spec fn planned(target: TargetView, frequency_hz: u32) -> std::result::Result<
    Plan,
    ErrorView,
> {
    if frequency_hz == 0 {
        Err(ErrorView::Capture("sampling frequency must be greater than zero"@))
    } else {
        Ok(Plan { launch: target is Command, wait_for_exit: !(target is Current) })
    }
}

/// Decides how a session goes about its target.
pub fn plan(spec: &CaptureSpec) -> (r: Result<Plan>)
    ensures
        match r {
            Ok(plan) => planned(spec.target@, spec.frequency_hz) == Ok::<Plan, ErrorView>(plan),
            Err(error) => planned(spec.target@, spec.frequency_hz) == Err::<Plan, ErrorView>(
                error@,
            ),
        },
{
    if spec.frequency_hz == 0 {
        return Err(
            ProfcastError::Capture("sampling frequency must be greater than zero".to_owned()),
        );
    }
    match &spec.target {
        Target::Current => Ok(Plan { launch: false, wait_for_exit: false }),
        Target::Pid(_) => Ok(Plan { launch: false, wait_for_exit: true }),
        Target::Command(_) => Ok(Plan { launch: true, wait_for_exit: true }),
    }
}

/// When a session ends, apart from the end of its target.
#[derive(Debug, Clone, Copy, PartialEq, Eq)]
pub enum Window {
    /// After the duration that was asked for.
    Requested(std::time::Duration),
    /// Not before the target exits.
    UntilExit,
    /// After [`DEFAULT_SECONDS`].
    Standard,
}

/// Decides when a session ends.
pub fn window(duration: Option<std::time::Duration>, wait_for_exit: bool) -> (r: Window)
    ensures
        r == (match duration {
            Some(duration) => Window::Requested(duration),
            None => if wait_for_exit {
                Window::UntilExit
            } else {
                Window::Standard
            },
        }),
{
    match duration {
        Some(duration) => Window::Requested(duration),
        None => {
            if wait_for_exit {
                Window::UntilExit
            } else {
                Window::Standard
            }
        },
    }
}

/// What a session that drains ring buffers does next.
#[derive(Debug, Clone, Copy, PartialEq, Eq, Structural)]
pub enum Phase {
    /// Sleep for [`DRAIN_MILLIS`].
    Sleep,
    /// Drain all ring buffers.
    Drain,
    /// Ask whether the deadline has passed.
    AskDeadline,
    /// Ask whether the target has finished.
    AskExit,
    /// Disable all events.
    Disable,
    /// Drain anything buffered after the last interval.
    LastDrain,
    /// Nothing: the session is over.
    Finished,
}

impl Phase {
    /// What comes after a phase, where `yes` is the answer to its question if
    /// it asks one.
    pub open spec fn after(self, yes: bool) -> Phase {
        match self {
            Phase::Sleep => Phase::Drain,
            Phase::Drain => Phase::AskDeadline,
            Phase::AskDeadline => if yes {
                Phase::Disable
            } else {
                Phase::AskExit
            },
            Phase::AskExit => if yes {
                Phase::Disable
            } else {
                Phase::Sleep
            },
            Phase::Disable => Phase::LastDrain,
            Phase::LastDrain => Phase::Finished,
            Phase::Finished => Phase::Finished,
        }
    }

    /// Moves on to what comes after a phase, where `yes` is the answer to its
    /// question if it asks one.
    pub fn next(self, yes: bool) -> (r: Phase)
        ensures
            r == self.after(yes),
    {
        match self {
            Phase::Sleep => Phase::Drain,
            Phase::Drain => Phase::AskDeadline,
            Phase::AskDeadline => if yes {
                Phase::Disable
            } else {
                Phase::AskExit
            },
            Phase::AskExit => if yes {
                Phase::Disable
            } else {
                Phase::Sleep
            },
            Phase::Disable => Phase::LastDrain,
            Phase::LastDrain => Phase::Finished,
            Phase::Finished => Phase::Finished,
        }
    }
}

/// The phases of a session, where `answers` are the answers that it gets.
pub open spec fn course(answers: Seq<bool>) -> Phase
    decreases answers.len(),
{
    if answers.len() == 0 {
        Phase::Sleep
    } else {
        course(answers.drop_last()).after(answers.last())
    }
}

/// A session is over only after a last drain of disabled events: what was
/// buffered when sampling stopped is not lost. It drains between any two
/// questions about its end, and it stops only where the deadline has passed or
/// the target has finished.
pub proof fn law_nothing_buffered_is_lost(phase: Phase, yes: bool)
    ensures
        phase.after(yes) is Finished ==> phase is LastDrain || phase is Finished,
        phase.after(yes) is LastDrain ==> phase is Disable,
        phase.after(yes) is Disable ==> yes && (phase is AskDeadline || phase is AskExit),
        phase.after(yes) is AskDeadline ==> phase is Drain,
        phase.after(yes) is AskExit ==> phase is AskDeadline && !yes,
{
}

/// Once the deadline has passed, or the target has finished, a session is over
/// after three more phases.
pub proof fn law_a_yes_ends_the_session(answers: Seq<bool>, a: bool, b: bool)
    requires
        course(answers) is AskDeadline || course(answers) is AskExit,
    ensures
        course(answers.push(true).push(a).push(b)) is Finished,
{
    let s = answers.push(true);
    assert(s.drop_last() =~= answers);
    assert(s.push(a).drop_last() =~= s);
    assert(s.push(a).push(b).drop_last() =~= s.push(a));
    assert(course(s) is Disable);
    assert(course(s.push(a)) is LastDrain);
}

/// What a session that takes snapshots of threads does next.
#[derive(Debug, Clone, Copy, PartialEq, Eq, Structural)]
pub enum Tick {
    /// Take a snapshot of the threads.
    Snapshot,
    /// Ask whether the deadline has passed.
    AskDeadline,
    /// Ask whether the target has finished.
    AskExit,
    /// Sleep for what is left of the interval.
    Pause,
    /// Nothing: the session is over.
    Finished,
}

impl Tick {
    /// What comes after a phase, where `yes` is the answer to its question if
    /// it asks one.
    pub open spec fn after(self, yes: bool) -> Tick {
        match self {
            Tick::Snapshot => Tick::AskDeadline,
            Tick::AskDeadline => if yes {
                Tick::Finished
            } else {
                Tick::AskExit
            },
            Tick::AskExit => if yes {
                Tick::Finished
            } else {
                Tick::Pause
            },
            Tick::Pause => Tick::Snapshot,
            Tick::Finished => Tick::Finished,
        }
    }

    /// Moves on to what comes after a phase, where `yes` is the answer to its
    /// question if it asks one.
    pub fn next(self, yes: bool) -> (r: Tick)
        ensures
            r == self.after(yes),
    {
        match self {
            Tick::Snapshot => Tick::AskDeadline,
            Tick::AskDeadline => if yes {
                Tick::Finished
            } else {
                Tick::AskExit
            },
            Tick::AskExit => if yes {
                Tick::Finished
            } else {
                Tick::Pause
            },
            Tick::Pause => Tick::Snapshot,
            Tick::Finished => Tick::Finished,
        }
    }
}

/// The interval between thread snapshots for a frequency, in nanoseconds.
pub open spec fn interval(frequency_hz: u32) -> int {
    if frequency_hz == 0 {
        FALLBACK_INTERVAL as int
    } else {
        let wanted: int = 1_000_000_000int / (frequency_hz as int);
        if wanted < MIN_INTERVAL {
            MIN_INTERVAL as int
        } else {
            wanted
        }
    }
}

/// Turns the requested frequency into the delay between thread snapshots, in
/// nanoseconds, clamped so the sampler cannot starve the target it keeps
/// suspending.
pub fn snapshot_interval(frequency_hz: u32) -> (r: u64)
    ensures
        r == interval(frequency_hz),
{
    if frequency_hz == 0 {
        return FALLBACK_INTERVAL;
    }
    let wanted: u64 = 1_000_000_000 / (frequency_hz as u64);
    if wanted < MIN_INTERVAL {
        MIN_INTERVAL
    } else {
        wanted
    }
}

/// Whether something is to be done that was last done `since` nanoseconds ago,
/// if ever, and is done every `every` nanoseconds.
pub fn is_due(since: Option<u64>, every: u64) -> (r: bool)
    ensures
        r == (match since {
            Some(elapsed) => elapsed >= every,
            None => true,
        }),
{
    match since {
        Some(elapsed) => elapsed >= every,
        None => true,
    }
}

/// Whether a thread used the processor between two looks at its cycle count.
/// One that has not been seen before counts as idle, so that a thread parked in
/// a wait is never mistaken for work on its first sample.
pub open spec fn advanced(last: Option<u64>, now: Option<u64>) -> bool {
    match (last, now) {
        (Some(last), Some(now)) => now > last,
        _ => false,
    }
}

/// Whether a thread used the processor between two looks at its cycle count.
pub fn has_run(last: Option<u64>, now: Option<u64>) -> (r: bool)
    ensures
        r == advanced(last, now),
{
    match (last, now) {
        (Some(last), Some(now)) => now > last,
        _ => false,
    }
}

/// What a snapshot found of one thread: its cycle count, unless it is gone, and
/// its call-chain if it was walked.
pub struct Observation {
    pub tid: u32,
    pub cycles: Option<u64>,
    pub stack: Vec<u64>,
}

/// The call-chains of a snapshot that count as samples.
pub open spec fn sampled(seen: Seq<Observation>) -> Seq<Seq<u64>>
    decreases seen.len(),
{
    if seen.len() == 0 {
        Seq::empty()
    } else {
        let rest = sampled(seen.drop_last());
        if seen.last().cycles is Some && seen.last().stack@.len() > 0 {
            rest.push(seen.last().stack@)
        } else {
            rest
        }
    }
}

/// The cycle counts of a snapshot, by thread.
pub open spec fn baselines(seen: Seq<Observation>) -> Map<u32, u64>
    decreases seen.len(),
{
    if seen.len() == 0 {
        Map::empty()
    } else {
        let rest = baselines(seen.drop_last());
        match seen.last().cycles {
            Some(cycles) => rest.insert(seen.last().tid, cycles),
            None => rest,
        }
    }
}

/// Takes the samples of a snapshot into account. Returns the counts, and the
/// cycle counts of the threads that are still there for the next snapshot.
pub fn take_snapshot(counts: Counts, seen: &Vec<Observation>) -> (r: (Counts, HashMap<u32, u64>))
    ensures
        (r.0)@ == counts@.recorded_all(sampled(seen@)),
        (r.1)@ == baselines(seen@),
{
    let ghost start = counts@;
    let mut out: Counts = counts;
    let mut cycles: HashMap<u32, u64> = HashMap::new();
    let mut i: usize = 0;
    assert(seen@.take(0) =~= Seq::empty());
    assert(cycles@ =~= Map::empty());
    while i < seen.len()
        invariant
            i <= seen.len(),
            out@ == start.recorded_all(sampled(seen@.take(i as int))),
            cycles@ == baselines(seen@.take(i as int)),
        decreases seen.len() - i,
    {
        let ghost next = seen@.take(i + 1);
        assert(next.drop_last() =~= seen@.take(i as int));
        assert(next.last() == seen@[i as int]);
        let one = &seen[i];
        if let Some(count) = one.cycles {
            cycles.insert(one.tid, count);
            if one.stack.len() > 0 {
                assert(sampled(next).drop_last() =~= sampled(seen@.take(i as int)));
                out = record_sample(out, one.stack.as_slice());
            }
        }
        i = i + 1;
    }
    assert(seen@.take(i as int) =~= seen@);
    (out, cycles)
}

/// Whether an address at some displacement past the start of a symbol belongs
/// to it: within its size where that is known, and not too far past an export
/// that has none.
pub open spec fn covers(size: u64, export: bool, displacement: u64) -> bool {
    if size != 0 {
        displacement < size
    } else {
        export ==> displacement <= EXPORT_MAX_DISPLACEMENT
    }
}

/// Whether an address belongs to the nearest symbol at or below it.
pub fn symbol_covers(size: u64, export: bool, displacement: u64) -> (r: bool)
    ensures
        r == covers(size, export, displacement),
{
    if size != 0 {
        displacement < size
    } else {
        !export || displacement <= EXPORT_MAX_DISPLACEMENT
    }
}

/// The bytes before the first NUL.
pub open spec fn up_to_nul(bytes: Seq<i8>) -> Seq<u8>
    decreases bytes.len(),
{
    if bytes.len() == 0 || bytes[0] == 0 {
        Seq::empty()
    } else {
        seq![
            if bytes[0] < 0 {
                (bytes[0] + 256) as u8
            } else {
                bytes[0] as u8
            },
        ] + up_to_nul(bytes.skip(1))
    }
}

/// Reads a NUL-terminated string from an array of C characters (lossy UTF-8).
pub fn c_str_from_array(buf: &[i8]) -> (r: String)
    ensures
        r@ == lossy_text(up_to_nul(buf@)),
{
    let mut bytes: Vec<u8> = Vec::new();
    let mut i: usize = 0;
    assert(buf@.skip(0) =~= buf@);
    assert(bytes@ + up_to_nul(buf@) =~= up_to_nul(buf@));
    while i < buf.len() && buf[i] != 0
        invariant
            i <= buf.len(),
            up_to_nul(buf@) == bytes@ + up_to_nul(buf@.skip(i as int)),
        decreases buf.len() - i,
    {
        let ghost rest = buf@.skip(i as int);
        let ghost before = bytes@;
        assert(rest[0] == buf@[i as int]);
        assert(rest.skip(1) =~= buf@.skip(i + 1));
        let c: i8 = buf[i];
        let b: u8 = if c < 0 {
            (c as i16 + 256) as u8
        } else {
            c as u8
        };
        bytes.push(b);
        assert(before + up_to_nul(rest) =~= bytes@ + up_to_nul(rest.skip(1)));
        i = i + 1;
    }
    proof {
        if i < buf.len() {
            assert(buf@.skip(i as int)[0] == buf@[i as int]);
        }
        assert(bytes@ =~= up_to_nul(buf@));
    }
    lossy(bytes.as_slice())
}

/// The frame for an address of which a debugger told what it knows.
pub fn symbol_frame(
    ip: u64,
    function: Option<String>,
    module: Option<String>,
    file: Option<String>,
    line: Option<u32>,
) -> (r: Frame)
    ensures
        r@ == (FrameView {
            raw: match opt_text(function) {
                Some(name) => name,
                None => address_text(ip),
            },
            function: opt_text(function),
            file: opt_text(file),
            line,
            module: opt_text(module),
            address: Some(ip),
        }),
{
    let raw = match &function {
        Some(name) => name.clone(),
        None => {
            let mut text: String = "0x".to_owned();
            push_hexadecimal(&mut text, ip);
            text
        },
    };
    Frame { raw, function, file, line, module, address: Some(ip) }
}

/// The name of a process under `/proc`; `0` stands for the reader itself.
pub open spec fn proc_path(pid: u32, tail: Seq<char>) -> Seq<char> {
    "/proc/"@ + (if pid == 0 {
        "self"@
    } else {
        decimal(pid as nat)
    }) + tail
}

/// The path of the memory map of a process.
pub fn maps_path(pid: u32) -> (r: String)
    ensures
        r@ == proc_path(pid, "/maps"@),
{
    let mut out: String = "/proc/".to_owned();
    if pid == 0 {
        out.push_str("self");
    } else {
        push_decimal(&mut out, pid as u64);
    }
    out.push_str("/maps");
    out
}

/// The directory with the threads of a process.
pub open spec fn task_path(pid: u32) -> Seq<char> {
    "/proc/"@ + decimal(pid as nat) + "/task"@
}

/// The directory with the threads of a process.
pub fn task_dir(pid: u32) -> (r: String)
    ensures
        r@ == task_path(pid),
{
    let mut out: String = "/proc/".to_owned();
    push_decimal(&mut out, pid as u64);
    out.push_str("/task");
    out
}

/// The error for a process whose threads cannot be listed.
pub fn threads_unreadable(pid: u32, error: &str) -> (r: ProfcastError)
    ensures
        r@ == ErrorView::Capture(
            "cannot read threads of process "@ + decimal(pid as nat) + " ("@ + task_path(pid)
                + "): "@ + error@,
        ),
{
    let mut text: String = "cannot read threads of process ".to_owned();
    push_decimal(&mut text, pid as u64);
    text.push_str(" (");
    text.push_str(task_dir(pid).as_str());
    text.push_str("): ");
    text.push_str(error);
    ProfcastError::Capture(text)
}

/// The thread ids among the names in a directory of threads.
pub open spec fn ids_in(names: Seq<Seq<char>>) -> Seq<u64>
    decreases names.len(),
{
    if names.len() == 0 {
        Seq::empty()
    } else {
        let rest = ids_in(names.drop_last());
        match read_unsigned(names.last(), false, u32::MAX as nat) {
            Some(tid) => rest.push(tid as u64),
            None => rest,
        }
    }
}

/// Whether `sorted` is `list` in ascending order.
pub open spec fn ascending(list: Seq<u64>, sorted: Seq<u32>) -> bool {
    exists|order: Seq<usize>|
        #![trigger orders(list, order, 0, list.len() as int)]
        orders(list, order, 0, list.len() as int) && sorted == Seq::new(
            order.len(),
            |i: int| list[order[i] as int] as u32,
        )
}

/// Picks the thread ids out of the names in a directory of threads, in
/// ascending order. What is not a number is skipped; a process without any
/// readable thread is an error.
pub fn thread_ids(pid: u32, names: &Vec<String>) -> (r: Result<Vec<u32>>)
    ensures
        match r {
            Ok(tids) => ids_in(texts(names@)).len() > 0 && ascending(
                ids_in(texts(names@)),
                tids@,
            ),
            Err(error) => {
                &&& ids_in(texts(names@)).len() == 0
                &&& error@ == ErrorView::Capture(
                    "process "@ + decimal(pid as nat) + " has no readable threads"@,
                )
            },
        },
{
    let ghost all = texts(names@);
    let mut tids: Vec<u64> = Vec::new();
    let mut i: usize = 0;
    assert(all.take(0) =~= Seq::empty());
    while i < names.len()
        invariant
            i <= names.len(),
            all == texts(names@),
            tids@ == ids_in(all.take(i as int)),
            forall|j: int| 0 <= j < tids.len() ==> #[trigger] tids@[j] <= u32::MAX,
        decreases names.len() - i,
    {
        assert(all.take(i + 1).drop_last() =~= all.take(i as int));
        assert(all.take(i + 1).last() == names@[i as int]@);
        let chars = chars_of(names[i].as_str());
        if let Some(tid) = parse_unsigned(chars.as_slice(), false, 0xffff_ffff) {
            tids.push(tid);
        }
        i = i + 1;
    }
    assert(all.take(i as int) =~= all);
    if tids.len() == 0 {
        let mut text: String = "process ".to_owned();
        push_decimal(&mut text, pid as u64);
        text.push_str(" has no readable threads");
        return Err(ProfcastError::Capture(text));
    }
    let order = stable_order(&tids);
    let mut sorted: Vec<u32> = Vec::new();
    for k in 0..order.len()
        invariant
            orders(tids@, order@, 0, tids@.len() as int),
            forall|j: int| 0 <= j < tids.len() ==> #[trigger] tids@[j] <= u32::MAX,
            sorted.len() == k,
            forall|j: int| 0 <= j < k ==> #[trigger] sorted@[j] == tids@[order@[j] as int] as u32,
    {
        sorted.push(tids[order[k]] as u32);
    }
    proof {
        assert(sorted@ =~= Seq::new(order@.len(), |i: int| tids@[order@[i] as int] as u32));
        assert(orders(tids@, order@, 0, tids@.len() as int));
    }
    Ok(sorted)
}

/// Accepts that sampling events could be opened for some of the threads of a
/// process; threads that vanish before that are no error, but none left is.
pub fn check_opened(pid: u32, opened: usize) -> (r: Result<()>)
    ensures
        outcome(r) == (if opened == 0 {
            Err(
                ErrorView::Capture(
                    "could not open any sampling events for process "@ + decimal(pid as nat),
                ),
            )
        } else {
            Ok(())
        }),
{
    if opened == 0 {
        let mut text: String = "could not open any sampling events for process ".to_owned();
        push_decimal(&mut text, pid as u64);
        return Err(ProfcastError::Capture(text));
    }
    Ok(())
}

/// Why a program cannot be launched, if so: an argument holds a NUL, or there
/// is no program.
pub open spec fn launch_fault(argv: Seq<Seq<char>>) -> Option<Seq<char>> {
    if exists|i: int| 0 <= i < argv.len() && (#[trigger] argv[i]).contains('\0') {
        Some("command contains an interior NUL byte"@)
    } else if argv.len() == 0 {
        Some("empty command: no program to launch"@)
    } else {
        None
    }
}

/// Checks that a program and its arguments can be handed to the system.
pub fn check_command(argv: &[String]) -> (r: Result<()>)
    ensures
        outcome(r) == (match launch_fault(texts(argv@)) {
            Some(text) => Err(ErrorView::Capture(text)),
            None => Ok(()),
        }),
{
    let ghost all = texts(argv@);
    let mut i: usize = 0;
    while i < argv.len()
        invariant
            i <= argv.len(),
            all == texts(argv@),
            forall|j: int| 0 <= j < i ==> !(#[trigger] all[j]).contains('\0'),
        decreases argv.len() - i,
    {
        let chars = chars_of(argv[i].as_str());
        assert(all[i as int] == chars@);
        let mut k: usize = 0;
        while k < chars.len()
            invariant
                k <= chars.len(),
                i < all.len(),
                all[i as int] == chars@,
                all == texts(argv@),
                forall|j: int| 0 <= j < k ==> chars@[j] != '\0',
            decreases chars.len() - k,
        {
            if chars[k] == '\0' {
                assert(all[i as int][k as int] == '\0');
                assert(all[i as int].contains('\0'));
                return Err(
                    ProfcastError::Capture("command contains an interior NUL byte".to_owned()),
                );
            }
            k = k + 1;
        }
        i = i + 1;
    }
    if argv.len() == 0 {
        return Err(ProfcastError::Capture("empty command: no program to launch".to_owned()));
    }
    Ok(())
}

/// Whether a launched child has exited, where `reaped` is whether that was
/// noticed before, and `polled` is what a wait without blocking returned: `0`
/// while the child is still running.
pub fn child_has_exited(reaped: bool, polled: i32) -> (r: bool)
    ensures
        r == (reaped || polled != 0),
{
    reaped || polled != 0
}

} // verus!

//! What messages say: the texts of faults and failures.

use vstd::prelude::*;

use crate::chrometrace::{cycle_message, stack_message, unknown_message};
use crate::conformance::invalid_complaint;
use crate::error::ErrorView;
use crate::folded::valueless_message;
use crate::json::{length_text, missing_text, range_text};
use crate::model::{arity_message, dangling_message};
use crate::number::{decimal, decimal_int};
use crate::pprof::{
    negative_message, range_message, sample_arity_message, undecodable, unknown_location_message,
};
use crate::proto_faults::{
    field_step, key_step, kind_reason, message_step, number_step, profile_fault, slot_at, text_step,
    FaultView, Part, Slot,
};
use crate::ring::thread_failure;
use crate::session::{launch_fault, proc_path, task_path};
use crate::speedscope::missing_value_message;
use crate::transcode::FailureView;
use crate::wire::{law_varint_reads_back, write_varint};

verus! {

/// What is said of a sample that does not fit its profile names the sample, what
/// it has, and what the profile has.
pub proof fn law_faults_of_samples_name_both_sides(index: nat, has: nat, due: nat, kind: Seq<char>)
    ensures
        arity_message(index, has, due) == "sample "@ + decimal(index) + " has "@ + decimal(has)
            + " values but the profile declares "@ + decimal(due) + " value kinds"@,
        dangling_message(index, has, due) == "sample "@ + decimal(index)
            + " references frame id "@ + decimal(has) + " but only "@ + decimal(due)
            + " frames are interned"@,
        sample_arity_message(has, due) == "sample has "@ + decimal(has)
            + " values but the profile declares "@ + decimal(due) + " value kinds"@,
        stack_message(has, due) == "sample references frame id "@ + decimal(has) + " but only "@
            + decimal(due) + " frames are interned"@,
        valueless_message(index) == "sample "@ + decimal(index)
            + " has no value to emit as a folded count"@,
        missing_value_message(index, has, kind) == "sample "@ + decimal(index)
            + " has no value for series "@ + decimal(has) + " ('"@ + kind + "')"@,
{
}

/// What is said of an index or an id that leads nowhere names it.
pub proof fn law_faults_of_references_name_them(n: int, count: nat, id: Seq<char>)
    ensures
        negative_message(n) == "negative string index "@ + decimal_int(n),
        range_message(n, count) == "string index "@ + decimal_int(n) + " out of range ("@ + decimal(
            count,
        ) + " entries)"@,
        unknown_location_message(count) == "sample references unknown location id "@ + decimal(
            count,
        ),
        unknown_message(id) == "sample references unknown stack frame id '"@ + id + "'"@,
        cycle_message(id, count) == "stack frame chain from '"@ + id + "' exceeds "@ + decimal(
            count,
        ) + " frames (parent cycle?)"@,
{
}

/// What is said of JSON that is of the wrong size or range, or lacks a field.
pub proof fn law_faults_of_json_name_what_was_due(n: nat, due: Seq<char>)
    ensures
        range_text(n, due) == "invalid value: integer `"@ + decimal(n) + "`, expected "@ + due,
        length_text(n, due) == "invalid length "@ + decimal(n) + ", expected "@ + due,
        missing_text(due) == "missing field `"@ + due + "`"@,
{
}

/// What is said of a session's failures, and the paths that it reads.
pub proof fn law_sessions_name_threads_and_paths(
    op: Seq<char>,
    tid: nat,
    error: Seq<char>,
    pid: u32,
    tail: Seq<char>,
)
    ensures
        thread_failure(op, tid, error, false) == op + " failed for thread "@ + decimal(tid) + ": "@
            + error,
        thread_failure(op, tid, error, true) == op + " failed for thread "@ + decimal(tid) + ": "@
            + error
            + " (try lowering /proc/sys/kernel/perf_event_paranoid, or run with more privileges)"@,
        proc_path(0, tail) == "/proc/self"@ + tail,
        pid > 0 ==> proc_path(pid, tail) == "/proc/"@ + decimal(pid as nat) + tail,
        task_path(pid) == "/proc/"@ + decimal(pid as nat) + "/task"@,
{
    reveal_strlit("/proc/");
    reveal_strlit("self");
    reveal_strlit("/proc/self");
    assert("/proc/"@ + "self"@ =~= "/proc/self"@);
    let text = op + " failed for thread "@ + decimal(tid) + ": "@ + error;
    assert(text + Seq::empty() =~= text);
}

/// A program can be launched where there is one and no argument holds a NUL. A
/// NUL is told first.
pub proof fn law_programs_are_checked_before_launch(argv: Seq<Seq<char>>, i: int, k: int)
    ensures
        0 <= i < argv.len() && 0 <= k < argv[i].len() && argv[i][k] == '\0' ==> launch_fault(argv)
            == Some("command contains an interior NUL byte"@),
        launch_fault(Seq::empty()) == Some("empty command: no program to launch"@),
        argv.len() > 0 && (forall|j: int|
            0 <= j < argv.len() ==> !(#[trigger] argv[j]).contains('\0')) ==> launch_fault(
            argv,
        ) is None,
{
    if 0 <= i < argv.len() && 0 <= k < argv[i].len() && argv[i][k] == '\0' {
        assert(argv[i].contains('\0'));
    }
}

/// What is said of a request that failed names the format or the source that it
/// failed for.
pub proof fn law_failures_name_what_failed(name: Seq<char>, error: ErrorView)
    ensures
        FailureView::UnknownInput(name).message() == "unknown input format '"@ + name + "'"@,
        FailureView::Undetected.message()
            == "could not detect input format; specify it with --from"@,
        (FailureView::Unreadable { format: name, error }).message()
            == "failed to parse input as '"@ + name + "'"@,
        FailureView::UnknownOutput(name).message() == "unknown output format '"@ + name + "'"@,
        FailureView::NoDefaultOutput.message()
            == "default output format 'json' is not registered"@,
        (FailureView::Unwritable { format: name, error }).message()
            == "failed to encode profile as '"@ + name + "'"@,
        FailureView::NoJson.message() == "json output format is not registered"@,
        FailureView::Unserialized(error).message() == "failed to serialize profile"@,
        FailureView::BadCommandLine.message() == "could not parse --program command line"@,
        FailureView::NoTarget.message()
            == "choose a target: --pid <PID>, --self, or --program \"<cmd>\""@,
        FailureView::UnknownSource(name).message() == "unknown capture source '"@ + name + "'"@,
        FailureView::NoSource.message() == "no capture backend is available on this platform"@,
        FailureView::Unavailable(name).message() == "capture source '"@ + name
            + "' is not available on this host (check permissions / platform support)"@,
        (FailureView::Uncaptured { source: name, error }).message() == "capture with '"@ + name
            + "' failed"@,
        error.detail() matches Some(text) ==> invalid_complaint(name, error) == "format '"@ + name
            + "' produced an invalid profile: "@ + error.prefix() + text,
{
}

/// A key is refused where it is too large for one, where its kind is none, and
/// where its number is zero. Else it is a number and a kind.
pub proof fn law_keys_are_refused_for_a_reason(key: u64, rest: Seq<u8>)
    ensures
        ({
            let bytes = write_varint(key as nat) + rest;
            &&& key > u32::MAX ==> key_step(bytes) == Err::<(nat, nat, Seq<u8>), Seq<char>>(
                "invalid key value: "@ + decimal(key as nat),
            )
            &&& key <= u32::MAX && key % 8 > 5 ==> key_step(bytes) == Err::<
                (nat, nat, Seq<u8>),
                Seq<char>,
            >("invalid wire type value: "@ + decimal((key % 8) as nat))
            &&& key % 8 <= 5 && key < 8 ==> key_step(bytes) == Err::<
                (nat, nat, Seq<u8>),
                Seq<char>,
            >("invalid tag value: 0"@)
            &&& 8 <= key <= u32::MAX && key % 8 <= 5 ==> key_step(bytes) == Ok::<
                (nat, nat, Seq<u8>),
                Seq<char>,
            >(((key / 8) as nat, (key % 8) as nat, rest))
        }),
{
    law_varint_reads_back(key, rest);
    let bytes = write_varint(key as nat) + rest;
    assert(bytes.skip(write_varint(key as nat).len() as int) =~= rest);
}

/// A field of the wrong kind is told with the kind that it has and the kind that
/// is due, and with the names of the message and the field that it is in.
pub proof fn law_wrong_kinds_are_told_with_their_field(rest: Seq<u8>, depth: nat)
    ensures
        kind_reason(2, 0) == "invalid wire type: "@ + "LengthDelimited"@ + " (expected "@
            + "Varint"@ + ")"@,
        kind_reason(1, 2) == "invalid wire type: "@ + "SixtyFourBit"@ + " (expected "@
            + "LengthDelimited"@ + ")"@,
        kind_reason(5, 0) == "invalid wire type: "@ + "ThirtyTwoBit"@ + " (expected "@ + "Varint"@
            + ")"@,
        number_step(2, rest) == Err::<Seq<u8>, Seq<char>>(kind_reason(2, 0)),
        text_step(0, rest) == Err::<Seq<u8>, Seq<char>>(kind_reason(0, 2)),
        field_step(Part::Function, 2, 2, rest, depth) == Err::<Seq<u8>, FaultView>(
            FaultView {
                path: Seq::<char>::empty() + "Function"@ + "."@ + "name"@ + ": "@,
                reason: kind_reason(2, 0),
            },
        ),
{
}

/// The names of the fields of a message, and what each holds.
pub proof fn law_fields_have_their_names(tag: nat)
    ensures
        slot_at(Part::Profile, 1) == Some(("sample_type"@, Slot::Nested(Part::ValueType))),
        slot_at(Part::Profile, 2) == Some(("sample"@, Slot::Nested(Part::Sample))),
        slot_at(Part::Profile, 3) == Some(("mapping"@, Slot::Nested(Part::Mapping))),
        slot_at(Part::Profile, 4) == Some(("location"@, Slot::Nested(Part::Location))),
        slot_at(Part::Profile, 5) == Some(("function"@, Slot::Nested(Part::Function))),
        slot_at(Part::Profile, 6) == Some(("string_table"@, Slot::Text)),
        slot_at(Part::Profile, 7) == Some(("drop_frames"@, Slot::Varint)),
        slot_at(Part::Profile, 8) == Some(("keep_frames"@, Slot::Varint)),
        slot_at(Part::Profile, 9) == Some(("time_nanos"@, Slot::Varint)),
        slot_at(Part::Profile, 10) == Some(("duration_nanos"@, Slot::Varint)),
        slot_at(Part::Profile, 11) == Some(("period_type"@, Slot::Nested(Part::ValueType))),
        slot_at(Part::Profile, 12) == Some(("period"@, Slot::Varint)),
        slot_at(Part::Profile, 13) == Some(("comment"@, Slot::Packed)),
        slot_at(Part::Profile, 14) == Some(("default_sample_type"@, Slot::Varint)),
        slot_at(Part::Profile, 15) == Some(("doc_url"@, Slot::Varint)),
        tag == 0 || tag > 15 ==> slot_at(Part::Profile, tag) is None,
        slot_at(Part::ValueType, 1) == Some(("r#type"@, Slot::Varint)),
        slot_at(Part::ValueType, 2) == Some(("unit"@, Slot::Varint)),
        tag == 0 || tag > 2 ==> slot_at(Part::ValueType, tag) is None,
        slot_at(Part::Sample, 1) == Some(("location_id"@, Slot::Packed)),
        slot_at(Part::Sample, 2) == Some(("value"@, Slot::Packed)),
        slot_at(Part::Sample, 3) == Some(("label"@, Slot::Nested(Part::Label))),
        tag == 0 || tag > 3 ==> slot_at(Part::Sample, tag) is None,
        slot_at(Part::Label, 1) == Some(("key"@, Slot::Varint)),
        slot_at(Part::Label, 2) == Some(("str"@, Slot::Varint)),
        slot_at(Part::Label, 3) == Some(("num"@, Slot::Varint)),
        slot_at(Part::Label, 4) == Some(("num_unit"@, Slot::Varint)),
        tag == 0 || tag > 4 ==> slot_at(Part::Label, tag) is None,
        slot_at(Part::Mapping, 1) == Some(("id"@, Slot::Varint)),
        slot_at(Part::Mapping, 2) == Some(("memory_start"@, Slot::Varint)),
        slot_at(Part::Mapping, 3) == Some(("memory_limit"@, Slot::Varint)),
        slot_at(Part::Mapping, 4) == Some(("file_offset"@, Slot::Varint)),
        slot_at(Part::Mapping, 5) == Some(("filename"@, Slot::Varint)),
        slot_at(Part::Mapping, 6) == Some(("build_id"@, Slot::Varint)),
        slot_at(Part::Mapping, 7) == Some(("has_functions"@, Slot::Varint)),
        slot_at(Part::Mapping, 8) == Some(("has_filenames"@, Slot::Varint)),
        slot_at(Part::Mapping, 9) == Some(("has_line_numbers"@, Slot::Varint)),
        slot_at(Part::Mapping, 10) == Some(("has_inline_frames"@, Slot::Varint)),
        tag == 0 || tag > 10 ==> slot_at(Part::Mapping, tag) is None,
        slot_at(Part::Location, 1) == Some(("id"@, Slot::Varint)),
        slot_at(Part::Location, 2) == Some(("mapping_id"@, Slot::Varint)),
        slot_at(Part::Location, 3) == Some(("address"@, Slot::Varint)),
        slot_at(Part::Location, 4) == Some(("line"@, Slot::Nested(Part::Line))),
        slot_at(Part::Location, 5) == Some(("is_folded"@, Slot::Varint)),
        tag == 0 || tag > 5 ==> slot_at(Part::Location, tag) is None,
        slot_at(Part::Line, 1) == Some(("function_id"@, Slot::Varint)),
        slot_at(Part::Line, 2) == Some(("line"@, Slot::Varint)),
        slot_at(Part::Line, 3) == Some(("column"@, Slot::Varint)),
        tag == 0 || tag > 3 ==> slot_at(Part::Line, tag) is None,
        slot_at(Part::Function, 1) == Some(("id"@, Slot::Varint)),
        slot_at(Part::Function, 2) == Some(("name"@, Slot::Varint)),
        slot_at(Part::Function, 3) == Some(("system_name"@, Slot::Varint)),
        slot_at(Part::Function, 4) == Some(("filename"@, Slot::Varint)),
        slot_at(Part::Function, 5) == Some(("start_line"@, Slot::Varint)),
        tag == 0 || tag > 5 ==> slot_at(Part::Function, tag) is None,
{
}

/// Bytes that are no message are answered with a decode error, which says where
/// the fault is and what it is.
pub proof fn law_undecodable_bytes_are_told_why(bytes: Seq<u8>)
    ensures
        undecodable(bytes) == ErrorView::Decode(
            "invalid pprof protobuf: failed to decode Protobuf message: "@ + profile_fault(bytes),
        ),
        message_step(Part::Profile, bytes, 0, 100) matches Err(fault) ==> profile_fault(bytes)
            == fault.path + fault.reason,
{
}

} // verus!

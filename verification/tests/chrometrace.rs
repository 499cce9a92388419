//! The Chrome trace-event format.

use profcast::chrometrace::{frame_name, ChromeTraceFormat, StackTrie};
use profcast::error::ProfcastError;
use profcast::format::{Confidence, InputFormat, OutputFormat, ProbeData, WriteOptions};
use profcast::model::{Frame, FrameId, Profile, Sample, ValueKind};
use serde_json::Value;

/// Resolves a sample's stack to the display names of its frames, root-first.
fn stack_names(profile: &Profile, sample: usize) -> Vec<String> {
    profile.samples[sample]
        .stack
        .iter()
        .map(|frame_id| frame_name(&profile.frame_intern[frame_id.0 as usize]))
        .collect()
}

const OBJECT_TRACE: &str = r#"{
    "traceEvents": [],
    "displayTimeUnit": "ns",
    "stackFrames": {
        "1": {"name": "main", "category": "app"},
        "2": {"name": "work", "parent": "1"},
        "3": {"name": "leaf", "parent": "2"}
    },
    "samples": [
        {"tid": 0, "ts": 0, "sf": "3", "weight": 5},
        {"tid": 0, "ts": 1, "sf": "2"}
    ]
}"#;

#[test]
fn reads_object_format_and_orders_stacks_root_first() {
    let profile = ChromeTraceFormat.read(OBJECT_TRACE.as_bytes()).unwrap();
    assert_eq!(profile.samples.len(), 2);
    assert_eq!(stack_names(&profile, 0), ["main", "work", "leaf"]);
    assert_eq!(profile.samples[0].values, vec![5]);
    // The second sample's leaf is `work`, so its stack stops there.
    assert_eq!(stack_names(&profile, 1), ["main", "work"]);
}

#[test]
fn missing_weight_defaults_to_one() {
    let profile = ChromeTraceFormat.read(OBJECT_TRACE.as_bytes()).unwrap();
    assert_eq!(profile.samples[1].values, vec![1]);
}

#[test]
fn interns_frames_by_name_and_category() {
    let profile = ChromeTraceFormat.read(OBJECT_TRACE.as_bytes()).unwrap();
    // main, work, leaf - each distinct, none duplicated despite many ids.
    assert_eq!(profile.frame_intern.len(), 3);
    let main = profile
        .frame_intern
        .iter()
        .find(|frame| frame.raw == "main")
        .unwrap();
    assert_eq!(main.module.as_deref(), Some("app"));
    assert_eq!(main.function.as_deref(), Some("main"));
}

#[test]
fn reads_inline_p_sample_events() {
    let trace = r#"{
        "stackFrames": {"7": {"name": "f"}},
        "traceEvents": [
            {"ph": "P", "sf": "7", "weight": 3},
            {"ph": "X", "name": "ignored", "dur": 10}
        ]
    }"#;
    let profile = ChromeTraceFormat.read(trace.as_bytes()).unwrap();
    assert_eq!(profile.samples.len(), 1);
    assert_eq!(stack_names(&profile, 0), ["f"]);
    assert_eq!(profile.samples[0].values, vec![3]);
}

#[test]
fn accepts_numeric_frame_ids() {
    // `sf`/`parent` given as numbers rather than strings.
    let trace = r#"{
        "stackFrames": {"1": {"name": "root"}, "2": {"name": "child", "parent": 1}},
        "samples": [{"sf": 2, "weight": 4}]
    }"#;
    let profile = ChromeTraceFormat.read(trace.as_bytes()).unwrap();
    assert_eq!(stack_names(&profile, 0), ["root", "child"]);
}

#[test]
fn rejects_unknown_stack_frame_id() {
    let trace = r#"{"stackFrames": {}, "samples": [{"sf": "9"}]}"#;
    let error = ChromeTraceFormat.read(trace.as_bytes()).unwrap_err();
    assert!(matches!(error, ProfcastError::Decode(_)));
}

#[test]
fn rejects_parent_cycle() {
    let trace = r#"{
        "stackFrames": {"1": {"name": "a", "parent": "2"}, "2": {"name": "b", "parent": "1"}},
        "samples": [{"sf": "1"}]
    }"#;
    let error = ChromeTraceFormat.read(trace.as_bytes()).unwrap_err();
    assert!(matches!(error, ProfcastError::Decode(_)));
}

#[test]
fn empty_trace_reads_as_empty_profile() {
    let profile = ChromeTraceFormat.read(b"{}").unwrap();
    assert!(profile.samples.is_empty());
    assert!(profile.validate().is_ok());
}

#[test]
fn rejects_non_object_non_array_top_level() {
    let error = ChromeTraceFormat.read(b"42").unwrap_err();
    assert!(matches!(error, ProfcastError::Decode(_)));
}

fn sample_profile() -> Profile {
    Profile {
        frame_intern: vec![
            Frame {
                function: Some("main".to_owned()),
                module: Some("app".to_owned()),
                ..Frame::default()
            },
            Frame {
                function: Some("work".to_owned()),
                ..Frame::default()
            },
        ],
        samples: vec![
            Sample {
                stack: vec![FrameId(0), FrameId(1)],
                values: vec![10],
            },
            Sample {
                stack: vec![FrameId(0)],
                values: vec![5],
            },
        ],
        value_kinds: vec![ValueKind {
            kind: "samples".to_owned(),
            unit: "count".to_owned(),
        }],
    }
}

fn write_value(profile: &Profile) -> Value {
    let bytes = ChromeTraceFormat
        .write(profile, WriteOptions::default())
        .unwrap();
    serde_json::from_slice(&bytes).unwrap()
}

#[test]
fn writes_shared_prefix_as_one_trie() {
    let value = write_value(&sample_profile());
    let frames = value["stackFrames"].as_object().unwrap();
    // `main` (shared root) + `work` = two nodes, not three.
    assert_eq!(frames.len(), 2);
    // The two samples reference the leaf and the shared root respectively.
    let samples = value["samples"].as_array().unwrap();
    assert_eq!(samples.len(), 2);
    assert_eq!(samples[0]["weight"], 10);
    assert_eq!(samples[1]["weight"], 5);
}

#[test]
fn write_links_children_to_parents() {
    let value = write_value(&sample_profile());
    let frames = value["stackFrames"].as_object().unwrap();
    // Find the `work` node and confirm its parent is the `main` node.
    let (work_id, work) = frames
        .iter()
        .find(|(_, frame)| frame["name"] == "work")
        .unwrap();
    let parent_id = work["parent"].as_str().unwrap();
    assert_eq!(frames[parent_id]["name"], "main");
    // The deeper sample points at the `work` node.
    let samples = value["samples"].as_array().unwrap();
    assert_eq!(samples[0]["sf"].as_str().unwrap(), work_id);
}

#[test]
fn round_trips_through_chrome_trace() {
    let original = sample_profile();
    let bytes = ChromeTraceFormat
        .write(&original, WriteOptions::default())
        .unwrap();
    let reparsed = ChromeTraceFormat.read(&bytes).unwrap();

    assert_eq!(reparsed.samples.len(), original.samples.len());
    assert_eq!(stack_names(&reparsed, 0), ["main", "work"]);
    assert_eq!(reparsed.samples[0].values, vec![10]);
    assert_eq!(stack_names(&reparsed, 1), ["main"]);
    assert_eq!(reparsed.samples[1].values, vec![5]);
    // Category survives the round trip via Frame::module.
    let main = reparsed
        .frame_intern
        .iter()
        .find(|frame| frame_name(frame) == "main")
        .unwrap();
    assert_eq!(main.module.as_deref(), Some("app"));
}

#[test]
fn chrometrace_write_rejects_dangling_frame_id() {
    let profile = Profile {
        frame_intern: vec![Frame::default()],
        samples: vec![Sample {
            stack: vec![FrameId(7)],
            values: vec![1],
        }],
        value_kinds: vec![ValueKind {
            kind: "samples".to_owned(),
            unit: "count".to_owned(),
        }],
    };
    let error = ChromeTraceFormat
        .write(&profile, WriteOptions::default())
        .unwrap_err();
    assert!(matches!(error, ProfcastError::InvalidProfile(_)));
}

#[test]
fn chrometrace_pretty_is_multiline_compact_is_not() {
    let profile = sample_profile();
    let pretty = ChromeTraceFormat
        .write(&profile, WriteOptions { pretty: true })
        .unwrap();
    let compact = ChromeTraceFormat
        .write(&profile, WriteOptions { pretty: false })
        .unwrap();
    assert!(pretty.contains(&b'\n'));
    assert!(!compact.contains(&b'\n'));
}

#[test]
fn probe_recognizes_stack_frames() {
    let data = ProbeData {
        filename: None,
        buf: OBJECT_TRACE.as_bytes(),
    };
    assert_eq!(ChromeTraceFormat.probe(&data), Confidence::Likely);
}

#[test]
fn probe_is_weak_for_duration_only_trace() {
    let data = ProbeData {
        filename: None,
        buf: br#"{"traceEvents": [{"ph": "X", "dur": 5}]}"#,
    };
    assert_eq!(ChromeTraceFormat.probe(&data), Confidence::Weak);
}

#[test]
fn probe_rejects_unrelated_json() {
    let data = ProbeData {
        filename: None,
        buf: br#"{"hello": "world"}"#,
    };
    assert_eq!(ChromeTraceFormat.probe(&data), Confidence::NoMatch);
}

#[test]
fn advertises_chrometrace_name() {
    assert_eq!(InputFormat::name(&ChromeTraceFormat), "chrometrace");
    assert_eq!(OutputFormat::name(&ChromeTraceFormat), "chrometrace");
}

#[test]
fn empty_modules_name_nothing() {
    let mut frame = Frame { module: Some(String::new()), ..Frame::default() };
    assert_eq!(frame_name(&frame), "unknown");
    frame.address = Some(0x20);
    assert_eq!(frame_name(&frame), "0x20");
}

#[test]
fn leaf_ids_tell_stacks_apart() {
    let ids = |list: &[u32]| list.iter().map(|&id| FrameId(id)).collect::<Vec<FrameId>>();
    let mut trie = StackTrie::new();
    let deep = trie.intern_path(&ids(&[0, 1, 2]), 3).unwrap();
    let other = trie.intern_path(&ids(&[1, 2]), 3).unwrap();
    assert_eq!(trie.intern_path(&ids(&[]), 3).unwrap(), None);
    assert!(deep.is_some() && other.is_some() && deep != other);
    assert_eq!(trie.intern_path(&ids(&[0, 1, 2]), 3).unwrap(), deep);
    // A stack that starts another adds nothing, so the next new node is the
    // sixth.
    assert_eq!(trie.intern_path(&ids(&[0, 1]), 3).unwrap(), Some(1));
    assert_eq!(trie.intern_path(&ids(&[2]), 3).unwrap(), Some(5));
    let error = trie.intern_path(&ids(&[2, 3]), 3).unwrap_err();
    assert!(matches!(error, ProfcastError::InvalidProfile(_)));
}

fn refusal(input: &str) -> String {
    ChromeTraceFormat.read(input.as_bytes()).unwrap_err().message()
}

#[test]
fn refusals_name_the_entry_at_fault() {
    let cases = [
        ("{\"stackFrames\": []}", "invalid type: sequence, expected a map"),
        ("{\"stackFrames\": null}", "invalid type: null, expected a map"),
        ("{\"stackFrames\": {\"1\": {}}}", "missing field `name`"),
        (
            "{\"stackFrames\": {\"1\": {\"name\": 3}}}",
            "invalid type: integer `3`, expected a string",
        ),
        (
            "{\"stackFrames\": {\"1\": []}}",
            "invalid length 0, expected struct RawStackFrame with 3 elements",
        ),
        (
            "{\"stackFrames\": {\"1\": \"x\"}}",
            "invalid type: string \"x\", expected struct RawStackFrame",
        ),
        ("{\"samples\": {}}", "invalid type: map, expected a sequence"),
        (
            "{\"samples\": [{\"sf\": true}]}",
            "data did not match any variant of untagged enum FrameRef",
        ),
        (
            "{\"samples\": [{\"weight\": 18446744073709551615}]}",
            "invalid value: integer `18446744073709551615`, expected i64",
        ),
        (
            "{\"samples\": [{\"weight\": 1.5}]}",
            "invalid type: floating point `1.5`, expected i64",
        ),
        (
            "{\"samples\": [{\"weight\": false}], \"stackFrames\": 1}",
            "invalid type: boolean `false`, expected i64",
        ),
        ("[{\"ph\": null}, -3]", "invalid type: integer `-3`, expected struct RawEvent"),
        (
            "{\"traceEvents\": [[\"P\", \"1\", 1, 2]]}",
            "invalid length 4, expected fewer elements in array",
        ),
    ];
    for (input, reason) in cases {
        assert_eq!(refusal(input), format!("JSON error: {reason}"));
    }
}

#[test]
fn refusals_are_those_of_the_json_reader() {
    let weight = |text: &str| {
        let value: Value = serde_json::from_str(text).unwrap();
        let error = serde_json::from_value::<Option<i64>>(value).unwrap_err();
        let input = format!("{{\"samples\": [{{\"weight\": {text}}}]}}");
        assert_eq!(refusal(&input), format!("JSON error: {error}"));
    };
    weight("18446744073709551615");
    weight("1.5");
    weight("\"a \\n at line 3 column 4\"");
    weight("[1]");
    let name = |text: &str| {
        let value: Value = serde_json::from_str(text).unwrap();
        let error = serde_json::from_value::<String>(value).unwrap_err();
        let input = format!("{{\"stackFrames\": {{\"1\": {{\"name\": {text}}}}}}}");
        assert_eq!(refusal(&input), format!("JSON error: {error}"));
    };
    name("null");
    name("true");
    name("-7");
    name("1e300");
    name("{\"a\": 1}");
}

#[test]
fn only_cycles_are_told_as_cycles() {
    let loops = "{\"stackFrames\": {\"1\": {\"name\": \"a\", \"parent\": \"2\"}, \"2\": {\"name\": \
                 \"b\", \"parent\": \"1\"}}, \"samples\": [{\"sf\": \"1\"}]}";
    assert!(refusal(loops).ends_with("exceeds 3 frames (parent cycle?)"));
    let broken = "{\"stackFrames\": {\"1\": {\"name\": \"a\", \"parent\": \"2\"}}, \"samples\": \
                  [{\"sf\": \"1\"}]}";
    assert!(refusal(broken).ends_with("sample references unknown stack frame id '2'"));
}

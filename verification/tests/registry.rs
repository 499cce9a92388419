//! Looking formats up, and detecting them.

use profcast::format::{Confidence, ProbeData, WriteOptions};
use profcast::model::{Frame, FrameId, Profile, Sample, ValueKind};
use profcast::registry::Registry;

#[test]
fn looks_up_builtin_by_name() {
    let registry = Registry::with_builtins();
    assert!(registry.by_name("folded").is_some());
    assert!(registry.by_name("pprof").is_some());
    assert!(registry.by_name("nonexistent").is_none());
}

#[test]
fn probes_pprof_content() {
    let profile = Profile {
        frame_intern: vec![Frame {
            function: Some("main".to_owned()),
            ..Frame::default()
        }],
        samples: vec![Sample {
            stack: vec![FrameId(0)],
            values: vec![1],
        }],
        value_kinds: vec![ValueKind {
            kind: "samples".to_owned(),
            unit: "count".to_owned(),
        }],
    };
    let registry = Registry::with_builtins();
    let bytes = registry
        .output_by_name("pprof")
        .unwrap()
        .write(&profile, WriteOptions::default())
        .unwrap();

    let matched = registry
        .probe(&ProbeData {
            filename: None,
            buf: &bytes,
        })
        .unwrap();
    assert_eq!(matched.format.name(), "pprof");
}

#[test]
fn probes_folded_content() {
    let registry = Registry::with_builtins();
    let data = ProbeData {
        filename: None,
        buf: b"a;b;c 10\n",
    };
    let matched = registry.probe(&data).unwrap();
    assert_eq!(matched.format.name(), "folded");
    assert_eq!(matched.confidence, Confidence::Likely);
}

#[test]
fn probe_returns_none_for_garbage() {
    let registry = Registry::with_builtins();
    // Newline-terminated so the line is actually judged (and rejected: the
    // trailing token "all" is not an integer count).
    let data = ProbeData {
        filename: None,
        buf: b"definitely not a folded line at all\n",
    };
    assert!(registry.probe(&data).is_none());
}

#[test]
fn empty_registry_detects_nothing() {
    let registry = Registry::new();
    assert_eq!(registry.formats().len(), 0);
    assert_eq!(registry.outputs().len(), 0);
    let data = ProbeData {
        filename: Some("x.folded"),
        buf: b"a;b 1\n",
    };
    assert!(registry.probe(&data).is_none());
}

#[test]
fn looks_up_builtin_output_by_name() {
    let registry = Registry::with_builtins();
    assert!(registry.output_by_name("json").is_some());
    assert!(registry.output_by_name("folded").is_some());
    assert!(registry.output_by_name("pprof").is_some());
    assert!(registry.output_by_name("nonexistent").is_none());
}

#[test]
fn infers_output_from_extension() {
    let registry = Registry::with_builtins();
    let json = registry.output_by_extension("json");
    assert_eq!(json.map(|format| format.name()), Some("json"));
    let folded = registry.output_by_extension("folded");
    assert_eq!(folded.map(|format| format.name()), Some("folded"));
    let collapsed = registry.output_by_extension("collapsed");
    assert_eq!(collapsed.map(|format| format.name()), Some("folded"));
    let pprof = registry.output_by_extension("pprof");
    assert_eq!(pprof.map(|format| format.name()), Some("pprof"));
    // A conventional `*.pb.gz` path surfaces only the `gz` component.
    let gz = registry.output_by_extension("gz");
    assert_eq!(gz.map(|format| format.name()), Some("pprof"));
    assert!(registry.output_by_extension("bin").is_none());
}

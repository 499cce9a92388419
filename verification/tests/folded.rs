//! The folded-stack format.

use profcast::error::ProfcastError;
use profcast::folded::{parse_frame, parse_hex_address, render_frame, FoldedFormat};
use profcast::format::{Confidence, InputFormat, OutputFormat, ProbeData, WriteOptions};
use profcast::model::{Frame, FrameId, Profile, Sample, ValueKind};

fn profile_of(input: &str) -> Profile {
    FoldedFormat.read(input.as_bytes()).unwrap()
}

#[test]
fn parses_basic_stacks() {
    let profile = profile_of("a;b;c 10\na;b 5\n");

    assert_eq!(profile.samples.len(), 2);
    assert_eq!(profile.value_kinds.len(), 1);
    assert_eq!(profile.value_kinds[0].kind, "samples");

    // `a`, `b`, `c` interned once each, in first-seen order.
    let labels: Vec<_> = profile.frame_intern.iter().map(|f| f.raw.as_str()).collect();
    assert_eq!(labels, ["a", "b", "c"]);

    assert_eq!(
        profile.samples[0].stack,
        vec![FrameId(0), FrameId(1), FrameId(2)]
    );
    assert_eq!(profile.samples[0].values, vec![10]);
    assert_eq!(profile.samples[1].stack, vec![FrameId(0), FrameId(1)]);
    assert_eq!(profile.samples[1].values, vec![5]);
}

#[test]
fn skips_comments_and_blank_lines() {
    let profile = profile_of("# a comment\n\nmain;work 3\n   \n");
    assert_eq!(profile.samples.len(), 1);
    assert_eq!(profile.samples[0].values, vec![3]);
}

#[test]
fn keeps_frames_containing_spaces() {
    let profile = profile_of("Foo::bar(int, int);baz 7\n");
    let labels: Vec<_> = profile.frame_intern.iter().map(|f| f.raw.as_str()).collect();
    assert_eq!(labels, ["Foo::bar(int, int)", "baz"]);
    assert_eq!(profile.samples[0].values, vec![7]);
}

#[test]
fn tolerates_stray_semicolons() {
    let profile = profile_of("a;;b; 4\n");
    let labels: Vec<_> = profile.frame_intern.iter().map(|f| f.raw.as_str()).collect();
    assert_eq!(labels, ["a", "b"]);
}

#[test]
fn skips_frameless_samples() {
    // py-spy emits a bare count for a sample with no frame; a `;`-only stack
    // is frameless too. Both are skipped, not rejected.
    let profile = profile_of("main;work 3\n1\n;; 2\n");
    assert_eq!(profile.samples.len(), 1);
    assert_eq!(profile.samples[0].values, vec![3]);
}

#[test]
fn bare_numbers_are_not_likely_folded() {
    // A frameless line is no positive evidence, so a column of numbers must
    // not auto-detect as folded.
    let data = ProbeData {
        filename: None,
        buf: b"1\n2\n3\n",
    };
    assert_ne!(FoldedFormat.probe(&data), Confidence::Likely);
}

#[test]
fn rejects_missing_count() {
    let err = FoldedFormat.read(b"a;b;c\n").unwrap_err();
    assert!(matches!(err, ProfcastError::Parse { line: 1, .. }));
}

#[test]
fn rejects_non_integer_count() {
    let err = FoldedFormat.read(b"a;b 1\na;c xx\n").unwrap_err();
    assert!(matches!(err, ProfcastError::Parse { line: 2, .. }));
}

#[test]
fn rejects_negative_count() {
    let err = FoldedFormat.read(b"a;b -3\n").unwrap_err();
    assert!(matches!(err, ProfcastError::Parse { line: 1, .. }));
}

#[test]
fn rejects_invalid_utf8() {
    let err = FoldedFormat.read(&[0xff, 0xfe]).unwrap_err();
    assert!(matches!(err, ProfcastError::Utf8(_)));
}

#[test]
fn probe_recognizes_grammar() {
    let data = ProbeData {
        filename: None,
        buf: b"a;b;c 10\nd;e 2\n",
    };
    assert_eq!(FoldedFormat.probe(&data), Confidence::Likely);
}

#[test]
fn probe_extension_only_for_garbage_text() {
    let data = ProbeData {
        filename: Some("profile.folded"),
        buf: b"this is not folded at all\n",
    };
    // Content is rejected, but the extension still lends weak confidence.
    assert_eq!(FoldedFormat.probe(&data), Confidence::Extension);
}

#[test]
fn probe_ignores_truncated_trailing_line() {
    // No trailing newline: the final, possibly-cut line must not be judged.
    let data = ProbeData {
        filename: None,
        buf: b"a;b;c 10\nd;e;f;g;par",
    };
    assert_eq!(FoldedFormat.probe(&data), Confidence::Likely);
}

#[test]
fn probe_empty_is_none() {
    let data = ProbeData {
        filename: None,
        buf: b"",
    };
    assert_eq!(FoldedFormat.probe(&data), Confidence::NoMatch);
}

#[test]
fn parses_python_frame_with_file_and_line() {
    let frame = parse_frame("_85encode (base64.py:304)");
    assert_eq!(frame.raw, "_85encode (base64.py:304)");
    assert_eq!(frame.function.as_deref(), Some("_85encode"));
    assert_eq!(frame.file.as_deref(), Some("base64.py"));
    assert_eq!(frame.line, Some(304));
    assert_eq!(frame.module, None);
    assert_eq!(frame.address, None);
}

#[test]
fn parses_native_frame_with_module() {
    let frame = parse_frame("BZ2_blockSort (libbz2.so.1.0.8)");
    assert_eq!(frame.function.as_deref(), Some("BZ2_blockSort"));
    assert_eq!(frame.module.as_deref(), Some("libbz2.so.1.0.8"));
    assert_eq!(frame.file, None);
    assert_eq!(frame.line, None);
    assert_eq!(frame.address, None);
}

#[test]
fn parses_hex_address_with_module() {
    let frame = parse_frame("0x7f4060475e44 (libsqlite3.so.3.51.2)");
    assert_eq!(frame.address, Some(0x7f40_6047_5e44));
    assert_eq!(frame.module.as_deref(), Some("libsqlite3.so.3.51.2"));
    assert_eq!(frame.function, None);
    assert_eq!(frame.file, None);
    assert_eq!(frame.line, None);
}

#[test]
fn keeps_signature_parens_as_function() {
    let frame = parse_frame("Foo::bar(int, int)");
    assert_eq!(frame.function.as_deref(), Some("Foo::bar(int, int)"));
    assert_eq!(frame.file, None);
    assert_eq!(frame.module, None);
    assert_eq!(frame.address, None);
}

#[test]
fn splits_module_after_a_signature() {
    let frame = parse_frame("Foo::bar(int, int) (/usr/lib/foo.so)");
    assert_eq!(frame.function.as_deref(), Some("Foo::bar(int, int)"));
    assert_eq!(frame.module.as_deref(), Some("/usr/lib/foo.so"));
    assert_eq!(frame.file, None);
}

#[test]
fn splits_file_path_with_line() {
    let frame = parse_frame("walk (/usr/lib/python3.14/ast.py:397)");
    assert_eq!(frame.function.as_deref(), Some("walk"));
    assert_eq!(frame.file.as_deref(), Some("/usr/lib/python3.14/ast.py"));
    assert_eq!(frame.line, Some(397));
}

#[test]
fn bare_symbol_is_function_only() {
    let frame = parse_frame("main");
    assert_eq!(frame.function.as_deref(), Some("main"));
    assert_eq!(frame.file, None);
    assert_eq!(frame.line, None);
    assert_eq!(frame.module, None);
    assert_eq!(frame.address, None);
}

#[test]
fn read_populates_structured_frame_fields() {
    let profile = profile_of("main (app.py:7);brk (libc.so.6) 4\n");
    let fields: Vec<_> = profile
        .frame_intern
        .iter()
        .map(|frame| {
            (
                frame.function.as_deref(),
                frame.file.as_deref(),
                frame.line,
                frame.module.as_deref(),
            )
        })
        .collect();
    assert_eq!(
        fields,
        vec![
            (Some("main"), Some("app.py"), Some(7), None),
            (Some("brk"), None, None, Some("libc.so.6")),
        ],
    );
}

fn write_string(profile: &Profile) -> String {
    let bytes = FoldedFormat
        .write(profile, WriteOptions::default())
        .unwrap();
    String::from_utf8(bytes).unwrap()
}

#[test]
fn write_round_trips_through_folded() {
    // Frames keep their `raw` label, so a parse then a write reproduces the
    // input byte for byte (frames are emitted root -> leaf, weight last).
    let input = "a;b;c 10\na;b 5\n";
    assert_eq!(write_string(&profile_of(input)), input);
}

#[test]
fn write_round_trips_annotated_frames() {
    let input = "main (app.py:7);brk (libc.so.6) 4\n";
    assert_eq!(write_string(&profile_of(input)), input);
}

#[test]
fn write_reconstructs_labels_without_raw() {
    // Frames sourced from another format carry no `raw`; the label is
    // rebuilt from the structured fields, mirroring `parse_frame`.
    let profile = Profile {
        frame_intern: vec![
            Frame {
                function: Some("main".to_owned()),
                file: Some("main.rs".to_owned()),
                line: Some(42),
                ..Frame::default()
            },
            Frame {
                address: Some(0x7f40_6047_5e44),
                module: Some("libc.so.6".to_owned()),
                ..Frame::default()
            },
        ],
        samples: vec![Sample {
            stack: vec![FrameId(0), FrameId(1)],
            values: vec![3],
        }],
        value_kinds: vec![ValueKind {
            kind: "samples".to_owned(),
            unit: "count".to_owned(),
        }],
    };
    assert_eq!(
        write_string(&profile),
        "main (main.rs:42);0x7f4060475e44 (libc.so.6) 3\n",
    );
}

#[test]
fn write_prefers_function_over_address() {
    // pprof frames carry both a function name and an instruction address;
    // folded should render the symbol, not the hex address.
    let profile = Profile {
        frame_intern: vec![Frame {
            function: Some("main.serve".to_owned()),
            file: Some("server.go".to_owned()),
            line: Some(51),
            address: Some(0x4c_6fea),
            ..Frame::default()
        }],
        samples: vec![Sample {
            stack: vec![FrameId(0)],
            values: vec![1],
        }],
        value_kinds: vec![ValueKind {
            kind: "samples".to_owned(),
            unit: "count".to_owned(),
        }],
    };
    assert_eq!(write_string(&profile), "main.serve (server.go:51) 1\n");
}

#[test]
fn write_uses_only_the_first_value_series() {
    let profile = Profile {
        frame_intern: vec![Frame {
            raw: "a".to_owned(),
            ..Frame::default()
        }],
        samples: vec![Sample {
            stack: vec![FrameId(0)],
            values: vec![9, 99],
        }],
        value_kinds: vec![
            ValueKind {
                kind: "samples".to_owned(),
                unit: "count".to_owned(),
            },
            ValueKind {
                kind: "cpu".to_owned(),
                unit: "nanoseconds".to_owned(),
            },
        ],
    };
    assert_eq!(write_string(&profile), "a 9\n");
}

#[test]
fn folded_write_rejects_dangling_frame_id() {
    let profile = Profile {
        frame_intern: vec![Frame::default()],
        samples: vec![Sample {
            stack: vec![FrameId(7)],
            values: vec![1],
        }],
        value_kinds: vec![ValueKind {
            kind: "samples".to_owned(),
            unit: "count".to_owned(),
        }],
    };
    let err = FoldedFormat
        .write(&profile, WriteOptions::default())
        .unwrap_err();
    assert!(matches!(err, ProfcastError::InvalidProfile(_)));
}

#[test]
fn write_rejects_sample_without_value() {
    let profile = Profile {
        frame_intern: vec![Frame {
            raw: "a".to_owned(),
            ..Frame::default()
        }],
        samples: vec![Sample {
            stack: vec![FrameId(0)],
            values: vec![],
        }],
        value_kinds: vec![],
    };
    let err = FoldedFormat
        .write(&profile, WriteOptions::default())
        .unwrap_err();
    assert!(matches!(err, ProfcastError::InvalidProfile(_)));
}

#[test]
fn separators_alone_are_not_likely_folded() {
    let probe = |buf: &[u8]| FoldedFormat.probe(&ProbeData { filename: None, buf });
    assert_eq!(probe(b";; 1\n;; 2\n"), Confidence::Weak);
    assert_eq!(probe(b"; ; 1\na 2\n"), Confidence::Likely);
    assert!(profile_of(";; 1\n;; 2\n").samples.is_empty());
}

#[test]
fn signed_tokens_are_no_addresses() {
    let address = |token: &str| parse_hex_address(&token.chars().collect::<Vec<char>>());
    assert_eq!(address("0x1f"), Some(0x1f));
    assert_eq!(address("0X1F"), Some(0x1f));
    assert_eq!(address("0x+1f"), None);
    assert_eq!(address("0x"), None);
    assert_eq!(address("0xg"), None);
    assert_eq!(address("0x10000000000000000"), None);
    assert_eq!(parse_frame("0x+1f").function.as_deref(), Some("0x+1f"));
    assert_eq!(parse_frame("0x+1f").address, None);
}

#[test]
fn rendered_locations_parse_back() {
    for (function, file, line) in [("main", "a.py", 3), ("f(x)", "C:\\a(b", 0), ("0x", "b:c", 7)] {
        let frame = Frame {
            function: Some(function.to_owned()),
            file: Some(file.to_owned()),
            line: Some(line),
            ..Frame::default()
        };
        let raw = render_frame(&frame);
        assert_eq!(parse_frame(&raw), Frame { raw, ..frame });
    }
}

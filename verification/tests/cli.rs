//! What the front end does with its arguments and the bytes it read.

use profcast::listing::formats_listing;
use profcast::registry::Registry;
use profcast::transcode::{convert, dump, log_level, output_extension, unrecognized_extension};

fn text(bytes: Vec<u8>) -> String {
    String::from_utf8_lossy(&bytes).into_owned()
}

#[test]
fn convert_file_to_stdout_emits_pretty_json() {
    let registry = Registry::with_builtins();
    let output = convert(
        &registry,
        "/tmp/profcast-cli-in.folded",
        "-",
        None,
        None,
        b"main;work 5\na;b;c 10\n",
    );
    let stdout = text(output.unwrap());
    assert!(stdout.contains("\"frame_intern\""));
    assert!(stdout.contains("\"raw\": \"main\""));
    // Pretty output is indented across many lines.
    assert!(stdout.matches('\n').count() > 1);
}

#[test]
fn convert_infers_output_format_from_extension() {
    let registry = Registry::with_builtins();
    let output = convert(
        &registry,
        "/tmp/profcast-cli-in.folded",
        "/tmp/profcast-cli-out.json",
        None,
        None,
        b"a;b 3\n",
    );
    assert!(output.is_ok());
    let written = text(output.unwrap());
    assert!(written.contains("\"raw\": \"a\""));
}

#[test]
fn convert_folded_to_folded_round_trips() {
    let registry = Registry::with_builtins();
    let input = "main;work 5\na;b;c 10\n";
    let output = convert(&registry, "-", "-", Some("folded"), Some("folded"), input.as_bytes());
    assert_eq!(text(output.unwrap()), input);
}

#[test]
fn convert_infers_folded_output_from_extension() {
    let registry = Registry::with_builtins();
    let output = convert(
        &registry,
        "/tmp/profcast-cli-in.folded",
        "/tmp/profcast-cli-out.folded",
        None,
        None,
        b"a;b 3\n",
    );
    assert!(output.is_ok());
    assert_eq!(text(output.unwrap()), "a;b 3\n");
}

#[test]
fn dump_compact_is_single_line() {
    let registry = Registry::with_builtins();
    let output = dump(&registry, "-", Some("folded"), true, b"a;b 1\n");
    let stdout = text(output.unwrap());
    // Compact output is one JSON line plus the trailing newline.
    assert_eq!(stdout.matches('\n').count(), 1);
    assert!(stdout.contains("\"samples\""));
}

#[test]
fn reads_from_stdin_with_explicit_format() {
    let registry = Registry::with_builtins();
    let output = convert(&registry, "-", "-", Some("folded"), None, b"x;y 2\n");
    assert!(text(output.unwrap()).contains("\"raw\": \"x\""));
}

#[test]
fn unknown_input_format_fails() {
    let registry = Registry::with_builtins();
    let failure = dump(&registry, "-", Some("nope"), false, b"a;b 1\n").unwrap_err();
    assert!(failure.message().contains("unknown input format"));
    assert_eq!(failure.message(), "unknown input format 'nope'");
}

#[test]
fn unknown_output_format_fails() {
    let registry = Registry::with_builtins();
    let output = convert(&registry, "-", "-", Some("folded"), Some("nope"), b"a;b 1\n");
    let failure = output.unwrap_err();
    assert!(failure.message().contains("unknown output format"));
    assert!(failure.cause().is_none());
}

#[test]
fn undetectable_input_fails_with_hint() {
    let registry = Registry::with_builtins();
    let failure = dump(&registry, "-", None, false, b"this is not a profile at all\n").unwrap_err();
    assert!(failure.message().contains("could not detect input format"));
}

#[test]
fn unreadable_input_names_the_format_and_the_cause() {
    let registry = Registry::with_builtins();
    let failure = dump(&registry, "-", Some("folded"), false, b"a;b 1\na;c xx\n").unwrap_err();
    assert_eq!(failure.message(), "failed to parse input as 'folded'");
    assert!(failure.cause().unwrap().message().starts_with("parse error on line 2: "));
}

#[test]
fn missing_json_output_is_a_failure() {
    let mut registry = Registry::new();
    registry.register(Box::new(profcast::folded::FoldedFormat));
    let dumped = dump(&registry, "-", Some("folded"), false, b"a;b 1\n").unwrap_err();
    assert_eq!(dumped.message(), "json output format is not registered");
    let converted = convert(&registry, "-", "-", Some("folded"), None, b"a;b 1\n").unwrap_err();
    assert_eq!(converted.message(), "default output format 'json' is not registered");
}

#[test]
fn dump_reads_back_as_the_profile() {
    let registry = Registry::with_builtins();
    let bytes = dump(&registry, "-", Some("folded"), false, b"a;b 3\nb 4\n").unwrap();
    assert_eq!(bytes[bytes.len() - 1], b'\n');
    let value = profcast::json::parse_json(&bytes[..bytes.len() - 1]).unwrap();
    let profile = profcast::json_format::read_value(&value).unwrap();
    assert_eq!(profile.samples.len(), 2);
    assert_eq!(profile.samples[1].values, vec![4]);
}

#[test]
fn output_extension_is_none_for_stdout() {
    assert_eq!(output_extension("-"), None);
    assert_eq!(output_extension("out"), None);
    assert_eq!(output_extension("a/b/out.pb.gz").as_deref(), Some("gz"));
    assert_eq!(output_extension("a.b/out"), None);
    assert_eq!(output_extension(".folded"), None);
}

#[test]
fn unrecognized_extensions_are_told() {
    let registry = Registry::with_builtins();
    assert_eq!(unrecognized_extension(&registry, "out.xyz", None).as_deref(), Some("xyz"));
    assert_eq!(unrecognized_extension(&registry, "out.xyz", Some("json")), None);
    assert_eq!(unrecognized_extension(&registry, "out.json", None), None);
    assert_eq!(unrecognized_extension(&registry, "-", None), None);
}

#[test]
fn formats_are_listed_in_alphabetical_order() {
    let expected = concat_lines(&[
        " R. = readable (convert/dump input)",
        " .W = writable (convert/record output)",
        " --",
        " RW  chrometrace ",
        " RW  folded      .folded, .collapsed",
        " .W  json        .json",
        " RW  pprof       .pprof, .pb, .gz",
        " .W  speedscope  ",
    ]);
    assert_eq!(formats_listing(&Registry::with_builtins()), expected);
}

fn concat_lines(lines: &[&str]) -> String {
    let mut out = String::new();
    for line in lines {
        out.push_str(line);
        out.push('\n');
    }
    out
}

#[test]
fn log_levels_grow_with_verbosity() {
    assert_eq!(log_level(0), "warn");
    assert_eq!(log_level(1), "info");
    assert_eq!(log_level(2), "debug");
    assert_eq!(log_level(3), "trace");
    assert_eq!(log_level(255), "trace");
}

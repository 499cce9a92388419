//! Command lines for systems that pass one string.

use profcast::command_line::{append_quoted, encode_command_line, encode_utf16};

fn line(argv: &[&str]) -> String {
    let argv: Vec<String> = argv.iter().map(|arg| (*arg).to_owned()).collect();
    String::from_utf16(&encode_command_line(&argv)).unwrap()
}

#[test]
fn plain_arguments_stay_as_they_are() {
    assert_eq!(line(&["a", "b\\c", "d\\"]), "a b\\c d\\");
    assert_eq!(line(&[]), "");
}

#[test]
fn blanks_and_quotes_are_quoted() {
    assert_eq!(line(&["a b"]), "\"a b\"");
    assert_eq!(line(&[""]), "\"\"");
    assert_eq!(line(&["say \"hi\""]), "\"say \\\"hi\\\"\"");
    assert_eq!(line(&["a\tb", "c\nd", "e\u{b}f"]), "\"a\tb\" \"c\nd\" \"e\u{b}f\"");
}

#[test]
fn backslashes_are_doubled_only_before_quotes() {
    assert_eq!(line(&["a b\\"]), "\"a b\\\\\"");
    assert_eq!(line(&["a\\\\\"b"]), "\"a\\\\\\\\\\\"b\"");
    assert_eq!(line(&["a\\b c"]), "\"a\\b c\"");
}

#[test]
fn quoting_appends() {
    let mut out = "x ".to_owned();
    append_quoted("y z", &mut out);
    assert_eq!(out, "x \"y z\"");
}

#[test]
fn text_outside_the_basic_plane_takes_two_units() {
    for text in ["plain", "\u{e4}", "\u{ffff}", "\u{10000}", "\u{10ffff}", "\u{1f600}x"] {
        assert_eq!(encode_utf16(text), text.encode_utf16().collect::<Vec<u16>>());
    }
}

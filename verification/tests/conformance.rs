//! What every input format is held to.

use profcast::chrometrace::ChromeTraceFormat;
use profcast::conformance::{check_all, check_probe, check_read, same_profile};
use profcast::error::{ErrorView, Result};
use profcast::folded::FoldedFormat;
use profcast::format::{Confidence, InputFormat, ProbeData, ProbeView};
use profcast::model::{FrameId, Profile, ProfileView, Sample};
use profcast::pprof::PprofFormat;
use profcast::registry::Registry;
use vstd::seq::Seq;

/// A format that takes anything for a profile with a dangling frame.
struct Broken;

impl InputFormat for Broken {
    fn in_name(&self) -> Seq<char> {
        unreachable!()
    }

    fn in_extensions(&self) -> Seq<Seq<char>> {
        unreachable!()
    }

    fn likeness(&self, _data: ProbeView) -> Confidence {
        unreachable!()
    }

    fn meaning(&self, _input: Seq<u8>) -> std::result::Result<ProfileView, ErrorView> {
        unreachable!()
    }

    fn name(&self) -> &'static str {
        "broken"
    }

    fn extensions(&self) -> &'static [&'static str] {
        &["folded"]
    }

    fn probe(&self, _data: &ProbeData<'_>) -> Confidence {
        Confidence::Likely
    }

    fn read(&self, _input: &[u8]) -> Result<Profile> {
        Ok(Profile {
            frame_intern: vec![],
            samples: vec![Sample { stack: vec![FrameId(0)], values: vec![] }],
            value_kinds: vec![],
        })
    }
}

#[test]
fn shipped_formats_survive_any_bytes() {
    let inputs: [&[u8]; 8] = [
        b"",
        b"a;b 1\n",
        b"\xff\xfe\x00",
        b"{}",
        b"[]",
        b"{\"stackFrames\": {}, \"samples\": [{\"sf\": 1}]}",
        b"\x1f\x8b\x08\x00",
        b"\x0a\x04\x08\x01\x10\x02",
    ];
    for input in inputs {
        assert!(check_all(&FoldedFormat, Some("x.folded"), input).is_ok());
        assert!(check_all(&PprofFormat, None, input).is_ok());
        assert!(check_all(&ChromeTraceFormat, None, input).is_ok());
    }
}

#[test]
fn invalid_profiles_are_complained_about() {
    let complaint = check_read(&Broken, b"x").unwrap_err();
    assert_eq!(
        complaint,
        "format 'broken' produced an invalid profile: invalid profile: sample 0 references frame \
         id 0 but only 0 frames are interned",
    );
    assert_eq!(check_all(&Broken, None, b"x").unwrap_err(), complaint);
}

#[test]
fn probes_answer_for_any_name() {
    assert_eq!(check_probe(&FoldedFormat, Some("x.folded"), b""), Confidence::Extension);
    assert_eq!(check_probe(&FoldedFormat, Some("x.txt"), b""), Confidence::NoMatch);
}

#[test]
fn profiles_are_compared_as_a_whole() {
    let a = FoldedFormat.read(b"a;b 1\n").unwrap();
    let b = FoldedFormat.read(b"a;b 2\n").unwrap();
    let c = FoldedFormat.read(b"a;c 1\n").unwrap();
    assert!(same_profile(&a, &a.clone()));
    assert!(!same_profile(&a, &b));
    assert!(!same_profile(&a, &c));
    assert!(!same_profile(&a, &Profile::default()));
}

#[test]
fn ties_go_to_the_format_registered_first() {
    let mut registry = Registry::new();
    registry.register(Box::new(Broken));
    registry.register(Box::new(FoldedFormat));
    let data = ProbeData { filename: None, buf: b"a;b 1\n" };
    assert_eq!(registry.probe(&data).unwrap().format.name(), "broken");
    let mut registry = Registry::new();
    registry.register(Box::new(FoldedFormat));
    registry.register(Box::new(Broken));
    assert_eq!(registry.probe(&data).unwrap().format.name(), "folded");
    let weak = ProbeData { filename: None, buf: b"" };
    let found = registry.probe(&weak).unwrap();
    assert_eq!(found.format.name(), "broken");
    assert_eq!(found.confidence, Confidence::Likely);
    assert_eq!(registry.by_name("broken").unwrap().extensions(), &["folded"]);
    assert!(registry.by_name("broken").unwrap().read(b"").is_ok());
}

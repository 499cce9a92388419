//! Recording: targets, sources, and what becomes of a capture.

use profcast::capture::{CaptureSpec, Source, Sources, Target};
use profcast::error::{ProfcastError, Result};
use profcast::model::{Frame, FrameId, Profile, Sample, ValueKind};
use profcast::registry::Registry;
use profcast::transcode::{
    admit_source, choose_source, choose_target, command_target, record, write_recording,
};

/// A source that delivers one sample, or fails, or cannot run.
struct Fixed {
    name: &'static str,
    available: bool,
    fails: bool,
}

impl Source for Fixed {
    fn name(&self) -> &'static str {
        self.name
    }

    fn available(&self) -> bool {
        self.available
    }

    fn capture(&self, spec: &CaptureSpec) -> Result<Profile> {
        if self.fails {
            return Err(ProfcastError::Unsupported("not here".to_owned()));
        }
        let raw = match &spec.target {
            Target::Command(argv) => argv.join("+"),
            Target::Pid(pid) => format!("pid{pid}"),
            _ => "own".to_owned(),
        };
        Ok(Profile {
            frame_intern: vec![Frame { raw, ..Frame::default() }],
            samples: vec![Sample {
                stack: vec![FrameId(0)],
                values: vec![i64::from(spec.frequency_hz)],
            }],
            value_kinds: vec![ValueKind {
                kind: "samples".to_owned(),
                unit: "count".to_owned(),
            }],
        })
    }
}

fn sources() -> Sources {
    let mut sources = Sources::new();
    sources.register(Box::new(Fixed { name: "off", available: false, fails: false }));
    sources.register(Box::new(Fixed { name: "on", available: true, fails: false }));
    sources.register(Box::new(Fixed { name: "bad", available: true, fails: true }));
    sources
}

#[test]
fn sources_are_found_by_name_or_availability() {
    let sources = sources();
    assert_eq!(sources.by_name("bad").map(|s| s.name()), Some("bad"));
    assert!(sources.by_name("none").is_none());
    assert_eq!(sources.available().map(|s| s.name()), Some("on"));
    assert_eq!(sources.iter().len(), 3);
    assert!(Sources::default().available().is_none());
    assert_eq!(sources.first_to_agree(&[false, false, true]).map(|s| s.name()), Some("bad"));
    assert!(sources.first_to_agree(&[false]).is_none());
}

#[test]
fn targets_are_chosen_in_order() {
    assert_eq!(choose_target(Some(3), true, Some("x")).unwrap(), Target::Pid(3));
    assert_eq!(choose_target(None, true, Some("x")).unwrap(), Target::Current);
    assert_eq!(
        choose_target(None, false, Some("/usr/bin/grep -r 'a b' .")).unwrap(),
        Target::Command(vec![
            "/usr/bin/grep".to_owned(),
            "-r".to_owned(),
            "a b".to_owned(),
            ".".to_owned(),
        ]),
    );
    for line in ["", "'open"] {
        let failure = choose_target(None, false, Some(line)).unwrap_err();
        assert_eq!(failure.message(), "could not parse --program command line");
    }
    assert_eq!(
        choose_target(None, false, None).unwrap_err().message(),
        "choose a target: --pid <PID>, --self, or --program \"<cmd>\"",
    );
    assert_eq!(Target::default(), Target::Current);
}

#[test]
fn command_words_need_a_program() {
    let words = vec!["ls".to_owned()];
    assert_eq!(command_target(Some(words.clone())).unwrap(), Target::Command(words));
    assert!(command_target(Some(vec![])).is_err());
    assert!(command_target(None).is_err());
}

#[test]
fn sources_that_cannot_run_are_refused() {
    let sources = sources();
    let unknown = choose_source(&sources, Some("none")).err().unwrap();
    assert_eq!(unknown.message(), "unknown capture source 'none'");
    let off = choose_source(&sources, Some("off")).err().unwrap();
    assert_eq!(
        off.message(),
        "capture source 'off' is not available on this host (check permissions / platform support)",
    );
    let nothing = choose_source(&Sources::new(), None).err().unwrap();
    assert_eq!(nothing.message(), "no capture backend is available on this platform");
    assert_eq!(choose_source(&sources, None).ok().unwrap().name(), "on");
    assert!(admit_source("on", true).is_ok());
    assert_eq!(admit_source("on", false).unwrap_err().message(), off.message().replace("off", "on"));
}

#[test]
fn recordings_are_written_in_the_output_format() {
    let registry = Registry::with_builtins();
    let sources = sources();
    let bytes = record(
        &registry, &sources, "out.folded", Some(7), false, None, 50, None, None, None,
    );
    assert_eq!(bytes.unwrap(), b"pid7 50\n".to_vec());
    let bytes = record(
        &registry, &sources, "-", None, false, Some("a b"), 9, None, Some("on"), Some("folded"),
    );
    assert_eq!(bytes.unwrap(), b"a+b 9\n".to_vec());
}

#[test]
fn failed_recordings_name_their_source() {
    let registry = Registry::with_builtins();
    let sources = sources();
    let failure = record(
        &registry, &sources, "-", None, true, None, 9, None, Some("bad"), None,
    )
    .unwrap_err();
    assert_eq!(failure.message(), "capture with 'bad' failed");
    assert_eq!(failure.cause().unwrap().message(), "unsupported: not here");
    let failure = record(
        &registry, &sources, "-", None, true, None, 9, None, None, Some("nope"),
    )
    .unwrap_err();
    assert_eq!(failure.message(), "unknown output format 'nope'");
    let failure =
        record(&registry, &sources, "-", None, false, None, 9, None, None, None).unwrap_err();
    assert!(failure.message().starts_with("choose a target"));
}

#[test]
fn invalid_captures_are_not_written() {
    let registry = Registry::with_builtins();
    let profile = Profile {
        frame_intern: vec![],
        samples: vec![Sample { stack: vec![FrameId(0)], values: vec![1] }],
        value_kinds: vec![],
    };
    let failure = write_recording(&registry, "x.folded", None, "on", Ok(profile)).unwrap_err();
    assert_eq!(failure.message(), "failed to encode profile as 'folded'");
    assert!(failure.cause().unwrap().message().starts_with("invalid profile: "));
}

#[test]
fn capture_specs_default_to_this_process() {
    let spec = CaptureSpec::default();
    assert_eq!(spec.target, Target::Current);
    assert_eq!(spec.frequency_hz, 99);
    assert_eq!(spec.duration, None);
}

#[test]
fn requests_for_a_source_are_answered() {
    let sources = sources();
    let message = |name: Option<&str>, sources: &Sources| match choose_source(sources, name) {
        Ok(source) => source.name().to_owned(),
        Err(failure) => failure.message(),
    };
    assert_eq!(
        message(Some("off"), &sources),
        "capture source 'off' is not available on this host (check permissions / platform support)",
    );
    assert_eq!(message(Some("gone"), &sources), "unknown capture source 'gone'");
    assert_eq!(message(Some("bad"), &sources), "bad");
    assert_eq!(message(None, &sources), "on");
    let mut idle = Sources::new();
    idle.register(Box::new(Fixed { name: "off", available: false, fails: false }));
    assert_eq!(message(None, &idle), "no capture backend is available on this platform");
}

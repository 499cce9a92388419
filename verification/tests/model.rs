//! The data model's structural invariants.

use profcast::error::ProfcastError;
use profcast::model::{Frame, FrameId, Profile, Sample, ValueKind};

fn value_kind() -> ValueKind {
    ValueKind {
        kind: "samples".to_owned(),
        unit: "count".to_owned(),
    }
}

#[test]
fn valid_profile_passes() {
    let profile = Profile {
        frame_intern: vec![Frame::default(), Frame::default()],
        samples: vec![Sample {
            stack: vec![FrameId(0), FrameId(1)],
            values: vec![1],
        }],
        value_kinds: vec![value_kind()],
    };
    assert!(profile.validate().is_ok());
}

#[test]
fn empty_profile_is_valid() {
    assert!(Profile::default().validate().is_ok());
}

#[test]
fn dangling_frame_id_is_rejected() {
    let profile = Profile {
        frame_intern: vec![Frame::default()],
        samples: vec![Sample {
            stack: vec![FrameId(5)],
            values: vec![1],
        }],
        value_kinds: vec![value_kind()],
    };
    assert!(matches!(
        profile.validate(),
        Err(ProfcastError::InvalidProfile(_))
    ));
}

#[test]
fn value_arity_mismatch_is_rejected() {
    let profile = Profile {
        frame_intern: vec![Frame::default()],
        samples: vec![Sample {
            stack: vec![FrameId(0)],
            values: vec![1, 2],
        }],
        value_kinds: vec![value_kind()],
    };
    assert!(matches!(
        profile.validate(),
        Err(ProfcastError::InvalidProfile(_))
    ));
}

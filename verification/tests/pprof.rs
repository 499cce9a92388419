//! The pprof format.

use profcast::error::ProfcastError;
use profcast::format::{Confidence, InputFormat, OutputFormat, ProbeData, WriteOptions};
use profcast::model::{Frame, FrameId, Profile, Sample, ValueKind};
use profcast::pprof::{convert_from_proto, convert_to_proto, PprofFormat, StringTable};
use profcast::proto;

/// A small profile as an independent encoder writes it, gzip-framed.
const ENCODED: [u8; 167] = [
    0x1f, 0x8b, 0x08, 0x00, 0x00, 0x00, 0x00, 0x00, 0x02, 0xff, 0x1d, 0x8b, 0x4d, 0x0e,
    0x82, 0x30, 0x10, 0x85, 0xed, 0xb4, 0x40, 0xad, 0x89, 0x36, 0x8d, 0x0b, 0xe2, 0x8a,
    0xb0, 0x32, 0x2e, 0x24, 0x99, 0x1b, 0x55, 0x24, 0x84, 0x28, 0x6d, 0x63, 0x25, 0x6e,
    0xe7, 0x28, 0x1e, 0xc0, 0x43, 0x70, 0x28, 0x0f, 0x60, 0x71, 0xf3, 0x7e, 0xbe, 0xbc,
    0xa7, 0x84, 0x64, 0x1a, 0x94, 0x90, 0x5c, 0x0b, 0xb3, 0x56, 0x00, 0xcc, 0xf0, 0xec,
    0xcb, 0x8d, 0x54, 0x2c, 0x25, 0xfe, 0x81, 0xc3, 0x36, 0x0d, 0x88, 0x08, 0x4a, 0xa2,
    0x19, 0x8e, 0xb2, 0xde, 0xa5, 0xce, 0x4a, 0x7a, 0x13, 0xd4, 0xcb, 0x57, 0x25, 0x00,
    0x0b, 0x98, 0xff, 0x00, 0xf4, 0xfe, 0x94, 0x27, 0x9c, 0x55, 0x79, 0x72, 0xd0, 0x45,
    0x95, 0xe3, 0x0a, 0x8b, 0x68, 0xc7, 0x70, 0xef, 0x22, 0x66, 0xad, 0x9f, 0xdc, 0x13,
    0x79, 0x1b, 0x26, 0xdc, 0x38, 0xeb, 0x7c, 0xec, 0x5a, 0xef, 0xae, 0x11, 0xc5, 0x68,
    0x07, 0x87, 0xc5, 0xa2, 0xe7, 0xde, 0xa3, 0x78, 0xf9, 0xc7, 0x0d, 0x65, 0x63, 0x43,
    0x68, 0x2e, 0x83, 0xfb, 0x01, 0x4c, 0x8a, 0x62, 0x14, 0xa6, 0x00, 0x00, 0x00,
];

fn sample_profile() -> Profile {
    Profile {
        frame_intern: vec![
            Frame {
                function: Some("main".to_owned()),
                file: Some("main.rs".to_owned()),
                line: Some(42),
                ..Frame::default()
            },
            Frame {
                function: Some("work".to_owned()),
                module: Some("libwork.so".to_owned()),
                ..Frame::default()
            },
            Frame {
                address: Some(0x7f40_6047_5e44),
                module: Some("libc.so.6".to_owned()),
                ..Frame::default()
            },
        ],
        samples: vec![
            Sample {
                stack: vec![FrameId(0), FrameId(1)],
                values: vec![10, 100],
            },
            Sample {
                stack: vec![FrameId(0), FrameId(2)],
                values: vec![5, 50],
            },
        ],
        value_kinds: vec![
            ValueKind {
                kind: "samples".to_owned(),
                unit: "count".to_owned(),
            },
            ValueKind {
                kind: "cpu".to_owned(),
                unit: "nanoseconds".to_owned(),
            },
        ],
    }
}

#[test]
fn round_trips_through_pprof() {
    let profile = sample_profile();
    let bytes = PprofFormat
        .write(&profile, WriteOptions::default())
        .unwrap();
    let parsed = PprofFormat.read(&bytes).unwrap();
    assert_eq!(parsed, profile);
    parsed.validate().unwrap();
}

#[test]
fn output_is_gzip_framed() {
    let bytes = PprofFormat
        .write(&sample_profile(), WriteOptions::default())
        .unwrap();
    assert_eq!(&bytes[..2], &[0x1f, 0x8b]);
}

#[test]
fn empty_profile_round_trips() {
    let profile = Profile::default();
    let bytes = PprofFormat
        .write(&profile, WriteOptions::default())
        .unwrap();
    let parsed = PprofFormat.read(&bytes).unwrap();
    assert_eq!(parsed, profile);
}

#[test]
fn reads_uncompressed_protobuf() {
    // A reader must accept a raw (non-gzipped) protobuf payload too.
    let proto = convert_to_proto(&sample_profile());
    let raw = proto.encode_to_vec();
    let parsed = PprofFormat.read(&raw).unwrap();
    assert_eq!(parsed, sample_profile());
}

#[test]
fn probe_accepts_own_output() {
    let bytes = PprofFormat
        .write(&sample_profile(), WriteOptions::default())
        .unwrap();
    let data = ProbeData {
        filename: None,
        buf: &bytes,
    };
    assert_eq!(PprofFormat.probe(&data), Confidence::Likely);
}

#[test]
fn probe_rejects_garbage() {
    let data = ProbeData {
        filename: None,
        buf: b"not a profile, just some text bytes",
    };
    assert_eq!(PprofFormat.probe(&data), Confidence::NoMatch);
}

#[test]
fn rejects_value_arity_mismatch() {
    // Two declared value kinds but a sample carrying one value.
    let mut proto = convert_to_proto(&sample_profile());
    proto.sample[0].value = vec![1];
    let raw = proto.encode_to_vec();
    let error = PprofFormat.read(&raw).unwrap_err();
    assert!(matches!(error, ProfcastError::Decode(_)));
}

#[test]
fn rejects_out_of_range_string_index() {
    let mut proto = convert_to_proto(&sample_profile());
    proto.sample_type[0].kind = 9999;
    let raw = proto.encode_to_vec();
    let error = PprofFormat.read(&raw).unwrap_err();
    assert!(matches!(error, ProfcastError::Decode(_)));
}

#[test]
fn reads_protoc_encoded_fixture() {
    // Not written by this library's own writer, so this exercises real interop.
    let profile = PprofFormat.read(&ENCODED).unwrap();
    profile.validate().unwrap();

    assert_eq!(
        profile.value_kinds,
        vec![
            ValueKind {
                kind: "samples".to_owned(),
                unit: "count".to_owned()
            },
            ValueKind {
                kind: "cpu".to_owned(),
                unit: "nanoseconds".to_owned()
            },
        ],
    );

    // Frames are interned in location order: main (id 1) then work (id 2).
    assert_eq!(profile.frame_intern.len(), 2);
    let main = &profile.frame_intern[0];
    assert_eq!(main.function.as_deref(), Some("main"));
    assert_eq!(main.file.as_deref(), Some("main.go"));
    assert_eq!(main.line, Some(10));
    assert_eq!(main.module.as_deref(), Some("/app/bin"));
    let work = &profile.frame_intern[1];
    assert_eq!(work.function.as_deref(), Some("work"));
    assert_eq!(work.line, Some(20));

    // Sample 0 is main -> work (root-first) with both value series.
    assert_eq!(profile.samples.len(), 2);
    assert_eq!(profile.samples[0].stack, vec![FrameId(0), FrameId(1)]);
    assert_eq!(profile.samples[0].values, vec![5, 500]);
    assert_eq!(profile.samples[1].stack, vec![FrameId(0)]);
    assert_eq!(profile.samples[1].values, vec![3, 300]);
}

#[test]
fn expands_inlined_lines_into_frames() {
    // A single location with two lines (memcpy inlined into printf) must
    // produce two frames, innermost first after the leaf-to-root reversal.
    let mut strings = StringTable::new();
    let memcpy = strings.intern("memcpy");
    let printf = strings.intern("printf");
    let proto = proto::Profile {
        sample_type: vec![proto::ValueType {
            kind: strings.intern("samples"),
            unit: strings.intern("count"),
        }],
        sample: vec![proto::Sample {
            location_id: vec![1],
            value: vec![3],
            ..Default::default()
        }],
        function: vec![
            proto::Function {
                id: 1,
                name: memcpy,
                ..Default::default()
            },
            proto::Function {
                id: 2,
                name: printf,
                ..Default::default()
            },
        ],
        location: vec![proto::Location {
            id: 1,
            line: vec![
                proto::Line {
                    function_id: 1,
                    ..Default::default()
                },
                proto::Line {
                    function_id: 2,
                    ..Default::default()
                },
            ],
            ..Default::default()
        }],
        string_table: strings.into_vec(),
        ..Default::default()
    };
    let parsed = convert_from_proto(&proto).unwrap();
    let labels: Vec<_> = parsed.samples[0]
        .stack
        .iter()
        .map(|id| parsed.frame_intern[id.0 as usize].function.as_deref())
        .collect();
    // Stack is root-first: caller (printf) then leaf (memcpy).
    assert_eq!(labels, vec![Some("printf"), Some("memcpy")]);
}

#[test]
fn malformed_messages_name_the_field_at_fault() {
    let cases: [(&[u8], &str); 11] = [
        (&[0x08], "Profile.sample_type: invalid wire type: Varint (expected LengthDelimited)"),
        (&[0x12, 0x05, 0x01], "Profile.sample: buffer underflow"),
        (&[0x48], "Profile.time_nanos: invalid varint"),
        (&[0x0a, 0x01, 0x08], "ValueType.r#type: Profile.sample_type: invalid varint"),
        (
            &[0x12, 0x03, 0x1a, 0x01, 0x08],
            "Label.key: Sample.label: Profile.sample: invalid varint",
        ),
        (&[0x0a, 0x01, 0x08, 0x05], "Profile.sample_type: delimited length exceeded"),
        (&[0x6a, 0x01, 0x80, 0x01], "Profile.comment: delimited length exceeded"),
        (
            &[0x32, 0x01, 0xff],
            "Profile.string_table: invalid string value: data is not UTF-8 encoded",
        ),
        (&[0x22, 0x02, 0x25, 0x00], "Location.line: Profile.location: invalid wire type: \
          ThirtyTwoBit (expected LengthDelimited)"),
        (&[0x83, 0x01, 0x8c, 0x01], "unexpected end group tag"),
        (&[0x08, 0x00, 0x07], "Profile.sample_type: invalid wire type: Varint (expected \
          LengthDelimited)"),
    ];
    for (bytes, reason) in cases {
        assert_eq!(
            PprofFormat.read(bytes).unwrap_err().message(),
            format!(
                "decode error: invalid pprof protobuf: failed to decode Protobuf message: {reason}"
            ),
        );
    }
}

#[test]
fn malformed_wire_data_is_told_as_the_decoder_tells_it() {
    let deep: Vec<u8> = [0x83, 0x01].repeat(101);
    let cases: [&[u8]; 9] = [
        &[0x07],
        &[0x00],
        &[0x80],
        &[0x84, 0x01],
        &[0x85, 0x01, 0x00],
        &[0x82, 0x01, 0x05],
        &[0xff, 0xff, 0xff, 0xff, 0xff, 0x01],
        &[0x83, 0x01, 0x84, 0x02],
        &deep,
    ];
    for bytes in cases {
        let error = <() as prost::Message>::decode(bytes).unwrap_err();
        assert_eq!(
            PprofFormat.read(bytes).unwrap_err().message(),
            format!("decode error: invalid pprof protobuf: {error}"),
        );
    }
}

//! What stands behind the C interface: detecting and reading a buffer, and
//! error messages that survive as C strings.

use vstd::prelude::*;

use crate::error::{outcome, Result};
use crate::format::{OutputFormat, ProbeData, ProbeView, WriteOptions};
use crate::json_format::{json_profile, JsonFormat};
use crate::model::{Profile, ProfileView};
use crate::registry::{best_match, input_named, AnyInput, Registry};
use crate::transcode::{opt_word, result, Failure, FailureView};

verus! {

/// A message as a C string can hold it: with `?` in the place of each NUL.
pub open spec fn without_nul(bytes: Seq<u8>) -> Seq<u8> {
    Seq::new(
        bytes.len(),
        |i: int|
            if bytes[i] == 0 {
                0x3f
            } else {
                bytes[i]
            },
    )
}

/// Replaces any interior NUL bytes so the message always round-trips to C.
pub fn c_message(message: Vec<u8>) -> (r: Vec<u8>)
    ensures
        r@ == without_nul(message@),
        !r@.contains(0),
{
    let mut out: Vec<u8> = Vec::new();
    for i in 0..message.len()
        invariant
            out.len() == i,
            forall|j: int| 0 <= j < i ==> out@[j] == without_nul(message@)[j],
    {
        let b: u8 = message[i];
        out.push(
            if b == 0 {
                0x3f
            } else {
                b
            },
        );
    }
    assert(out@ =~= without_nul(message@));
    assert(!out@.contains(0)) by {
        if out@.contains(0) {
            let i = out@.index_of(0);
            assert(out@[i] == without_nul(message@)[i]);
        }
    }
    out
}

/// What is known of a buffer: its bytes, and a file name where there is one.
pub open spec fn buffer(filename: Option<Seq<char>>, bytes: Seq<u8>) -> ProbeView {
    ProbeView { filename, buf: bytes }
}

/// Detects the format of a buffer, optionally hinted by a file name. `None` if
/// no format matched.
pub fn detect(registry: &Registry, filename: Option<&str>, bytes: &[u8]) -> (r: Option<
    &'static str,
>)
    ensures
        match (r, best_match(registry.input_formats(), buffer(opt_word(filename), bytes@))) {
            (Some(name), Some(at)) => name@ == registry.input_formats()[at].in_name(),
            (None, None) => true,
            _ => false,
        },
{
    let data = ProbeData { filename, buf: bytes };
    match registry.probe(&data) {
        Some(found) => Some(found.format.name()),
        None => None,
    }
}

/// What a buffer says, in the format with the given name or in the one that it
/// resembles most.
pub open spec fn buffer_meaning(
    inputs: Seq<AnyInput>,
    format: Option<Seq<char>>,
    filename: Option<Seq<char>>,
    bytes: Seq<u8>,
) -> std::result::Result<ProfileView, FailureView> {
    let chosen: std::result::Result<AnyInput, FailureView> = match format {
        Some(name) => match input_named(inputs, name) {
            Some(format) => Ok(format),
            None => Err(FailureView::UnknownInput(name)),
        },
        None => match best_match(inputs, buffer(filename, bytes)) {
            Some(at) => Ok(inputs[at]),
            None => Err(FailureView::Undetected),
        },
    };
    match chosen {
        Ok(format) => match format.meaning(bytes) {
            Ok(profile) => Ok(profile),
            Err(error) => Err(FailureView::Unreadable { format: format.in_name(), error }),
        },
        Err(failure) => Err(failure),
    }
}

/// Parses a buffer into a profile.
///
/// `format` selects an input format by name; without it the format is
/// auto-detected by probing, with `filename` used as an optional hint.
pub fn read_buffer(
    registry: &Registry,
    bytes: &[u8],
    format: Option<&str>,
    filename: Option<&str>,
) -> (r: std::result::Result<Profile, Failure>)
    ensures
        result(r) == buffer_meaning(
            registry.input_formats(),
            opt_word(format),
            opt_word(filename),
            bytes@,
        ),
{
    let chosen = match format {
        Some(name) => match registry.by_name(name) {
            Some(format) => format,
            None => return Err(Failure::UnknownInput(name.to_owned())),
        },
        None => {
            let data = ProbeData { filename, buf: bytes };
            match registry.probe(&data) {
                Some(found) => found.format,
                None => return Err(Failure::Undetected),
            }
        },
    };
    match chosen.read(bytes) {
        Ok(profile) => Ok(profile),
        Err(error) => Err(Failure::Unreadable { format: chosen.name(), error }),
    }
}

/// What the C interface says of a failure to read: where the input is at fault,
/// what is wrong with it.
pub fn read_failure_message(failure: &Failure) -> (r: String)
    ensures
        match failure {
            Failure::Undetected => r@ == "could not detect input format"@,
            Failure::Unreadable { error, .. } => error.spells(r@),
            _ => r@ == failure@.message(),
        },
{
    match failure {
        Failure::Undetected => "could not detect input format".to_owned(),
        Failure::Unreadable { error, .. } => error.message(),
        _ => failure.message(),
    }
}

/// Serializes a profile to compact JSON, which reads back as the profile.
pub fn profile_to_json(profile: &Profile) -> (r: Result<Vec<u8>>)
    ensures
        outcome(r) == JsonFormat.rendering(profile@, WriteOptions { pretty: false }),
        r matches Ok(bytes) ==> json_profile(bytes@) == Some(profile@),
{
    JsonFormat.write(profile, WriteOptions { pretty: false })
}

} // verus!

//! What every input format is held to: probing and reading arbitrary bytes
//! never fail in an uncontrolled way, what is read is a valid profile, and
//! reading the same bytes again gives the same profile.

use vstd::prelude::*;

use crate::chrometrace_laws::law_chrome_reads_valid_profiles;
use crate::error::ErrorView;
use crate::folded_laws::law_folded_reads_valid_profiles;
use crate::format::{Confidence, InputFormat, ProbeData, ProbeView};
use crate::intern::Key;
use crate::json::json_parse;
use crate::model::{views, FrameId, Profile, Sample, ValueKind};
use crate::pprof::payload;
use crate::pprof_laws::law_pprof_reads_valid_profiles;
use crate::registry::AnyInput;

verus! {

/// The complaint about a format that read an invalid profile.
pub open spec fn invalid_complaint(name: Seq<char>, error: ErrorView) -> Seq<char> {
    "format '"@ + name + "' produced an invalid profile: "@ + error.prefix()
        + error.detail().unwrap_or(Seq::empty())
}

/// What there is to say against a format's reading of `buf`: that the profile
/// it read is not valid, if so.
pub open spec fn complaint<F: InputFormat>(format: &F, buf: Seq<u8>) -> Option<Seq<char>> {
    match format.meaning(buf) {
        Ok(profile) => match profile.verdict() {
            Ok(_) => None,
            Err(error) => Some(invalid_complaint(format.in_name(), error)),
        },
        Err(_) => None,
    }
}

fn same_stacks(a: &Vec<FrameId>, b: &Vec<FrameId>) -> (r: bool)
    ensures
        r == (a@ == b@),
{
    if a.len() != b.len() {
        return false;
    }
    for i in 0..a.len()
        invariant
            a.len() == b.len(),
            forall|j: int| 0 <= j < i ==> a@[j] == b@[j],
    {
        if a[i].0 != b[i].0 {
            return false;
        }
    }
    assert(a@ =~= b@);
    true
}

fn same_values(a: &Vec<i64>, b: &Vec<i64>) -> (r: bool)
    ensures
        r == (a@ == b@),
{
    if a.len() != b.len() {
        return false;
    }
    for i in 0..a.len()
        invariant
            a.len() == b.len(),
            forall|j: int| 0 <= j < i ==> a@[j] == b@[j],
    {
        if a[i] != b[i] {
            return false;
        }
    }
    assert(a@ =~= b@);
    true
}

fn same_samples(a: &Vec<Sample>, b: &Vec<Sample>) -> (r: bool)
    ensures
        r == (views(a@) == views(b@)),
{
    if a.len() != b.len() {
        assert(views(a@).len() != views(b@).len());
        return false;
    }
    for i in 0..a.len()
        invariant
            a.len() == b.len(),
            forall|j: int| 0 <= j < i ==> (#[trigger] a@[j])@ == b@[j]@,
    {
        if !same_stacks(&a[i].stack, &b[i].stack) || !same_values(&a[i].values, &b[i].values) {
            assert(views(a@)[i as int] != views(b@)[i as int]);
            return false;
        }
    }
    assert(views(a@) =~= views(b@));
    true
}

fn same_kinds(a: &Vec<ValueKind>, b: &Vec<ValueKind>) -> (r: bool)
    ensures
        r == (views(a@) == views(b@)),
{
    if a.len() != b.len() {
        assert(views(a@).len() != views(b@).len());
        return false;
    }
    for i in 0..a.len()
        invariant
            a.len() == b.len(),
            forall|j: int| 0 <= j < i ==> (#[trigger] a@[j])@ == b@[j]@,
    {
        if !a[i].kind.same(&b[i].kind) || !a[i].unit.same(&b[i].unit) {
            assert(views(a@)[i as int] != views(b@)[i as int]);
            return false;
        }
    }
    assert(views(a@) =~= views(b@));
    true
}

/// Whether two profiles say the same.
pub fn same_profile(a: &Profile, b: &Profile) -> (r: bool)
    ensures
        r == (a@ == b@),
{
    if a.frame_intern.len() != b.frame_intern.len() {
        assert(a@.frames.len() != b@.frames.len());
        return false;
    }
    for i in 0..a.frame_intern.len()
        invariant
            a.frame_intern.len() == b.frame_intern.len(),
            forall|j: int|
                0 <= j < i ==> (#[trigger] a.frame_intern@[j])@ == b.frame_intern@[j]@,
    {
        if !a.frame_intern[i].same(&b.frame_intern[i]) {
            assert(a@.frames[i as int] != b@.frames[i as int]);
            return false;
        }
    }
    assert(a@.frames =~= b@.frames);
    same_samples(&a.samples, &b.samples) && same_kinds(&a.value_kinds, &b.value_kinds)
}

/// Probes arbitrary bytes with a format.
///
/// Probing is a best-effort inspection of untrusted bytes: any bytes and any
/// file name have an answer. `filename` also drives the extension-sniffing
/// path.
pub fn check_probe<F: InputFormat>(format: &F, filename: Option<&str>, buf: &[u8]) -> (r: Confidence)
    ensures
        r == format.likeness(
            ProbeView {
                filename: match filename {
                    Some(name) => Some(name@),
                    None => None,
                },
                buf: buf@,
            },
        ),
{
    let data = ProbeData { filename, buf };
    format.probe(&data)
}

/// Reads arbitrary bytes with a format, and says what is wrong with the
/// outcome.
///
/// A format either rejects the bytes with an error or returns a profile that
/// passes [`Profile::validate`]. Reading is also required to be deterministic,
/// which every [`InputFormat`] is that keeps to its contract.
pub fn check_read<F: InputFormat>(format: &F, buf: &[u8]) -> (r: std::result::Result<(), String>)
    ensures
        match r {
            Ok(_) => complaint(format, buf@) is None,
            Err(text) => complaint(format, buf@) == Some(text@),
        },
        r is Ok <==> (format.meaning(buf@) matches Ok(profile) ==> profile.valid()),
{
    let profile = match format.read(buf) {
        Ok(profile) => profile,
        Err(_) => return Ok(()),
    };
    match profile.validate() {
        Ok(_) => {},
        Err(error) => {
            let mut text: String = "format '".to_owned();
            text.push_str(format.name());
            text.push_str("' produced an invalid profile: ");
            text.push_str(error.message().as_str());
            assert(text@ =~= invalid_complaint(format.in_name(), error@));
            return Err(text);
        },
    }
    // Parsing identical bytes twice must yield an identical profile.
    match format.read(buf) {
        Ok(second) => {
            if !same_profile(&profile, &second) {
                let mut text: String = "format '".to_owned();
                text.push_str(format.name());
                text.push_str("' parsed identical input into different profiles");
                return Err(text);
            }
            Ok(())
        },
        Err(error) => {
            let mut text: String = "format '".to_owned();
            text.push_str(format.name());
            text.push_str("' parsed input once but failed on the identical retry: ");
            text.push_str(error.message().as_str());
            Err(text)
        },
    }
}

/// Runs both [`check_probe`] and [`check_read`] for a format.
pub fn check_all<F: InputFormat>(format: &F, filename: Option<&str>, buf: &[u8]) -> (r:
    std::result::Result<Confidence, String>)
    ensures
        match r {
            Ok(confidence) => {
                &&& complaint(format, buf@) is None
                &&& confidence == format.likeness(
                    ProbeView {
                        filename: match filename {
                            Some(name) => Some(name@),
                            None => None,
                        },
                        buf: buf@,
                    },
                )
            },
            Err(text) => complaint(format, buf@) == Some(text@),
        },
{
    let confidence = check_probe(format, filename, buf);
    match check_read(format, buf) {
        Ok(_) => Ok(confidence),
        Err(text) => Err(text),
    }
}

/// Whatever bytes a format that profcast ships is given, it rejects them or
/// reads a valid profile.
pub proof fn law_shipped_formats_read_valid_profiles(format: AnyInput, input: Seq<u8>)
    requires
        !(format is Other),
    ensures
        format.meaning(input) matches Ok(profile) ==> profile.valid(),
{
    match format {
        AnyInput::Folded(_) => {
            law_folded_reads_valid_profiles(input);
        },
        AnyInput::Pprof(_) => {
            if let Some(bytes) = payload(input) {
                law_pprof_reads_valid_profiles(bytes);
            }
        },
        AnyInput::ChromeTrace(_) => {
            if let Some(value) = json_parse(input) {
                law_chrome_reads_valid_profiles(value);
            }
        },
        AnyInput::Other(_) => {},
    }
}

} // verus!

//! Reading a profile from bytes and writing it to bytes, with the formats
//! chosen by name, by file extension or by looking at the content.

use vstd::prelude::*;

use crate::capture::{
    ask_available, ask_capture, ask_name, delivers, gives_answer, gives_name, texts, told_name,
    CaptureSpec, Source, Sources, Target, TargetView,
};
use crate::error::{outcome, ErrorView, ProfcastError};
use crate::format::{ProbeData, ProbeView, WriteOptions};
use crate::json_format::json_profile;
use crate::model::{Profile, ProfileView};
use crate::path::{extension, extension_of};
use crate::registry::{best_match, input_named, output_for, output_named, AnyInput, AnyOutput, Registry};
use crate::text::same_text;

verus! {

/// Why a request could not be carried out.
#[derive(Debug)]
pub enum Failure {
    /// No input format has the requested name.
    UnknownInput(String),
    /// No input format resembles the input.
    Undetected,
    /// The input is not what its format has.
    Unreadable {
        /// The name of the format.
        format: &'static str,
        /// What is wrong with the input.
        error: ProfcastError,
    },
    /// No output format has the requested name.
    UnknownOutput(String),
    /// The output format to fall back to is missing.
    NoDefaultOutput,
    /// The profile cannot be written in the format.
    Unwritable {
        /// The name of the format.
        format: &'static str,
        /// What is wrong with the profile.
        error: ProfcastError,
    },
    /// The JSON format that a dump is written in is missing.
    NoJson,
    /// The profile cannot be dumped.
    Unserialized(ProfcastError),
    /// The command line of a program to launch cannot be split into words.
    BadCommandLine,
    /// Nothing was named to be profiled.
    NoTarget,
    /// No capture source has the requested name.
    UnknownSource(String),
    /// No capture source can run on this host.
    NoSource,
    /// The capture source with this name cannot run on this host.
    Unavailable(&'static str),
    /// Sampling failed.
    Uncaptured {
        /// The name of the capture source.
        source: &'static str,
        /// What went wrong.
        error: ProfcastError,
    },
}

/// What a [`Failure`] says.
pub enum FailureView {
    UnknownInput(Seq<char>),
    Undetected,
    Unreadable { format: Seq<char>, error: ErrorView },
    UnknownOutput(Seq<char>),
    NoDefaultOutput,
    Unwritable { format: Seq<char>, error: ErrorView },
    NoJson,
    Unserialized(ErrorView),
    BadCommandLine,
    NoTarget,
    UnknownSource(Seq<char>),
    NoSource,
    Unavailable(Seq<char>),
    Uncaptured { source: Seq<char>, error: ErrorView },
}

impl View for Failure {
    type V = FailureView;

    open spec fn view(&self) -> FailureView {
        match self {
            Failure::UnknownInput(name) => FailureView::UnknownInput(name@),
            Failure::Undetected => FailureView::Undetected,
            Failure::Unreadable { format, error } => FailureView::Unreadable {
                format: format@,
                error: error@,
            },
            Failure::UnknownOutput(name) => FailureView::UnknownOutput(name@),
            Failure::NoDefaultOutput => FailureView::NoDefaultOutput,
            Failure::Unwritable { format, error } => FailureView::Unwritable {
                format: format@,
                error: error@,
            },
            Failure::NoJson => FailureView::NoJson,
            Failure::Unserialized(error) => FailureView::Unserialized(error@),
            Failure::BadCommandLine => FailureView::BadCommandLine,
            Failure::NoTarget => FailureView::NoTarget,
            Failure::UnknownSource(name) => FailureView::UnknownSource(name@),
            Failure::NoSource => FailureView::NoSource,
            Failure::Unavailable(name) => FailureView::Unavailable(name@),
            Failure::Uncaptured { source, error } => FailureView::Uncaptured {
                source: source@,
                error: error@,
            },
        }
    }
}

impl FailureView {
    /// The text of a failure for a reader, without its cause.
    pub open spec fn message(self) -> Seq<char> {
        match self {
            FailureView::UnknownInput(name) => "unknown input format '"@ + name + "'"@,
            FailureView::Undetected => "could not detect input format; specify it with --from"@,
            FailureView::Unreadable { format, .. } => "failed to parse input as '"@ + format
                + "'"@,
            FailureView::UnknownOutput(name) => "unknown output format '"@ + name + "'"@,
            FailureView::NoDefaultOutput => "default output format 'json' is not registered"@,
            FailureView::Unwritable { format, .. } => "failed to encode profile as '"@ + format
                + "'"@,
            FailureView::NoJson => "json output format is not registered"@,
            FailureView::Unserialized(_) => "failed to serialize profile"@,
            FailureView::BadCommandLine => "could not parse --program command line"@,
            FailureView::NoTarget =>
                "choose a target: --pid <PID>, --self, or --program \"<cmd>\""@,
            FailureView::UnknownSource(name) => "unknown capture source '"@ + name + "'"@,
            FailureView::NoSource => "no capture backend is available on this platform"@,
            FailureView::Unavailable(name) => "capture source '"@ + name
                + "' is not available on this host (check permissions / platform support)"@,
            FailureView::Uncaptured { source, .. } => "capture with '"@ + source + "' failed"@,
        }
    }
}

fn quoted(head: &str, name: &str, tail: &str) -> (r: String)
    ensures
        r@ == head@ + name@ + tail@,
{
    let mut out: String = head.to_owned();
    out.push_str(name);
    out.push_str(tail);
    out
}

impl Failure {
    /// The text of a failure for a reader, without its cause.
    pub fn message(&self) -> (r: String)
        ensures
            r@ == self@.message(),
    {
        match self {
            Failure::UnknownInput(name) => quoted("unknown input format '", name.as_str(), "'"),
            Failure::Undetected =>
                "could not detect input format; specify it with --from".to_owned(),
            Failure::Unreadable { format, .. } => quoted("failed to parse input as '", format, "'"),
            Failure::UnknownOutput(name) => quoted("unknown output format '", name.as_str(), "'"),
            Failure::NoDefaultOutput => "default output format 'json' is not registered".to_owned(),
            Failure::Unwritable { format, .. } => quoted(
                "failed to encode profile as '",
                format,
                "'",
            ),
            Failure::NoJson => "json output format is not registered".to_owned(),
            Failure::Unserialized(_) => "failed to serialize profile".to_owned(),
            Failure::BadCommandLine => "could not parse --program command line".to_owned(),
            Failure::NoTarget =>
                "choose a target: --pid <PID>, --self, or --program \"<cmd>\"".to_owned(),
            Failure::UnknownSource(name) => quoted("unknown capture source '", name.as_str(), "'"),
            Failure::NoSource => "no capture backend is available on this platform".to_owned(),
            Failure::Unavailable(name) => quoted(
                "capture source '",
                name,
                "' is not available on this host (check permissions / platform support)",
            ),
            Failure::Uncaptured { source, .. } => quoted("capture with '", source, "' failed"),
        }
    }

    /// The error that led to a failure, where there is one.
    pub fn cause(&self) -> (r: Option<&ProfcastError>)
        ensures
            match (r, self) {
                (Some(e), Failure::Unreadable { error, .. }) => *e == *error,
                (Some(e), Failure::Unwritable { error, .. }) => *e == *error,
                (Some(e), Failure::Unserialized(error)) => *e == *error,
                (Some(e), Failure::Uncaptured { error, .. }) => *e == *error,
                (Some(_), _) => false,
                (None, failure) => !(failure is Unreadable || failure is Unwritable
                    || failure is Unserialized || failure is Uncaptured),
            },
    {
        match self {
            Failure::Unreadable { error, .. } => Some(error),
            Failure::Unwritable { error, .. } => Some(error),
            Failure::Unserialized(error) => Some(error),
            Failure::Uncaptured { error, .. } => Some(error),
            _ => None,
        }
    }
}

/// What a request came to: what it returned, or what its failure says.
pub open spec fn result<T: View>(r: std::result::Result<T, Failure>) -> std::result::Result<
    T::V,
    FailureView,
> {
    match r {
        Ok(value) => Ok(value@),
        Err(failure) => Err(failure@),
    }
}

/// The text of an optional word.
pub open spec fn opt_word(word: Option<&str>) -> Option<Seq<char>> {
    match word {
        Some(text) => Some(text@),
        None => None,
    }
}

/// The extension of the file that is written: none for standard output (`-`).
pub open spec fn extension_out(path: Seq<char>) -> Option<Seq<char>> {
    if path == "-"@ {
        None
    } else {
        extension(path)
    }
}

/// Returns the file extension of `path`, or `None` for stdout (`-`) or a path
/// without one.
pub fn output_extension(path: &str) -> (r: Option<String>)
    ensures
        match r {
            Some(text) => extension_out(path@) == Some(text@),
            None => extension_out(path@) is None,
        },
{
    if same_text(path, "-") {
        return None;
    }
    extension_of(path)
}

/// What is known of an input before it is read: its bytes, and its path where
/// it is a real file.
pub open spec fn evidence(input: Seq<char>, bytes: Seq<u8>) -> ProbeView {
    ProbeView {
        filename: if input == "-"@ {
            None
        } else {
            Some(input)
        },
        buf: bytes,
    }
}

/// The format that an input is read in: the one that was asked for, or the one
/// that the input resembles most.
pub open spec fn input_choice(
    inputs: Seq<AnyInput>,
    input: Seq<char>,
    from: Option<Seq<char>>,
    bytes: Seq<u8>,
) -> std::result::Result<AnyInput, FailureView> {
    match from {
        Some(name) => match input_named(inputs, name) {
            Some(format) => Ok(format),
            None => Err(FailureView::UnknownInput(name)),
        },
        None => match best_match(inputs, evidence(input, bytes)) {
            Some(at) => Ok(inputs[at]),
            None => Err(FailureView::Undetected),
        },
    }
}

/// What an input says.
pub open spec fn loaded(
    inputs: Seq<AnyInput>,
    input: Seq<char>,
    from: Option<Seq<char>>,
    bytes: Seq<u8>,
) -> std::result::Result<ProfileView, FailureView> {
    match input_choice(inputs, input, from, bytes) {
        Ok(format) => match format.meaning(bytes) {
            Ok(profile) => Ok(profile),
            Err(error) => Err(FailureView::Unreadable { format: format.in_name(), error }),
        },
        Err(failure) => Err(failure),
    }
}

/// Picks the format of an input: an explicit name wins, otherwise the content
/// is probed, with the path as a hint where it is a real file.
pub fn resolve_input<'a>(
    registry: &'a Registry,
    input: &str,
    from: Option<&str>,
    bytes: &[u8],
) -> (r: std::result::Result<&'a AnyInput, Failure>)
    ensures
        match r {
            Ok(format) => input_choice(registry.input_formats(), input@, opt_word(from), bytes@)
                == Ok::<AnyInput, FailureView>(*format),
            Err(failure) => input_choice(registry.input_formats(), input@, opt_word(from), bytes@)
                == Err::<AnyInput, FailureView>(failure@),
        },
{
    match from {
        Some(name) => match registry.by_name(name) {
            Some(format) => Ok(format),
            None => Err(Failure::UnknownInput(name.to_owned())),
        },
        None => {
            let filename: Option<&str> = if same_text(input, "-") {
                None
            } else {
                Some(input)
            };
            let data = ProbeData { filename, buf: bytes };
            match registry.probe(&data) {
                Some(found) => Ok(found.format),
                None => Err(Failure::Undetected),
            }
        },
    }
}

/// Detects the format of an input (via `from` or probing), and parses its bytes
/// into the internal [`Profile`] model.
pub fn load_profile(registry: &Registry, input: &str, from: Option<&str>, bytes: &[u8]) -> (r:
    std::result::Result<Profile, Failure>)
    ensures
        result(r) == loaded(registry.input_formats(), input@, opt_word(from), bytes@),
{
    match resolve_input(registry, input, from, bytes) {
        Err(failure) => Err(failure),
        Ok(format) => match format.read(bytes) {
            Ok(profile) => Ok(profile),
            Err(error) => Err(Failure::Unreadable { format: format.name(), error }),
        },
    }
}

/// The format that an output is written in: the one that was asked for, or the
/// one that the extension of the output selects, or JSON.
pub open spec fn output_choice(
    outputs: Seq<AnyOutput>,
    output: Seq<char>,
    to: Option<Seq<char>>,
) -> std::result::Result<AnyOutput, FailureView> {
    match to {
        Some(name) => match output_named(outputs, name) {
            Some(format) => Ok(format),
            None => Err(FailureView::UnknownOutput(name)),
        },
        None => {
            let selected = match extension_out(output) {
                Some(ext) => output_for(outputs, ext),
                None => None,
            };
            match selected {
                Some(format) => Ok(format),
                None => match output_named(outputs, "json"@) {
                    Some(format) => Ok(format),
                    None => Err(FailureView::NoDefaultOutput),
                },
            }
        },
    }
}

/// Picks the output format: an explicit name wins, otherwise it is inferred
/// from the output path's extension, falling back to JSON.
pub fn resolve_output<'a>(registry: &'a Registry, output: &str, to: Option<&str>) -> (r:
    std::result::Result<&'a AnyOutput, Failure>)
    ensures
        match r {
            Ok(format) => output_choice(registry.output_formats(), output@, opt_word(to)) == Ok::<
                AnyOutput,
                FailureView,
            >(*format),
            Err(failure) => output_choice(registry.output_formats(), output@, opt_word(to))
                == Err::<AnyOutput, FailureView>(failure@),
        },
{
    if let Some(name) = to {
        return match registry.output_by_name(name) {
            Some(format) => Ok(format),
            None => Err(Failure::UnknownOutput(name.to_owned())),
        };
    }
    if let Some(ext) = output_extension(output) {
        if let Some(format) = registry.output_by_extension(ext.as_str()) {
            return Ok(format);
        }
    }
    match registry.output_by_name("json") {
        Some(format) => Ok(format),
        None => Err(Failure::NoDefaultOutput),
    }
}

/// The extension of `output` where it says nothing: no name was asked for, and
/// no format lists the extension. Falling back to JSON is worth a warning then,
/// since an unrecognized extension almost always means that the user wanted a
/// different format.
pub fn unrecognized_extension(registry: &Registry, output: &str, to: Option<&str>) -> (r: Option<
    String,
>)
    ensures
        match r {
            Some(text) => {
                &&& to is None
                &&& extension_out(output@) == Some(text@)
                &&& output_for(registry.output_formats(), text@) is None
            },
            None => to is None ==> (extension_out(output@) matches Some(ext) ==> output_for(
                registry.output_formats(),
                ext,
            ) is Some),
        },
{
    if to.is_some() {
        return None;
    }
    match output_extension(output) {
        Some(ext) => {
            if registry.output_by_extension(ext.as_str()).is_some() {
                None
            } else {
                Some(ext)
            }
        },
        None => None,
    }
}

/// The bytes of a profile in the format of an output.
pub open spec fn written(
    outputs: Seq<AnyOutput>,
    output: Seq<char>,
    to: Option<Seq<char>>,
    profile: ProfileView,
) -> std::result::Result<Seq<u8>, FailureView> {
    match output_choice(outputs, output, to) {
        Ok(format) => match format.rendering(profile, WriteOptions { pretty: true }) {
            Ok(bytes) => Ok(bytes),
            Err(error) => Err(FailureView::Unwritable { format: format.out_name(), error }),
        },
        Err(failure) => Err(failure),
    }
}

/// Whether what was written of a profile gives it back as far as the format of
/// the output does.
pub open spec fn written_keeps(
    outputs: Seq<AnyOutput>,
    output: Seq<char>,
    to: Option<Seq<char>>,
    profile: ProfileView,
    bytes: Seq<u8>,
) -> bool {
    output_choice(outputs, output, to) matches Ok(format) ==> format.keeps(profile, bytes)
}

/// Writes a profile in the format of an output.
pub fn encode_output(registry: &Registry, output: &str, to: Option<&str>, profile: &Profile) -> (r:
    std::result::Result<Vec<u8>, Failure>)
    ensures
        result(r) == written(registry.output_formats(), output@, opt_word(to), profile@),
        r matches Ok(bytes) ==> written_keeps(
            registry.output_formats(),
            output@,
            opt_word(to),
            profile@,
            bytes@,
        ),
{
    match resolve_output(registry, output, to) {
        Err(failure) => Err(failure),
        Ok(format) => match format.write(profile, WriteOptions { pretty: true }) {
            Ok(bytes) => Ok(bytes),
            Err(error) => Err(Failure::Unwritable { format: format.name(), error }),
        },
    }
}

/// The bytes that an input is converted to.
pub open spec fn converted(
    inputs: Seq<AnyInput>,
    outputs: Seq<AnyOutput>,
    input: Seq<char>,
    output: Seq<char>,
    from: Option<Seq<char>>,
    to: Option<Seq<char>>,
    bytes: Seq<u8>,
) -> std::result::Result<Seq<u8>, FailureView> {
    match loaded(inputs, input, from, bytes) {
        Ok(profile) => written(outputs, output, to, profile),
        Err(failure) => Err(failure),
    }
}

/// Reads a profile and transcodes it to another representation.
///
/// What is written gives back the profile that was read, as far as the format
/// of the output does.
pub fn convert(
    registry: &Registry,
    input: &str,
    output: &str,
    from: Option<&str>,
    to: Option<&str>,
    bytes: &[u8],
) -> (r: std::result::Result<Vec<u8>, Failure>)
    ensures
        result(r) == converted(
            registry.input_formats(),
            registry.output_formats(),
            input@,
            output@,
            opt_word(from),
            opt_word(to),
            bytes@,
        ),
        r matches Ok(out) ==> written_keeps(
            registry.output_formats(),
            output@,
            opt_word(to),
            loaded(registry.input_formats(), input@, opt_word(from), bytes@)->Ok_0,
            out@,
        ),
{
    match load_profile(registry, input, from, bytes) {
        Err(failure) => Err(failure),
        Ok(profile) => encode_output(registry, output, to, &profile),
    }
}

/// The dump of an input: its profile as JSON, and the end of the line.
pub open spec fn dumped(
    inputs: Seq<AnyInput>,
    outputs: Seq<AnyOutput>,
    input: Seq<char>,
    from: Option<Seq<char>>,
    compact: bool,
    bytes: Seq<u8>,
) -> std::result::Result<Seq<u8>, FailureView> {
    match loaded(inputs, input, from, bytes) {
        Ok(profile) => match output_named(outputs, "json"@) {
            Some(format) => match format.rendering(profile, WriteOptions { pretty: !compact }) {
                Ok(text) => Ok(text.push(0x0a)),
                Err(error) => Err(FailureView::Unserialized(error)),
            },
            None => Err(FailureView::NoJson),
        },
        Err(failure) => Err(failure),
    }
}

/// Reads a profile and renders its parsed internal model as JSON.
///
/// With the shipped JSON format the dump, up to the end of its last line, reads
/// back as the profile, and a compact dump is a single line.
pub fn dump(registry: &Registry, input: &str, from: Option<&str>, compact: bool, bytes: &[u8]) -> (r:
    std::result::Result<Vec<u8>, Failure>)
    ensures
        result(r) == dumped(
            registry.input_formats(),
            registry.output_formats(),
            input@,
            opt_word(from),
            compact,
            bytes@,
        ),
        r matches Ok(out) ==> {
            &&& out@.len() > 0
            &&& out@.last() == 0x0a
            &&& output_named(registry.output_formats(), "json"@)->0 is Json ==> (
            out@.drop_last().contains(0x0a) <==> !compact)
            &&& output_named(registry.output_formats(), "json"@)->0 is Json ==> json_profile(
                out@.drop_last(),
            ) == Some(
                loaded(registry.input_formats(), input@, opt_word(from), bytes@)->Ok_0,
            )
        },
{
    let profile = match load_profile(registry, input, from, bytes) {
        Err(failure) => return Err(failure),
        Ok(profile) => profile,
    };
    let format = match registry.output_by_name("json") {
        None => return Err(Failure::NoJson),
        Some(format) => format,
    };
    match format.write(&profile, WriteOptions { pretty: !compact }) {
        Ok(text) => {
            let mut encoded: Vec<u8> = text;
            // Terminate with a newline so terminal output and pipes stay tidy.
            encoded.push(0x0a);
            assert(encoded@.drop_last() =~= text@);
            Ok(encoded)
        },
        Err(error) => Err(Failure::Unserialized(error)),
    }
}

/// The words of a command line, as `shlex::split` splits it.
pub uninterp spec fn shell_words(line: Seq<char>) -> Option<Seq<Seq<char>>>;

/// Splits a command line into words by `shlex::split`: the rules of a POSIX
/// shell for blanks, quotes, backslashes and comments, which rest on the text
/// of the line alone. `None` where a quote or a backslash is left open.
#[verifier::external_body]
fn split_words(line: &str) -> (r: Option<Vec<String>>)
    ensures
        match r {
            Some(words) => shell_words(line@) == Some(texts(words@)),
            None => shell_words(line@) is None,
        },
{
    shlex::split(line)
}

/// The program and arguments in the words of a command line; there has to be a
/// program.
pub open spec fn command_of(words: Option<Seq<Seq<char>>>) -> std::result::Result<
    TargetView,
    FailureView,
> {
    match words {
        Some(argv) => if argv.len() > 0 {
            Ok(TargetView::Command(argv))
        } else {
            Err(FailureView::BadCommandLine)
        },
        None => Err(FailureView::BadCommandLine),
    }
}

/// Makes a target of the words of a command line.
pub fn command_target(words: Option<Vec<String>>) -> (r: std::result::Result<Target, Failure>)
    ensures
        result(r) == command_of(
            match words {
                Some(argv) => Some(texts(argv@)),
                None => None,
            },
        ),
{
    match words {
        Some(argv) => {
            if argv.len() > 0 {
                Ok(Target::Command(argv))
            } else {
                Err(Failure::BadCommandLine)
            }
        },
        None => Err(Failure::BadCommandLine),
    }
}

/// What is to be profiled: a process by its id, else this process, else a
/// program to launch.
pub open spec fn target_choice(
    pid: Option<u32>,
    self_target: bool,
    program: Option<Seq<char>>,
) -> std::result::Result<TargetView, FailureView> {
    match pid {
        Some(pid) => Ok(TargetView::Pid(pid)),
        None => if self_target {
            Ok(TargetView::Current)
        } else {
            match program {
                Some(line) => command_of(shell_words(line)),
                None => Err(FailureView::NoTarget),
            }
        },
    }
}

/// Decides what is to be profiled.
pub fn choose_target(pid: Option<u32>, self_target: bool, program: Option<&str>) -> (r:
    std::result::Result<Target, Failure>)
    ensures
        result(r) == target_choice(pid, self_target, opt_word(program)),
{
    match pid {
        Some(pid) => Ok(Target::Pid(pid)),
        None => {
            if self_target {
                return Ok(Target::Current);
            }
            match program {
                Some(line) => command_target(split_words(line)),
                None => Err(Failure::NoTarget),
            }
        },
    }
}

/// Accepts a capture source for which the host answered whether it can run.
pub fn admit_source(name: &'static str, available: bool) -> (r: std::result::Result<(), Failure>)
    ensures
        result(r) == (if available {
            Ok(())
        } else {
            Err(FailureView::Unavailable(name@))
        }),
{
    if available {
        Ok(())
    } else {
        Err(Failure::Unavailable(name))
    }
}

/// Whether the source at a place is the one that a request is about: the first
/// with the requested name, else the first that said it can run.
pub open spec fn looked_up(
    listed: Seq<Box<dyn Source>>,
    name: Option<Seq<char>>,
    at: int,
) -> bool {
    &&& 0 <= at < listed.len()
    &&& match name {
        Some(text) => told_name::<dyn Source>(&*listed[at], text, true) && forall|j: int|
            0 <= j < at ==> told_name::<dyn Source>(&*#[trigger] listed[j], text, false),
        None => gives_answer::<dyn Source>(&*listed[at], true) && forall|j: int|
            0 <= j < at ==> gives_answer::<dyn Source>(&*#[trigger] listed[j], false),
    }
}

/// Whether the source at a place is the one a request is about, and said that
/// it can run.
pub open spec fn chosen(listed: Seq<Box<dyn Source>>, name: Option<Seq<char>>, at: int) -> bool {
    looked_up(listed, name, at) && gives_answer::<dyn Source>(&*listed[at], true)
}

/// Whether a failure is what a request for a source can have come to: no source
/// said it has the requested name, or none said it can run, or the one that the
/// request is about said it cannot.
pub open spec fn no_source(
    listed: Seq<Box<dyn Source>>,
    name: Option<Seq<char>>,
    failure: FailureView,
) -> bool {
    match failure {
        FailureView::UnknownSource(text) => name == Some(text) && forall|j: int|
            0 <= j < listed.len() ==> told_name::<dyn Source>(&*#[trigger] listed[j], text, false),
        FailureView::NoSource => name is None && forall|j: int|
            0 <= j < listed.len() ==> gives_answer::<dyn Source>(&*#[trigger] listed[j], false),
        FailureView::Unavailable(called) => exists|at: int| #[trigger]
            looked_up(listed, name, at) && gives_answer::<dyn Source>(&*listed[at], false)
                && told_name::<dyn Source>(&*listed[at], called, true),
        _ => false,
    }
}

/// Picks the capture source: the one with the requested name, else the first
/// that can run on this host, and only if it can.
///
/// What the sources are called and whether one can run is theirs to say.
pub fn choose_source<'a>(sources: &'a Sources, name: Option<&str>) -> (r: std::result::Result<
    &'a Box<dyn Source>,
    Failure,
>)
    ensures
        match r {
            Ok(source) => exists|at: int| #[trigger]
                chosen(sources.listed(), opt_word(name), at) && *source == sources.listed()[at],
            Err(failure) => no_source(sources.listed(), opt_word(name), failure@),
        },
{
    let ghost listed = sources.listed();
    let ghost asked = opt_word(name);
    let source = match name {
        Some(text) => match sources.by_name(text) {
            Some(source) => source,
            None => return Err(Failure::UnknownSource(text.to_owned())),
        },
        None => match sources.available() {
            Some(source) => source,
            None => return Err(Failure::NoSource),
        },
    };
    let ghost at = choose|at: int|
        0 <= at < listed.len() && *source == listed[at] && looked_up(listed, asked, at);
    assert(looked_up(listed, asked, at) && *source == listed[at]) by {
        match name {
            Some(text) => {
                let k = choose|k: int|
                    {
                        &&& 0 <= k < listed.len()
                        &&& *source == #[trigger] listed[k]
                        &&& told_name::<dyn Source>(&*listed[k], text@, true)
                        &&& forall|j: int|
                            0 <= j < k ==> told_name::<dyn Source>(
                                &*#[trigger] listed[j],
                                text@,
                                false,
                            )
                    };
                assert(looked_up(listed, asked, k));
            },
            None => {
                let k = choose|k: int|
                    {
                        &&& 0 <= k < listed.len()
                        &&& *source == #[trigger] listed[k]
                        &&& gives_answer::<dyn Source>(&*listed[k], true)
                        &&& forall|j: int|
                            0 <= j < k ==> gives_answer::<dyn Source>(
                                &*#[trigger] listed[j],
                                false,
                            )
                    };
                assert(looked_up(listed, asked, k));
            },
        }
    }
    let name = ask_name::<dyn Source>(&**source);
    match admit_source(name, ask_available::<dyn Source>(&**source)) {
        Ok(_) => {
            assert(chosen(listed, asked, at));
            Ok(source)
        },
        Err(failure) => {
            assert(told_name::<dyn Source>(&*listed[at], name@, true));
            Err(failure)
        },
    }
}

/// What is written of a recording, or the failure of it.
pub open spec fn recorded(
    outputs: Seq<AnyOutput>,
    output: Seq<char>,
    to: Option<Seq<char>>,
    source: Seq<char>,
    capture: std::result::Result<ProfileView, ErrorView>,
) -> std::result::Result<Seq<u8>, FailureView> {
    match capture {
        Ok(profile) => written(outputs, output, to, profile),
        Err(error) => Err(FailureView::Uncaptured { source, error }),
    }
}

/// Writes what a capture source delivered in the format of an output.
pub fn write_recording(
    registry: &Registry,
    output: &str,
    to: Option<&str>,
    source: &'static str,
    capture: crate::error::Result<Profile>,
) -> (r: std::result::Result<Vec<u8>, Failure>)
    ensures
        result(r) == recorded(
            registry.output_formats(),
            output@,
            opt_word(to),
            source@,
            outcome(capture),
        ),
{
    match capture {
        Ok(profile) => encode_output(registry, output, to, &profile),
        Err(error) => Err(Failure::Uncaptured { source, error }),
    }
}

/// Whether a capture is by what was asked for.
pub open spec fn asks(
    spec: CaptureSpec,
    target: TargetView,
    frequency_hz: u32,
    duration: Option<std::time::Duration>,
) -> bool {
    spec.target@ == target && spec.frequency_hz == frequency_hz && spec.duration == duration
}

/// Samples a running process (or this one) into a profile and renders it for
/// an output.
///
/// A target that cannot be made out is refused before anything is sampled.
/// Otherwise there is no source for the request, or the chosen one captured the
/// target at the requested rate for the requested time, and what is returned is
/// what becomes of that capture. What a source delivers rests on the host;
/// [`write_recording`] says what becomes of each delivery.
pub fn record(
    registry: &Registry,
    sources: &Sources,
    output: &str,
    pid: Option<u32>,
    self_target: bool,
    program: Option<&str>,
    frequency_hz: u32,
    duration: Option<std::time::Duration>,
    source: Option<&str>,
    to: Option<&str>,
) -> (r: std::result::Result<Vec<u8>, Failure>)
    ensures
        match target_choice(pid, self_target, opt_word(program)) {
            Err(failure) => result(r) == Err::<Seq<u8>, FailureView>(failure),
            Ok(target) => {
                ||| r matches Err(failure) && no_source(
                    sources.listed(),
                    opt_word(source),
                    failure@,
                )
                ||| exists|
                    at: int,
                    spec: CaptureSpec,
                    capture: crate::error::Result<Profile>,
                    called: &'static str,
                |
                    {
                        &&& chosen(sources.listed(), opt_word(source), at)
                        &&& asks(spec, target, frequency_hz, duration)
                        &&& #[trigger] delivers::<dyn Source>(
                            &*sources.listed()[at],
                            &spec,
                            capture,
                        )
                        &&& #[trigger] gives_name::<dyn Source>(&*sources.listed()[at], called)
                        &&& result(r) == recorded(
                            registry.output_formats(),
                            output@,
                            opt_word(to),
                            called@,
                            outcome(capture),
                        )
                    }
            },
        },
{
    let target = match choose_target(pid, self_target, program) {
        Ok(target) => target,
        Err(failure) => return Err(failure),
    };
    let backend = match choose_source(sources, source) {
        Ok(backend) => backend,
        Err(failure) => return Err(failure),
    };
    let ghost at = choose|at: int| #[trigger]
        chosen(sources.listed(), opt_word(source), at) && *backend == sources.listed()[at];
    let spec = CaptureSpec { target, frequency_hz, duration };
    let capture = ask_capture::<dyn Source>(&**backend, &spec);
    let name = ask_name::<dyn Source>(&**backend);
    assert(delivers::<dyn Source>(&*sources.listed()[at], &spec, capture));
    assert(gives_name::<dyn Source>(&*sources.listed()[at], name));
    write_recording(registry, output, to, name, capture)
}

/// The log level that a number of `-v` flags asks for.
pub fn log_level(verbose: u8) -> (r: &'static str)
    ensures
        r@ == (if verbose == 0 {
            "warn"@
        } else if verbose == 1 {
            "info"@
        } else if verbose == 2 {
            "debug"@
        } else {
            "trace"@
        }),
{
    match verbose {
        0 => "warn",
        1 => "info",
        2 => "debug",
        _ => "trace",
    }
}

} // verus!

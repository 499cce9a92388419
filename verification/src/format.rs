//! Traits / format agnostic helpers that are used to probe for different
//! formats / obtain information about an arbitrary file.

use vstd::prelude::*;

use crate::error::{outcome, ErrorView, Result};
use crate::model::{Profile, ProfileView};
use crate::path::{extension, extension_of, is_listed, listed, word_list};

verus! {

/// Describes how confident we are that a probe describes a specific format.
#[derive(Debug, Clone, Copy, PartialEq, Eq, PartialOrd, Ord, Structural)]
pub enum Confidence {
    /// Something is completely wrong and we are positive the format does not
    /// match.
    NoMatch,
    /// Generic loosely fitting signal, literally could be that the format
    /// expects UTF-8 and the passed data was UTF-8, that's the level this
    /// describes.
    Weak,
    /// File extension matches and the content isn't obviously broken.
    Extension,
    /// Strong match, the leading bytes obey the format's grammar.
    Likely,
    /// Completely positive - stuff like magic bytes matching etc.
    Certain,
}

impl Confidence {
    /// The place of a level in the order from no match to a certain one.
    pub open spec fn level(self) -> int {
        match self {
            Confidence::NoMatch => 0,
            Confidence::Weak => 1,
            Confidence::Extension => 2,
            Confidence::Likely => 3,
            Confidence::Certain => 4,
        }
    }

    /// The stronger of two levels.
    pub open spec fn stronger(self, other: Confidence) -> Confidence {
        if other.level() > self.level() {
            other
        } else {
            self
        }
    }

    /// The place of a level in the order from no match to a certain one.
    pub fn rank(self) -> (r: u8)
        ensures
            r == self.level(),
    {
        match self {
            Confidence::NoMatch => 0,
            Confidence::Weak => 1,
            Confidence::Extension => 2,
            Confidence::Likely => 3,
            Confidence::Certain => 4,
        }
    }
}

/// This is the data passed for probing, currently is just filename (potential
/// heuristics) and leading bytes.
#[derive(Debug, Clone, Copy)]
pub struct ProbeData<'a> {
    /// Probed filename incase it was given (we allow arbitrary byte streams so
    /// it won't necessarily have one). A path has `/` between its components;
    /// where the platform has others, the caller hands over the last component.
    pub filename: Option<&'a str>,
    /// Leading bytes, like a header. Could be entire file.
    pub buf: &'a [u8],
}

/// What the data passed for probing holds.
pub struct ProbeView {
    pub filename: Option<Seq<char>>,
    pub buf: Seq<u8>,
}

impl<'a> View for ProbeData<'a> {
    type V = ProbeView;

    open spec fn view(&self) -> ProbeView {
        ProbeView {
            filename: match self.filename {
                Some(name) => Some(name@),
                None => None,
            },
            buf: self.buf@,
        }
    }
}

/// Whether the file name ends in one of `extensions`.
pub open spec fn named_like(filename: Option<Seq<char>>, extensions: Seq<Seq<char>>) -> bool {
    filename matches Some(name) && extension(name) matches Some(ext) && listed(extensions, ext)
}

/// `content`, raised to [`Confidence::Extension`] where the file name ends in
/// one of `extensions`.
pub open spec fn weigh_name(
    content: Confidence,
    filename: Option<Seq<char>>,
    extensions: Seq<Seq<char>>,
) -> Confidence {
    if named_like(filename, extensions) {
        content.stronger(Confidence::Extension)
    } else {
        content
    }
}

/// Raises `content` to [`Confidence::Extension`] where the file name ends in
/// one of `extensions`.
pub fn weighed(content: Confidence, filename: Option<&str>, extensions: &[&'static str]) -> (r:
    Confidence)
    ensures
        r == weigh_name(
            content,
            match filename {
                Some(name) => Some(name@),
                None => None,
            },
            word_list(extensions@),
        ),
{
    match filename {
        None => content,
        Some(name) => match extension_of(name) {
            None => content,
            Some(ext) => {
                if is_listed(extensions, ext.as_str()) && content.rank() < 2 {
                    Confidence::Extension
                } else {
                    content
                }
            },
        },
    }
}

/// Generic trait that should be implemented for each input format.
///
/// This is the read-side mirror of [`OutputFormat`]: where an output format
/// turns a [`Profile`] into bytes, an input format turns bytes back into a
/// [`Profile`]. The input is `&[u8]` rather than `&str` so that binary formats
/// are representable, not just text.
pub trait InputFormat: Sync + Send {
    /// The name of the format.
    spec fn in_name(&self) -> Seq<char>;

    /// The file extensions of the format.
    spec fn in_extensions(&self) -> Seq<Seq<char>>;

    /// How strongly data resembles the format.
    spec fn likeness(&self, data: ProbeView) -> Confidence;

    /// What the bytes say in this format.
    spec fn meaning(&self, input: Seq<u8>) -> std::result::Result<ProfileView, ErrorView>;

    /// Returns a string name for the format, eg. "folded".
    fn name(&self) -> (r: &'static str)
        ensures
            r@ == self.in_name(),
    ;

    /// Returns valid file extensions for this format, used for [`Confidence`]
    /// checking.
    fn extensions(&self) -> (r: &'static [&'static str])
        ensures
            word_list(r@) == self.in_extensions(),
    ;

    /// Checks the passed [`ProbeData`] and returns a [`Confidence`] that the
    /// data matches this format.
    fn probe(&self, data: &ProbeData<'_>) -> (r: Confidence)
        ensures
            r == self.likeness(data@),
    ;

    /// Attempts to convert arbitrary bytes into a [`Profile`] of this format.
    ///
    /// Returns an error if `input` does not conform to this format's grammar
    /// (for example malformed or truncated data, or invalid text encoding).
    fn read(&self, input: &[u8]) -> (r: Result<Profile>)
        ensures
            outcome(r) == self.meaning(input@),
    ;
}

/// Cross-format rendering hints passed to [`OutputFormat::write`].
///
/// This is the write-side analog of [`ProbeData`]: a structured bundle of
/// options that applies to every format uniformly. The hints are best-effort -
/// a format applies the ones that are meaningful for it and ignores the rest
/// (a binary format, for instance, has no notion of pretty-printing).
#[derive(Debug, Clone, Copy)]
pub struct WriteOptions {
    /// Prefer human-readable output (indentation, whitespace) over the most
    /// compact representation. Formats with no such distinction ignore it.
    pub pretty: bool,
}

impl Default for WriteOptions {
    fn default() -> (r: Self)
        ensures
            r == (WriteOptions { pretty: false }),
    {
        WriteOptions { pretty: false }
    }
}

/// Generic trait that should be implemented for each output format.
///
/// This is the write-side mirror of [`InputFormat`]: where an input format
/// turns bytes into a [`Profile`], an output format turns a [`Profile`] back
/// into bytes. The output is `Vec<u8>` rather than `String` so that binary
/// formats are representable, not just text.
pub trait OutputFormat: Sync + Send {
    /// The name of the format.
    spec fn out_name(&self) -> Seq<char>;

    /// The file extensions of the format.
    spec fn out_extensions(&self) -> Seq<Seq<char>>;

    /// The bytes for a profile in this format.
    spec fn rendering(&self, profile: ProfileView, options: WriteOptions) -> std::result::Result<
        Seq<u8>,
        ErrorView,
    >;

    /// Returns a string name for the format, eg. "json".
    fn name(&self) -> (r: &'static str)
        ensures
            r@ == self.out_name(),
    ;

    /// Returns valid file extensions for this format, used to infer the output
    /// format from a destination path (e.g. `out.json` -> `json`).
    fn extensions(&self) -> (r: &'static [&'static str])
        ensures
            word_list(r@) == self.out_extensions(),
    ;

    /// Serializes `profile` into this format's byte representation, honoring
    /// the cross-format hints in `options`.
    ///
    /// Returns an error if the profile cannot be encoded, for example a
    /// serialization or I/O failure in the underlying encoder.
    fn write(&self, profile: &Profile, options: WriteOptions) -> (r: Result<Vec<u8>>)
        ensures
            outcome(r) == self.rendering(profile@, options),
    ;
}

} // verus!

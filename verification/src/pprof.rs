//! The pprof profiling format (`perftools.profiles`): gzip-compressed protobuf.
//!
//! Wire types live in [`crate::proto`]; this module maps them to and from
//! [`Profile`]. Note the two orderings pprof inverts relative to the model: a
//! sample's locations are leaf-first, and an inlined location's `line[0]` is
//! innermost.

use std::collections::HashMap;
use std::io::{Read, Write};

use vstd::prelude::*;

use crate::error::{outcome, ErrorView, ProfcastError, Result};
use crate::format::{
    weigh_name, weighed, Confidence, InputFormat, OutputFormat, ProbeData, ProbeView, WriteOptions,
};
use crate::intern::{
    frame_id, grown, grown_all, id_at, ids, law_grown_all_keeps_places, law_grown_keeps_places,
    place, Interner,
};
use crate::model::{
    copy_text, copy_values, opt_text, views, Frame, FrameId, FrameView, Profile, ProfileView,
    Sample, SampleView, ValueKind, ValueKindView,
};
use crate::number::{decimal, decimal_int, push_decimal, push_i64};
use crate::path::word_list;
use crate::pprof_laws::{faithful, law_payload_round_trips};
use crate::proto;
use crate::proto_faults::{find_profile_fault, profile_fault};
use crate::wire::Message;

verus! {

broadcast use vstd::std_specs::hash::group_hash_axioms;

/// Cap on decompressed bytes, so a crafted gzip bomb cannot exhaust memory.
pub const MAX_DECOMPRESSED: u64 = 0x1000_0000;

/// The pprof format. Stateless, so this is a zero-sized marker that implements
/// both [`InputFormat`] and [`OutputFormat`].
#[derive(Debug, Clone, Copy)]
pub struct PprofFormat;

impl Default for PprofFormat {
    fn default() -> (r: Self)
        ensures
            r == PprofFormat,
    {
        PprofFormat
    }
}

/// What `flate2::read::GzDecoder` makes of a gzip stream when at most `limit`
/// bytes are taken out of it; nothing where it reports an error.
pub uninterp spec fn gunzipped(input: Seq<u8>, limit: u64) -> Option<Seq<u8>>;

/// What `flate2::write::GzEncoder` makes of bytes at the default level.
pub uninterp spec fn gzipped(raw: Seq<u8>) -> Seq<u8>;

/// Whether bytes start like a gzip stream (RFC 1952).
pub open spec fn is_gzip(bytes: Seq<u8>) -> bool {
    bytes.len() >= 2 && bytes[0] == 0x1f && bytes[1] == 0x8b
}

/// Decompresses by `flate2::read::GzDecoder`, reading out at most `limit`
/// bytes.
#[verifier::external_body]
fn gunzip(input: &[u8], limit: u64) -> (r: std::result::Result<Vec<u8>, std::io::Error>)
    ensures
        match r {
            Ok(bytes) => gunzipped(input@, limit) == Some(bytes@),
            Err(_) => gunzipped(input@, limit) is None,
        },
{
    let mut out = Vec::new();
    match flate2::read::GzDecoder::new(input).take(limit).read_to_end(&mut out) {
        Ok(_) => Ok(out),
        Err(error) => Err(error),
    }
}

/// Compresses by `flate2::write::GzEncoder` at the default level, into memory:
/// it fails only where the writer below it does, and a `Vec` takes all that is
/// written to it. The stream starts with the magic bytes of gzip, and decompresses to what went in, where
/// no fewer bytes than that are taken out of it.
#[verifier::external_body]
fn gzip(raw: &[u8]) -> (r: std::result::Result<Vec<u8>, std::io::Error>)
    ensures
        r is Ok,
        r matches Ok(bytes) ==> {
            &&& bytes@ == gzipped(raw@)
            &&& is_gzip(bytes@)
            &&& forall|limit: u64|
                raw@.len() <= limit ==> #[trigger] gunzipped(bytes@, limit) == Some(raw@)
        },
{
    let level = flate2::Compression::default();
    let mut encoder = flate2::write::GzEncoder::new(Vec::new(), level);
    match encoder.write_all(raw) {
        Ok(()) => encoder.finish(),
        Err(error) => Err(error),
    }
}

/// The protobuf bytes in an input, which may be gzip-framed.
pub open spec fn payload(input: Seq<u8>) -> Option<Seq<u8>> {
    if is_gzip(input) {
        gunzipped(input, MAX_DECOMPRESSED)
    } else {
        Some(input)
    }
}

/// Returns the raw protobuf bytes, transparently gunzipping a gzip-framed
/// input. Decompression is capped at [`MAX_DECOMPRESSED`].
pub fn decode_payload(input: &[u8]) -> (r: Result<Vec<u8>>)
    ensures
        match payload(input@) {
            Some(bytes) => outcome(r) == Ok::<Seq<u8>, ErrorView>(bytes),
            None => outcome(r) == Err::<Seq<u8>, ErrorView>(ErrorView::Io),
        },
{
    if input.len() >= 2 && input[0] == 0x1f && input[1] == 0x8b {
        match gunzip(input, MAX_DECOMPRESSED) {
            Ok(bytes) => Ok(bytes),
            Err(error) => Err(ProfcastError::Io(error)),
        }
    } else {
        Ok(vstd::slice::slice_to_vec(input))
    }
}

pub open spec fn negative_message(index: int) -> Seq<char> {
    "negative string index "@ + decimal_int(index)
}

pub open spec fn range_message(index: int, entries: nat) -> Seq<char> {
    "string index "@ + decimal_int(index) + " out of range ("@ + decimal(entries) + " entries)"@
}

/// The string at an index of the string table.
pub open spec fn string_at(strings: Seq<Seq<char>>, index: i64) -> std::result::Result<
    Seq<char>,
    ErrorView,
> {
    if index < 0 || index > usize::MAX {
        Err(ErrorView::Decode(negative_message(index as int)))
    } else if index < strings.len() {
        Ok(strings[index as int])
    } else {
        Err(ErrorView::Decode(range_message(index as int, strings.len())))
    }
}

/// The string at an index of the string table, where it is not empty.
pub open spec fn opt_string_at(strings: Seq<Seq<char>>, index: i64) -> std::result::Result<
    Option<Seq<char>>,
    ErrorView,
> {
    match string_at(strings, index) {
        Ok(text) => Ok(
            if text.len() == 0 {
                None
            } else {
                Some(text)
            },
        ),
        Err(error) => Err(error),
    }
}

/// Resolves an `int64` index into the string table, with bounds and sign checks.
pub fn resolve(strings: &Vec<String>, index: i64) -> (r: Result<String>)
    ensures
        outcome(r) == string_at(views(strings@), index),
{
    if index < 0 || index as u64 > usize::MAX as u64 {
        let mut message: String = "negative string index ".to_owned();
        push_i64(&mut message, index);
        return Err(ProfcastError::Decode(message));
    }
    let place: usize = index as usize;
    if place < strings.len() {
        assert(views(strings@)[place as int] == strings@[place as int]@);
        Ok(strings[place].clone())
    } else {
        let mut message: String = "string index ".to_owned();
        push_i64(&mut message, index);
        message.push_str(" out of range (");
        push_decimal(&mut message, strings.len() as u64);
        message.push_str(" entries)");
        Err(ProfcastError::Decode(message))
    }
}

/// What a call that may find no text came to.
pub open spec fn text_outcome(r: Result<Option<String>>) -> std::result::Result<
    Option<Seq<char>>,
    ErrorView,
> {
    match r {
        Ok(text) => Ok(opt_text(text)),
        Err(error) => Err(error@),
    }
}

/// Like [`resolve`], but maps the empty string (index 0 by convention) to
/// `None`, since the model distinguishes "absent" from "present but empty".
pub fn resolve_opt(strings: &Vec<String>, index: i64) -> (r: Result<Option<String>>)
    ensures
        text_outcome(r) == opt_string_at(views(strings@), index),
{
    match resolve(strings, index) {
        Ok(text) => {
            if text.as_str().is_empty() {
                Ok(None)
            } else {
                Ok(Some(text))
            }
        },
        Err(error) => Err(error),
    }
}

/// Maps a pprof "unset is zero" address to the model's optional address.
pub open spec fn address_of(address: u64) -> Option<u64> {
    if address == 0 {
        None
    } else {
        Some(address)
    }
}

/// Maps a pprof "unset is zero" address to the model's optional address.
pub fn nonzero(address: u64) -> (r: Option<u64>)
    ensures
        r == address_of(address),
{
    if address == 0 {
        None
    } else {
        Some(address)
    }
}

/// The line number that a pprof line stands for, where it is positive and in
/// range.
pub open spec fn line_of(line: i64) -> Option<u32> {
    if 0 < line <= u32::MAX {
        Some(line as u32)
    } else {
        None
    }
}

/// Maps a pprof `int64` line number to the model's `Option<u32>`. Non-positive
/// (unset) or out-of-range values become `None`.
pub fn line_number(line: i64) -> (r: Option<u32>)
    ensures
        r == line_of(line),
{
    if line > 0 && line <= u32::MAX as i64 {
        Some(line as u32)
    } else {
        None
    }
}

/// The last function with an id.
pub open spec fn function_with(functions: Seq<proto::Function>, id: u64) -> Option<proto::Function>
    decreases functions.len(),
{
    if functions.len() == 0 {
        None
    } else if functions.last().id == id {
        Some(functions.last())
    } else {
        function_with(functions.drop_last(), id)
    }
}

/// The last mapping with an id.
pub open spec fn mapping_with(mappings: Seq<proto::Mapping>, id: u64) -> Option<proto::Mapping>
    decreases mappings.len(),
{
    if mappings.len() == 0 {
        None
    } else if mappings.last().id == id {
        Some(mappings.last())
    } else {
        mapping_with(mappings.drop_last(), id)
    }
}

/// Files functions under their ids; of two with one id the last counts.
fn index_functions(functions: &Vec<proto::Function>) -> (r: HashMap<u64, proto::Function>)
    ensures
        forall|id: u64|
            #![trigger r@.contains_key(id)]
            match function_with(functions@, id) {
                Some(f) => r@.contains_key(id) && r@[id] == f,
                None => !r@.contains_key(id),
            },
{
    let mut map: HashMap<u64, proto::Function> = HashMap::new();
    let mut i: usize = 0;
    assert(functions@.take(0) =~= Seq::empty());
    while i < functions.len()
        invariant
            i <= functions.len(),
            forall|id: u64|
                #![trigger map@.contains_key(id)]
                match function_with(functions@.take(i as int), id) {
                    Some(f) => map@.contains_key(id) && map@[id] == f,
                    None => !map@.contains_key(id),
                },
        decreases functions.len() - i,
    {
        let ghost before = map@;
        assert(functions@.take(i + 1).drop_last() =~= functions@.take(i as int));
        map.insert(functions[i].id, functions[i]);
        proof {
            assert forall|id: u64| #![trigger map@.contains_key(id)]
                match function_with(functions@.take(i + 1), id) {
                    Some(f) => map@.contains_key(id) && map@[id] == f,
                    None => !map@.contains_key(id),
                } by {
                assert(before.contains_key(id) || !before.contains_key(id));
            }
        }
        i = i + 1;
    }
    assert(functions@.take(functions@.len() as int) == functions@);
    map
}

/// Files mappings under their ids; of two with one id the last counts.
fn index_mappings(mappings: &Vec<proto::Mapping>) -> (r: HashMap<u64, proto::Mapping>)
    ensures
        forall|id: u64|
            #![trigger r@.contains_key(id)]
            match mapping_with(mappings@, id) {
                Some(m) => r@.contains_key(id) && r@[id] == m,
                None => !r@.contains_key(id),
            },
{
    let mut map: HashMap<u64, proto::Mapping> = HashMap::new();
    let mut i: usize = 0;
    assert(mappings@.take(0) =~= Seq::empty());
    while i < mappings.len()
        invariant
            i <= mappings.len(),
            forall|id: u64|
                #![trigger map@.contains_key(id)]
                match mapping_with(mappings@.take(i as int), id) {
                    Some(m) => map@.contains_key(id) && map@[id] == m,
                    None => !map@.contains_key(id),
                },
        decreases mappings.len() - i,
    {
        let ghost before = map@;
        assert(mappings@.take(i + 1).drop_last() =~= mappings@.take(i as int));
        map.insert(mappings[i].id, mappings[i]);
        proof {
            assert forall|id: u64| #![trigger map@.contains_key(id)]
                match mapping_with(mappings@.take(i + 1), id) {
                    Some(m) => map@.contains_key(id) && map@[id] == m,
                    None => !map@.contains_key(id),
                } by {
                assert(before.contains_key(id) || !before.contains_key(id));
            }
        }
        i = i + 1;
    }
    assert(mappings@.take(mappings@.len() as int) == mappings@);
    map
}

/// The name and the file of a function, where it is known.
pub open spec fn function_text(functions: Seq<proto::Function>, id: u64, strings: Seq<Seq<char>>) -> std::result::Result<
    (Option<Seq<char>>, Option<Seq<char>>),
    ErrorView,
> {
    match function_with(functions, id) {
        None => Ok((None, None)),
        Some(function) => match opt_string_at(strings, function.name) {
            Err(error) => Err(error),
            Ok(name) => match opt_string_at(strings, function.filename) {
                Err(error) => Err(error),
                Ok(file) => Ok((name, file)),
            },
        },
    }
}

/// The module of a location, where its mapping is known.
pub open spec fn module_text(mappings: Seq<proto::Mapping>, id: u64, strings: Seq<Seq<char>>) -> std::result::Result<
    Option<Seq<char>>,
    ErrorView,
> {
    match mapping_with(mappings, id) {
        None => Ok(None),
        Some(mapping) => opt_string_at(strings, mapping.filename),
    }
}

/// The frames of the lines of a location, the first being the leaf.
pub open spec fn line_frames(
    lines: Seq<proto::Line>,
    address: u64,
    module: Option<Seq<char>>,
    functions: Seq<proto::Function>,
    strings: Seq<Seq<char>>,
) -> std::result::Result<Seq<FrameView>, ErrorView>
    decreases lines.len(),
{
    if lines.len() == 0 {
        Ok(Seq::empty())
    } else {
        match line_frames(lines.drop_last(), address, module, functions, strings) {
            Err(error) => Err(error),
            Ok(before) => match function_text(functions, lines.last().function_id, strings) {
                Err(error) => Err(error),
                Ok((name, file)) => Ok(
                    before.push(
                        FrameView {
                            raw: Seq::empty(),
                            function: name,
                            file,
                            line: line_of(lines.last().line),
                            module,
                            address: if lines.len() == 1 {
                                address_of(address)
                            } else {
                                None
                            },
                        },
                    ),
                ),
            },
        }
    }
}

/// The frames of a location, innermost first: one per inlined line, or a
/// single one with its address and module if it has none.
pub open spec fn location_frames(
    location: proto::LocationView,
    functions: Seq<proto::Function>,
    mappings: Seq<proto::Mapping>,
    strings: Seq<Seq<char>>,
) -> std::result::Result<Seq<FrameView>, ErrorView> {
    match module_text(mappings, location.mapping_id, strings) {
        Err(error) => Err(error),
        Ok(module) => if location.line.len() == 0 {
            Ok(
                seq![
                    FrameView {
                        module,
                        address: address_of(location.address),
                        ..FrameView::unknown()
                    },
                ],
            )
        } else {
            line_frames(location.line, location.address, module, functions, strings)
        },
    }
}

proof fn lemma_line_error_stays(
    lines: Seq<proto::Line>,
    address: u64,
    module: Option<Seq<char>>,
    functions: Seq<proto::Function>,
    strings: Seq<Seq<char>>,
    n: int,
)
    requires
        0 <= n <= lines.len(),
        line_frames(lines.take(n), address, module, functions, strings) is Err,
    ensures
        line_frames(lines, address, module, functions, strings) == line_frames(
            lines.take(n),
            address,
            module,
            functions,
            strings,
        ),
    decreases lines.len() - n,
{
    if n < lines.len() {
        assert(lines.take(n + 1).drop_last() =~= lines.take(n));
        lemma_line_error_stays(lines, address, module, functions, strings, n + 1);
    } else {
        assert(lines.take(n) =~= lines);
    }
}

/// What a call that hands out frames came to.
pub open spec fn frames_outcome(r: Result<Vec<Frame>>) -> std::result::Result<
    Seq<FrameView>,
    ErrorView,
> {
    match r {
        Ok(frames) => Ok(views(frames@)),
        Err(error) => Err(error@),
    }
}

/// Whether a map files the functions under their ids.
spec fn files_functions(
    map: Map<u64, proto::Function>,
    functions: Seq<proto::Function>,
) -> bool {
    forall|id: u64|
        #![trigger map.contains_key(id)]
        match function_with(functions, id) {
            Some(f) => map.contains_key(id) && map[id] == f,
            None => !map.contains_key(id),
        }
}

/// Whether a map files the mappings under their ids.
spec fn files_mappings(map: Map<u64, proto::Mapping>, mappings: Seq<proto::Mapping>) -> bool {
    forall|id: u64|
        #![trigger map.contains_key(id)]
        match mapping_with(mappings, id) {
            Some(m) => map.contains_key(id) && map[id] == m,
            None => !map.contains_key(id),
        }
}

/// Expands one pprof location into [`Frame`]s, innermost first: one per inlined
/// `line`, or a single address/module frame if it has none (preserving stack
/// depth).
fn expand_location(
    location: &proto::Location,
    functions: &HashMap<u64, proto::Function>,
    mappings: &HashMap<u64, proto::Mapping>,
    strings: &Vec<String>,
    Ghost(all_functions): Ghost<Seq<proto::Function>>,
    Ghost(all_mappings): Ghost<Seq<proto::Mapping>>,
) -> (r: Result<Vec<Frame>>)
    requires
        files_functions(functions@, all_functions),
        files_mappings(mappings@, all_mappings),
    ensures
        frames_outcome(r) == location_frames(
            location@,
            all_functions,
            all_mappings,
            views(strings@),
        ),
{
    let ghost texts = views(strings@);
    let module = match mappings.get(&location.mapping_id) {
        Some(mapping) => match resolve_opt(strings, mapping.filename) {
            Ok(module) => module,
            Err(error) => {
                assert(mappings@.contains_key(location.mapping_id));
                return Err(error);
            },
        },
        None => None,
    };
    let ghost said = opt_text(module);
    assert(module_text(all_mappings, location.mapping_id, texts) == Ok::<
        Option<Seq<char>>,
        ErrorView,
    >(said)) by {
        assert(mappings@.contains_key(location.mapping_id) || !mappings@.contains_key(
            location.mapping_id,
        ));
    }
    let mut frames: Vec<Frame> = Vec::new();
    if location.line.len() == 0 {
        let mut frame = Frame::default();
        frame.module = module;
        frame.address = nonzero(location.address);
        let ghost view = frame@;
        frames.push(frame);
        assert(views(frames@) =~= seq![view]);
        return Ok(frames);
    }
    let mut position: usize = 0;
    assert(location.line@.take(0) =~= Seq::empty());
    assert(views(frames@) =~= Seq::empty());
    while position < location.line.len()
        invariant
            position <= location.line.len(),
            location.line.len() > 0,
            files_functions(functions@, all_functions),
            texts == views(strings@),
            said == opt_text(module),
            location_frames(location@, all_functions, all_mappings, texts) == line_frames(
                location.line@,
                location.address,
                said,
                all_functions,
                texts,
            ),
            line_frames(
                location.line@.take(position as int),
                location.address,
                said,
                all_functions,
                texts,
            ) == Ok::<Seq<FrameView>, ErrorView>(views(frames@)),
        decreases location.line.len() - position,
    {
        let line = location.line[position];
        let ghost now = location.line@.take(position + 1);
        let ghost before = views(frames@);
        assert(now.drop_last() =~= location.line@.take(position as int));
        assert(now.last() == line);
        assert(functions@.contains_key(line.function_id) || !functions@.contains_key(
            line.function_id,
        ));
        let (name, file) = match functions.get(&line.function_id) {
            None => (None, None),
            Some(function) => {
                let name = match resolve_opt(strings, function.name) {
                    Ok(name) => name,
                    Err(error) => {
                        proof {
                            lemma_line_error_stays(
                                location.line@,
                                location.address,
                                said,
                                all_functions,
                                texts,
                                position + 1,
                            );
                        }
                        return Err(error);
                    },
                };
                let file = match resolve_opt(strings, function.filename) {
                    Ok(file) => file,
                    Err(error) => {
                        proof {
                            lemma_line_error_stays(
                                location.line@,
                                location.address,
                                said,
                                all_functions,
                                texts,
                                position + 1,
                            );
                        }
                        return Err(error);
                    },
                };
                (name, file)
            },
        };
        let frame = Frame {
            raw: String::new(),
            function: name,
            file,
            line: line_number(line.line),
            module: copy_text(&module),
            // The address belongs to the leaf frame only.
            address: if position == 0 {
                nonzero(location.address)
            } else {
                None
            },
        };
        let ghost view = frame@;
        frames.push(frame);
        assert(views(frames@) =~= before.push(view));
        position = position + 1;
    }
    assert(location.line@.take(position as int) =~= location.line@);
    Ok(frames)
}

/// What has been read of the locations: the distinct frames in the order in
/// which they were first seen, and the frames of each location, innermost
/// first.
pub struct Located {
    pub table: Seq<FrameView>,
    pub known: Map<u64, Seq<FrameId>>,
}

/// What locations come to. Of two with one id the first counts.
pub open spec fn locate(
    locations: Seq<proto::LocationView>,
    functions: Seq<proto::Function>,
    mappings: Seq<proto::Mapping>,
    strings: Seq<Seq<char>>,
) -> std::result::Result<Located, ErrorView>
    decreases locations.len(),
{
    if locations.len() == 0 {
        Ok(Located { table: Seq::empty(), known: Map::empty() })
    } else {
        match locate(locations.drop_last(), functions, mappings, strings) {
            Err(error) => Err(error),
            Ok(located) => {
                let location = locations.last();
                if located.known.contains_key(location.id) {
                    Ok(located)
                } else {
                    match location_frames(location, functions, mappings, strings) {
                        Err(error) => Err(error),
                        Ok(frames) => {
                            let table = grown_all(located.table, frames);
                            Ok(
                                Located {
                                    table,
                                    known: located.known.insert(location.id, ids(table, frames)),
                                },
                            )
                        },
                    }
                }
            },
        }
    }
}

proof fn lemma_locate_error_stays(
    locations: Seq<proto::LocationView>,
    functions: Seq<proto::Function>,
    mappings: Seq<proto::Mapping>,
    strings: Seq<Seq<char>>,
    n: int,
)
    requires
        0 <= n <= locations.len(),
        locate(locations.take(n), functions, mappings, strings) is Err,
    ensures
        locate(locations, functions, mappings, strings) == locate(
            locations.take(n),
            functions,
            mappings,
            strings,
        ),
    decreases locations.len() - n,
{
    if n < locations.len() {
        assert(locations.take(n + 1).drop_last() =~= locations.take(n));
        lemma_locate_error_stays(locations, functions, mappings, strings, n + 1);
    } else {
        assert(locations.take(n) =~= locations);
    }
}

/// Interns [`Frame`]s by value while reading, mirroring the model's frame table.
pub struct FrameInterner {
    frames: Interner<Frame>,
}

impl View for FrameInterner {
    type V = Seq<FrameView>;

    closed spec fn view(&self) -> Seq<FrameView> {
        self.frames@
    }
}

impl FrameInterner {
    /// The frames are distinct.
    pub closed spec fn wf(&self) -> bool {
        self.frames.wf()
    }

    /// A table without frames.
    pub fn new() -> (r: Self)
        ensures
            r.wf(),
            r@ == Seq::<FrameView>::empty(),
    {
        FrameInterner { frames: Interner::new() }
    }

    /// Returns the stable id for `frame`, interning it on first sight.
    ///
    /// Frame ids are u32; saturate rather than thread a fallible path through
    /// every frame (4 billion distinct frames is not a real input).
    pub fn intern(&mut self, frame: Frame) -> (r: FrameId)
        requires
            old(self).wf(),
        ensures
            final(self).wf(),
            final(self)@ == grown(old(self)@, frame@),
            r == id_at(place(final(self)@, frame@)),
    {
        frame_id(self.frames.intern(frame))
    }

    /// Hands out the frames.
    pub fn into_frames(self) -> (r: Vec<Frame>)
        ensures
            views(r@) == self@,
    {
        self.frames.into_items()
    }
}

/// Interns a list of frames.
fn intern_frames(frames: &Vec<Frame>, interner: &mut FrameInterner) -> (r: Vec<FrameId>)
    requires
        old(interner).wf(),
        old(interner)@.no_duplicates(),
    ensures
        final(interner).wf(),
        final(interner)@ == grown_all(old(interner)@, views(frames@)),
        final(interner)@.no_duplicates(),
        r@ == ids(final(interner)@, views(frames@)),
{
    let ghost all = views(frames@);
    let ghost table = interner@;
    let mut out: Vec<FrameId> = Vec::new();
    let mut i: usize = 0;
    assert(all.take(0) =~= Seq::empty());
    assert(out@ =~= ids(table, all.take(0)));
    while i < frames.len()
        invariant
            i <= frames.len(),
            all == views(frames@),
            interner.wf(),
            table.no_duplicates(),
            interner@.no_duplicates(),
            interner@ == grown_all(table, all.take(i as int)),
            out@ == ids(interner@, all.take(i as int)),
        decreases frames.len() - i,
    {
        let ghost before = interner@;
        let ghost seen = all.take(i as int);
        let ghost now = all.take(i + 1);
        let ghost frame = frames@[i as int]@;
        assert(now.drop_last() =~= seen);
        assert(now.last() == frame);
        let id = interner.intern(frames[i].clone());
        proof {
            law_grown_keeps_places(before, frame);
            law_grown_all_keeps_places(table, seen);
            assert forall|j: int| 0 <= j < seen.len() implies id_at(
                place(interner@, #[trigger] seen[j]),
            ) == id_at(place(before, seen[j])) by {
                assert(before.contains(seen[j]));
            }
            assert forall|j: int| 0 <= j < now.len() implies ids(interner@, now)[j] == ids(
                before,
                seen,
            ).push(id)[j] by {
                if j < i {
                    assert(now[j] == seen[j]);
                }
            }
            assert(ids(interner@, now) =~= ids(before, seen).push(id));
        }
        out.push(id);
        i = i + 1;
    }
    assert(all.take(i as int) =~= all);
    out
}

/// What a map of frame ids holds.
spec fn known_ids(map: Map<u64, Vec<FrameId>>) -> Map<u64, Seq<FrameId>> {
    map.map_values(|v: Vec<FrameId>| v@)
}

/// Reads the locations.
fn locate_all(
    locations: &Vec<proto::Location>,
    functions: &Vec<proto::Function>,
    mappings: &Vec<proto::Mapping>,
    strings: &Vec<String>,
) -> (r: Result<(FrameInterner, HashMap<u64, Vec<FrameId>>)>)
    ensures
        match r {
            Ok((interner, known)) => {
                &&& interner.wf()
                &&& locate(views(locations@), functions@, mappings@, views(strings@)) == Ok::<
                    Located,
                    ErrorView,
                >(Located { table: interner@, known: known_ids(known@) })
            },
            Err(error) => locate(views(locations@), functions@, mappings@, views(strings@))
                == Err::<Located, ErrorView>(error@),
        },
{
    let function_index = index_functions(functions);
    let mapping_index = index_mappings(mappings);
    let ghost all = views(locations@);
    let ghost texts = views(strings@);
    let mut interner = FrameInterner::new();
    let mut known: HashMap<u64, Vec<FrameId>> = HashMap::new();
    let mut i: usize = 0;
    assert(all.take(0) =~= Seq::empty());
    assert(known_ids(known@) =~= Map::empty());
    while i < locations.len()
        invariant
            i <= locations.len(),
            all == views(locations@),
            texts == views(strings@),
            files_functions(function_index@, functions@),
            files_mappings(mapping_index@, mappings@),
            interner.wf(),
            interner@.no_duplicates(),
            locate(all.take(i as int), functions@, mappings@, texts) == Ok::<Located, ErrorView>(
                Located { table: interner@, known: known_ids(known@) },
            ),
        decreases locations.len() - i,
    {
        let location = &locations[i];
        let ghost now = all.take(i + 1);
        assert(now.drop_last() =~= all.take(i as int));
        assert(now.last() == location@);
        if !known.contains_key(&location.id) {
            match expand_location(
                location,
                &function_index,
                &mapping_index,
                strings,
                Ghost(functions@),
                Ghost(mappings@),
            ) {
                Err(error) => {
                    proof {
                        lemma_locate_error_stays(all, functions@, mappings@, texts, i + 1);
                    }
                    return Err(error);
                },
                Ok(frames) => {
                    let ghost before = known@;
                    let list = intern_frames(&frames, &mut interner);
                    let ghost listed = list@;
                    known.insert(location.id, list);
                    assert(known_ids(known@) =~= known_ids(before).insert(location.id, listed));
                },
            }
        }
        i = i + 1;
    }
    assert(all.take(i as int) =~= all);
    Ok((interner, known))
}

/// The value kinds of a profile.
pub open spec fn kinds_of(types: Seq<proto::ValueType>, strings: Seq<Seq<char>>) -> std::result::Result<
    Seq<ValueKindView>,
    ErrorView,
>
    decreases types.len(),
{
    if types.len() == 0 {
        Ok(Seq::empty())
    } else {
        match kinds_of(types.drop_last(), strings) {
            Err(error) => Err(error),
            Ok(before) => match string_at(strings, types.last().kind) {
                Err(error) => Err(error),
                Ok(kind) => match string_at(strings, types.last().unit) {
                    Err(error) => Err(error),
                    Ok(unit) => Ok(before.push(ValueKindView { kind, unit })),
                },
            },
        }
    }
}

proof fn lemma_kinds_error_stays(types: Seq<proto::ValueType>, strings: Seq<Seq<char>>, n: int)
    requires
        0 <= n <= types.len(),
        kinds_of(types.take(n), strings) is Err,
    ensures
        kinds_of(types, strings) == kinds_of(types.take(n), strings),
    decreases types.len() - n,
{
    if n < types.len() {
        assert(types.take(n + 1).drop_last() =~= types.take(n));
        lemma_kinds_error_stays(types, strings, n + 1);
    } else {
        assert(types.take(n) =~= types);
    }
}

fn read_kinds(types: &Vec<proto::ValueType>, strings: &Vec<String>) -> (r: Result<Vec<ValueKind>>)
    ensures
        match r {
            Ok(kinds) => kinds_of(types@, views(strings@)) == Ok::<Seq<ValueKindView>, ErrorView>(
                views(kinds@),
            ),
            Err(error) => kinds_of(types@, views(strings@)) == Err::<
                Seq<ValueKindView>,
                ErrorView,
            >(error@),
        },
{
    let ghost texts = views(strings@);
    let mut out: Vec<ValueKind> = Vec::new();
    let mut i: usize = 0;
    assert(types@.take(0) =~= Seq::empty());
    assert(views(out@) =~= Seq::empty());
    while i < types.len()
        invariant
            i <= types.len(),
            texts == views(strings@),
            kinds_of(types@.take(i as int), texts) == Ok::<Seq<ValueKindView>, ErrorView>(
                views(out@),
            ),
        decreases types.len() - i,
    {
        let ghost now = types@.take(i + 1);
        let ghost before = views(out@);
        assert(now.drop_last() =~= types@.take(i as int));
        assert(now.last() == types@[i as int]);
        let kind = match resolve(strings, types[i].kind) {
            Ok(kind) => kind,
            Err(error) => {
                proof {
                    lemma_kinds_error_stays(types@, texts, i + 1);
                }
                return Err(error);
            },
        };
        let unit = match resolve(strings, types[i].unit) {
            Ok(unit) => unit,
            Err(error) => {
                proof {
                    lemma_kinds_error_stays(types@, texts, i + 1);
                }
                return Err(error);
            },
        };
        let item = ValueKind { kind, unit };
        let ghost said = item@;
        out.push(item);
        assert(views(out@) =~= before.push(said));
        i = i + 1;
    }
    assert(types@.take(i as int) =~= types@);
    Ok(out)
}

pub open spec fn sample_arity_message(values: nat, kinds: nat) -> Seq<char> {
    "sample has "@ + decimal(values) + " values but the profile declares "@ + decimal(kinds)
        + " value kinds"@
}

pub open spec fn unknown_location_message(id: nat) -> Seq<char> {
    "sample references unknown location id "@ + decimal(id)
}

/// The frames of a list of locations in a row.
pub open spec fn gather(known: Map<u64, Seq<FrameId>>, locations: Seq<u64>) -> std::result::Result<
    Seq<FrameId>,
    ErrorView,
>
    decreases locations.len(),
{
    if locations.len() == 0 {
        Ok(Seq::empty())
    } else {
        match gather(known, locations.drop_last()) {
            Err(error) => Err(error),
            Ok(before) => if known.contains_key(locations.last()) {
                Ok(before + known[locations.last()])
            } else {
                Err(ErrorView::Decode(unknown_location_message(locations.last() as nat)))
            },
        }
    }
}

proof fn lemma_gather_error_stays(known: Map<u64, Seq<FrameId>>, locations: Seq<u64>, n: int)
    requires
        0 <= n <= locations.len(),
        gather(known, locations.take(n)) is Err,
    ensures
        gather(known, locations) == gather(known, locations.take(n)),
    decreases locations.len() - n,
{
    if n < locations.len() {
        assert(locations.take(n + 1).drop_last() =~= locations.take(n));
        lemma_gather_error_stays(known, locations, n + 1);
    } else {
        assert(locations.take(n) =~= locations);
    }
}

/// The sample of the model for one of the wire: locations are gathered from
/// leaf to root, then reversed to the model's root-first stack.
pub open spec fn sample_of(
    sample: proto::SampleView,
    known: Map<u64, Seq<FrameId>>,
    kinds: nat,
) -> std::result::Result<SampleView, ErrorView> {
    if sample.value.len() != kinds {
        Err(ErrorView::Decode(sample_arity_message(sample.value.len(), kinds)))
    } else {
        match gather(known, sample.location_id) {
            Err(error) => Err(error),
            Ok(stack) => Ok(SampleView { stack: stack.reverse(), values: sample.value }),
        }
    }
}

/// The samples of the model.
pub open spec fn samples_of(
    samples: Seq<proto::SampleView>,
    known: Map<u64, Seq<FrameId>>,
    kinds: nat,
) -> std::result::Result<Seq<SampleView>, ErrorView>
    decreases samples.len(),
{
    if samples.len() == 0 {
        Ok(Seq::empty())
    } else {
        match samples_of(samples.drop_last(), known, kinds) {
            Err(error) => Err(error),
            Ok(before) => match sample_of(samples.last(), known, kinds) {
                Err(error) => Err(error),
                Ok(sample) => Ok(before.push(sample)),
            },
        }
    }
}

proof fn lemma_samples_error_stays(
    samples: Seq<proto::SampleView>,
    known: Map<u64, Seq<FrameId>>,
    kinds: nat,
    n: int,
)
    requires
        0 <= n <= samples.len(),
        samples_of(samples.take(n), known, kinds) is Err,
    ensures
        samples_of(samples, known, kinds) == samples_of(samples.take(n), known, kinds),
    decreases samples.len() - n,
{
    if n < samples.len() {
        assert(samples.take(n + 1).drop_last() =~= samples.take(n));
        lemma_samples_error_stays(samples, known, kinds, n + 1);
    } else {
        assert(samples.take(n) =~= samples);
    }
}

/// The list in the other direction.
fn reversed(list: &Vec<FrameId>) -> (r: Vec<FrameId>)
    ensures
        r@ == list@.reverse(),
{
    let mut out: Vec<FrameId> = Vec::new();
    let mut i: usize = list.len();
    while i > 0
        invariant
            i <= list.len(),
            out@.len() == list.len() - i,
            forall|j: int| 0 <= j < out@.len() ==> out@[j] == list@[list.len() - 1 - j],
        decreases i,
    {
        i = i - 1;
        out.push(list[i]);
    }
    assert(out@ =~= list@.reverse());
    out
}

fn read_sample(
    sample: &proto::Sample,
    known: &HashMap<u64, Vec<FrameId>>,
    value_arity: usize,
) -> (r: Result<Sample>)
    ensures
        outcome(r) == sample_of(sample@, known_ids(known@), value_arity as nat),
{
    if sample.value.len() != value_arity {
        let mut message: String = "sample has ".to_owned();
        push_decimal(&mut message, sample.value.len() as u64);
        message.push_str(" values but the profile declares ");
        push_decimal(&mut message, value_arity as u64);
        message.push_str(" value kinds");
        return Err(ProfcastError::Decode(message));
    }
    let ghost all = sample.location_id@;
    let ghost map = known_ids(known@);
    let mut leaf_to_root: Vec<FrameId> = Vec::new();
    let mut i: usize = 0;
    assert(all.take(0) =~= Seq::empty());
    while i < sample.location_id.len()
        invariant
            i <= sample.location_id.len(),
            all == sample.location_id@,
            map == known_ids(known@),
            sample@.value.len() == value_arity,
            gather(map, all.take(i as int)) == Ok::<Seq<FrameId>, ErrorView>(leaf_to_root@),
        decreases sample.location_id.len() - i,
    {
        let id: u64 = sample.location_id[i];
        let ghost now = all.take(i + 1);
        assert(now.drop_last() =~= all.take(i as int));
        assert(now.last() == id);
        match known.get(&id) {
            Some(list) => {
                let ghost before = leaf_to_root@;
                leaf_to_root.extend_from_slice(list.as_slice());
                assert(leaf_to_root@ =~= before + map[id]);
            },
            None => {
                proof {
                    lemma_gather_error_stays(map, all, i + 1);
                }
                let mut message: String = "sample references unknown location id ".to_owned();
                push_decimal(&mut message, id);
                return Err(ProfcastError::Decode(message));
            },
        }
        i = i + 1;
    }
    assert(all.take(i as int) =~= all);
    Ok(Sample { stack: reversed(&leaf_to_root), values: copy_values(&sample.value) })
}

fn read_samples(
    samples: &Vec<proto::Sample>,
    known: &HashMap<u64, Vec<FrameId>>,
    value_arity: usize,
) -> (r: Result<Vec<Sample>>)
    ensures
        match r {
            Ok(list) => samples_of(views(samples@), known_ids(known@), value_arity as nat) == Ok::<
                Seq<SampleView>,
                ErrorView,
            >(views(list@)),
            Err(error) => samples_of(views(samples@), known_ids(known@), value_arity as nat)
                == Err::<Seq<SampleView>, ErrorView>(error@),
        },
{
    let ghost all = views(samples@);
    let ghost map = known_ids(known@);
    let mut out: Vec<Sample> = Vec::new();
    let mut i: usize = 0;
    assert(all.take(0) =~= Seq::empty());
    assert(views(out@) =~= Seq::empty());
    while i < samples.len()
        invariant
            i <= samples.len(),
            all == views(samples@),
            map == known_ids(known@),
            samples_of(all.take(i as int), map, value_arity as nat) == Ok::<
                Seq<SampleView>,
                ErrorView,
            >(views(out@)),
        decreases samples.len() - i,
    {
        let ghost now = all.take(i + 1);
        let ghost before = views(out@);
        assert(now.drop_last() =~= all.take(i as int));
        assert(now.last() == samples@[i as int]@);
        match read_sample(&samples[i], known, value_arity) {
            Ok(sample) => {
                let ghost said = sample@;
                out.push(sample);
                assert(views(out@) =~= before.push(said));
            },
            Err(error) => {
                proof {
                    lemma_samples_error_stays(all, map, value_arity as nat, i + 1);
                }
                return Err(error);
            },
        }
        i = i + 1;
    }
    assert(all.take(i as int) =~= all);
    Ok(out)
}

/// The model's profile for a pprof one.
pub open spec fn from_proto(p: proto::ProfileView) -> std::result::Result<ProfileView, ErrorView> {
    match kinds_of(p.sample_type, p.string_table) {
        Err(error) => Err(error),
        Ok(value_kinds) => match locate(p.location, p.function, p.mapping, p.string_table) {
            Err(error) => Err(error),
            Ok(located) => match samples_of(p.sample, located.known, value_kinds.len()) {
                Err(error) => Err(error),
                Ok(samples) => Ok(ProfileView { frames: located.table, samples, value_kinds }),
            },
        },
    }
}

/// Converts a decoded pprof profile into the internal model.
///
/// Every location is interned in declaration order, so frame ids are
/// deterministic and a writer's output round-trips.
pub fn convert_from_proto(message: &proto::Profile) -> (r: Result<Profile>)
    ensures
        outcome(r) == from_proto(message@),
{
    let value_kinds = match read_kinds(&message.sample_type, &message.string_table) {
        Ok(kinds) => kinds,
        Err(error) => return Err(error),
    };
    let (interner, known) = match locate_all(
        &message.location,
        &message.function,
        &message.mapping,
        &message.string_table,
    ) {
        Ok(located) => located,
        Err(error) => return Err(error),
    };
    let samples = match read_samples(&message.sample, &known, value_kinds.len()) {
        Ok(samples) => samples,
        Err(error) => return Err(error),
    };
    Ok(Profile { frame_intern: interner.into_frames(), samples, value_kinds })
}

/// The string table index for a place in it.
pub open spec fn string_id(place: int) -> i64 {
    if 0 <= place <= i64::MAX {
        place as i64
    } else {
        i64::MAX
    }
}

/// The pprof id for an index. Ids are 1-based: zero means "unset" in the
/// format.
pub open spec fn pprof_id(index: int) -> u64 {
    if 0 <= index < u64::MAX {
        (index + 1) as u64
    } else {
        u64::MAX
    }
}

/// Builds a pprof `string_table`, interning each string to its `int64` index.
/// Index 0 is always the empty string, as the format requires.
pub struct StringTable {
    strings: Interner<String>,
}

impl View for StringTable {
    type V = Seq<Seq<char>>;

    closed spec fn view(&self) -> Seq<Seq<char>> {
        self.strings@
    }
}

impl StringTable {
    /// The strings are distinct.
    pub closed spec fn wf(&self) -> bool {
        self.strings.wf()
    }

    /// A table with the empty string.
    pub fn new() -> (r: Self)
        ensures
            r.wf(),
            r@ == seq![Seq::<char>::empty()],
    {
        let mut strings: Interner<String> = Interner::new();
        strings.intern(String::new());
        assert(strings@ =~= seq![Seq::<char>::empty()]);
        StringTable { strings }
    }

    /// Returns the index of a string, adding it on first sight.
    pub fn intern(&mut self, value: &str) -> (r: i64)
        requires
            old(self).wf(),
        ensures
            final(self).wf(),
            final(self)@ == grown(old(self)@, value@),
            r == string_id(place(final(self)@, value@)),
    {
        let place: usize = self.strings.intern(value.to_owned());
        if place as u64 <= i64::MAX as u64 {
            place as i64
        } else {
            i64::MAX
        }
    }

    /// Hands out the strings.
    pub fn into_vec(self) -> (r: Vec<String>)
        ensures
            views(r@) == self@,
    {
        self.strings.into_items()
    }
}

/// The pprof id (location or function) for the interned frame at `index`.
pub fn frame_id_to_pprof(index: usize) -> (r: u64)
    ensures
        r == pprof_id(index as int),
{
    (index as u64).saturating_add(1)
}

/// What has been laid out of a pprof profile: the strings, the modules and
/// their mappings, the functions and the locations.
#[verifier::ext_equal]
pub struct Layout {
    pub strings: Seq<Seq<char>>,
    pub modules: Seq<Seq<char>>,
    pub mappings: Seq<proto::Mapping>,
    pub functions: Seq<proto::Function>,
    pub locations: Seq<proto::LocationView>,
}

/// A text, or the empty one.
pub open spec fn text_or_empty(text: Option<Seq<char>>) -> Seq<char> {
    match text {
        Some(text) => text,
        None => Seq::empty(),
    }
}

/// Whether a frame has symbol info.
pub open spec fn symbolized(frame: FrameView) -> bool {
    frame.function is Some || frame.file is Some || frame.line is Some
}

impl Layout {
    /// The layout with a mapping for a module: a new one on first sight.
    pub open spec fn with_module(self, module: Seq<char>) -> Layout {
        if self.modules.contains(module) {
            self
        } else {
            let strings = grown(self.strings, module);
            Layout {
                strings,
                modules: self.modules.push(module),
                mappings: self.mappings.push(
                    proto::Mapping {
                        id: pprof_id(self.mappings.len() as int),
                        filename: string_id(place(strings, module)),
                        ..proto::Mapping::blank()
                    },
                ),
                ..self
            }
        }
    }

    /// The layout with the function of a frame.
    pub open spec fn with_function(self, index: int, frame: FrameView) -> Layout {
        let name = text_or_empty(frame.function);
        let file = text_or_empty(frame.file);
        let named = grown(self.strings, name);
        let strings = grown(named, file);
        Layout {
            strings,
            functions: self.functions.push(
                proto::Function {
                    id: pprof_id(index),
                    name: string_id(place(named, name)),
                    filename: string_id(place(strings, file)),
                    ..proto::Function::blank()
                },
            ),
            ..self
        }
    }

    /// The layout with one more frame: one location, with a function and a line
    /// where the frame has symbol info.
    pub open spec fn with_frame(self, index: int, frame: FrameView) -> Layout {
        let mapped = match frame.module {
            Some(module) => self.with_module(module),
            None => self,
        };
        let laid = if symbolized(frame) {
            mapped.with_function(index, frame)
        } else {
            mapped
        };
        Layout {
            locations: laid.locations.push(
                proto::LocationView {
                    id: pprof_id(index),
                    mapping_id: match frame.module {
                        Some(module) => pprof_id(place(mapped.modules, module)),
                        None => 0,
                    },
                    address: match frame.address {
                        Some(address) => address,
                        None => 0,
                    },
                    line: if symbolized(frame) {
                        seq![
                            proto::Line {
                                function_id: pprof_id(index),
                                line: match frame.line {
                                    Some(line) => line as i64,
                                    None => 0,
                                },
                                column: 0,
                            },
                        ]
                    } else {
                        Seq::empty()
                    },
                    is_folded: false,
                },
            ),
            ..laid
        }
    }
}

/// The strings of value kinds, on top of `strings`.
pub open spec fn kind_strings(strings: Seq<Seq<char>>, kinds: Seq<ValueKindView>) -> Seq<Seq<char>>
    decreases kinds.len(),
{
    if kinds.len() == 0 {
        strings
    } else {
        grown(
            grown(kind_strings(strings, kinds.drop_last()), kinds.last().kind),
            kinds.last().unit,
        )
    }
}

/// The value types for value kinds, whose strings go on top of `strings`.
pub open spec fn kind_types(strings: Seq<Seq<char>>, kinds: Seq<ValueKindView>) -> Seq<
    proto::ValueType,
>
    decreases kinds.len(),
{
    if kinds.len() == 0 {
        Seq::empty()
    } else {
        let before = kind_strings(strings, kinds.drop_last());
        let named = grown(before, kinds.last().kind);
        let whole = grown(named, kinds.last().unit);
        kind_types(strings, kinds.drop_last()).push(
            proto::ValueType {
                kind: string_id(place(named, kinds.last().kind)),
                unit: string_id(place(whole, kinds.last().unit)),
            },
        )
    }
}

/// The layout of a list of frames, on top of `strings`.
pub open spec fn lay_out(strings: Seq<Seq<char>>, frames: Seq<FrameView>) -> Layout
    decreases frames.len(),
{
    if frames.len() == 0 {
        Layout {
            strings,
            modules: Seq::empty(),
            mappings: Seq::empty(),
            functions: Seq::empty(),
            locations: Seq::empty(),
        }
    } else {
        lay_out(strings, frames.drop_last()).with_frame(frames.len() - 1, frames.last())
    }
}

/// The locations of a stack, from the leaf to the root.
pub open spec fn stack_locations(stack: Seq<FrameId>) -> Seq<u64> {
    Seq::new(stack.len(), |i: int| pprof_id(stack[stack.len() - 1 - i].0 as int))
}

/// The pprof samples for samples of the model.
pub open spec fn samples_to(samples: Seq<SampleView>) -> Seq<proto::SampleView> {
    Seq::new(
        samples.len(),
        |i: int|
            proto::SampleView {
                location_id: stack_locations(samples[i].stack),
                value: samples[i].values,
                label: Seq::empty(),
            },
    )
}

/// The pprof profile for one of the model.
pub open spec fn to_proto(p: ProfileView) -> proto::ProfileView {
    let first = seq![Seq::<char>::empty()];
    let laid = lay_out(kind_strings(first, p.value_kinds), p.frames);
    proto::ProfileView {
        sample_type: kind_types(first, p.value_kinds),
        sample: samples_to(p.samples),
        mapping: laid.mappings,
        location: laid.locations,
        function: laid.functions,
        string_table: laid.strings,
        ..proto::ProfileView::blank()
    }
}

/// Returns the mapping id for `module`, creating a mapping on first sight.
fn intern_mapping(
    module: &str,
    modules: &mut Interner<String>,
    mappings: &mut Vec<proto::Mapping>,
    strings: &mut StringTable,
    Ghost(layout): Ghost<Layout>,
) -> (r: u64)
    requires
        old(modules).wf(),
        old(strings).wf(),
        old(modules)@ == layout.modules,
        old(mappings)@ == layout.mappings,
        old(strings)@ == layout.strings,
        layout.modules.len() == layout.mappings.len(),
        layout.modules.no_duplicates(),
    ensures
        final(modules).wf(),
        final(strings).wf(),
        final(modules)@ == layout.with_module(module@).modules,
        final(mappings)@ == layout.with_module(module@).mappings,
        final(strings)@ == layout.with_module(module@).strings,
        r == pprof_id(place(layout.with_module(module@).modules, module@)),
        layout.with_module(module@).modules.len() == layout.with_module(module@).mappings.len(),
        layout.with_module(module@).modules.no_duplicates(),
{
    proof {
        law_grown_keeps_places(layout.modules, module@);
    }
    let name = module.to_owned();
    match modules.find(&name) {
        Some(place) => frame_id_to_pprof(place),
        None => {
            let id: u64 = frame_id_to_pprof(mappings.len());
            let mut mapping = proto::Mapping::default();
            mapping.id = id;
            mapping.filename = strings.intern(module);
            mappings.push(mapping);
            let place: usize = modules.intern(name);
            proof {
                assert(modules@[layout.modules.len() as int] == module@);
                crate::intern::lemma_place(modules@, layout.modules.len() as int);
            }
            id
        },
    }
}

/// The text of an optional string, or the empty one.
fn str_or_empty(text: &Option<String>) -> (r: &str)
    ensures
        r@ == text_or_empty(opt_text(*text)),
{
    match text {
        Some(text) => text.as_str(),
        None => {
            proof {
                reveal_strlit("");
            }
            assert(""@ =~= Seq::<char>::empty());
            ""
        },
    }
}

/// Lays out the value kinds.
fn write_kinds(kinds: &Vec<ValueKind>, strings: &mut StringTable) -> (r: Vec<proto::ValueType>)
    requires
        old(strings).wf(),
    ensures
        final(strings).wf(),
        final(strings)@ == kind_strings(old(strings)@, views(kinds@)),
        r@ == kind_types(old(strings)@, views(kinds@)),
{
    let ghost first = strings@;
    let ghost all = views(kinds@);
    let mut out: Vec<proto::ValueType> = Vec::new();
    let mut i: usize = 0;
    assert(all.take(0) =~= Seq::empty());
    while i < kinds.len()
        invariant
            i <= kinds.len(),
            all == views(kinds@),
            strings.wf(),
            strings@ == kind_strings(first, all.take(i as int)),
            out@ == kind_types(first, all.take(i as int)),
        decreases kinds.len() - i,
    {
        let ghost now = all.take(i + 1);
        assert(now.drop_last() =~= all.take(i as int));
        assert(now.last() == kinds@[i as int]@);
        let kind: i64 = strings.intern(kinds[i].kind.as_str());
        let unit: i64 = strings.intern(kinds[i].unit.as_str());
        out.push(proto::ValueType { kind, unit });
        i = i + 1;
    }
    assert(all.take(i as int) =~= all);
    out
}

/// Lays out the stack of a sample, leaf first.
fn write_stack(stack: &Vec<FrameId>) -> (r: Vec<u64>)
    ensures
        r@ == stack_locations(stack@),
{
    let mut out: Vec<u64> = Vec::new();
    let mut i: usize = stack.len();
    while i > 0
        invariant
            i <= stack.len(),
            out@.len() == stack.len() - i,
            forall|j: int|
                0 <= j < out@.len() ==> out@[j] == pprof_id(stack@[stack.len() - 1 - j].0 as int),
        decreases i,
    {
        i = i - 1;
        out.push((stack[i].0 as u64).saturating_add(1));
    }
    assert(out@ =~= stack_locations(stack@));
    out
}

fn write_samples(samples: &Vec<Sample>) -> (r: Vec<proto::Sample>)
    ensures
        views(r@) == samples_to(views(samples@)),
{
    let mut out: Vec<proto::Sample> = Vec::new();
    let mut i: usize = 0;
    while i < samples.len()
        invariant
            i <= samples.len(),
            out@.len() == i,
            forall|j: int| 0 <= j < i ==> (#[trigger] out@[j])@ == samples_to(views(samples@))[j],
        decreases samples.len() - i,
    {
        let sample = proto::Sample {
            location_id: write_stack(&samples[i].stack),
            value: copy_values(&samples[i].values),
            label: Vec::new(),
        };
        assert(sample@ =~= samples_to(views(samples@))[i as int]);
        out.push(sample);
        i = i + 1;
    }
    assert(views(out@) =~= samples_to(views(samples@)));
    out
}

/// Converts the internal model into a pprof profile.
///
/// Each interned [`Frame`] becomes one location at id `index + 1`, plus a
/// function/line when it has symbol info and a deduplicated mapping per module.
/// The 1:1 layout is what makes the round trip exact.
pub fn convert_to_proto(profile: &Profile) -> (r: proto::Profile)
    ensures
        r@ == to_proto(profile@),
{
    let mut strings = StringTable::new();
    let ghost first = strings@;
    let sample_type = write_kinds(&profile.value_kinds, &mut strings);
    let ghost named = strings@;
    let ghost all = profile@.frames;
    let mut modules: Interner<String> = Interner::new();
    let mut mappings: Vec<proto::Mapping> = Vec::new();
    let mut functions: Vec<proto::Function> = Vec::new();
    let mut locations: Vec<proto::Location> = Vec::new();
    let mut index: usize = 0;
    assert(all.take(0) =~= Seq::empty());
    assert(views(locations@) =~= Seq::empty());
    while index < profile.frame_intern.len()
        invariant
            index <= profile.frame_intern.len(),
            all == profile@.frames,
            strings.wf(),
            modules.wf(),
            modules@.len() == mappings@.len(),
            modules@.no_duplicates(),
            lay_out(named, all.take(index as int)) == (Layout {
                strings: strings@,
                modules: modules@,
                mappings: mappings@,
                functions: functions@,
                locations: views(locations@),
            }),
        decreases profile.frame_intern.len() - index,
    {
        let frame = &profile.frame_intern[index];
        let ghost now = all.take(index + 1);
        let ghost before = lay_out(named, all.take(index as int));
        assert(now.drop_last() =~= all.take(index as int));
        assert(now.last() == frame@);
        let id: u64 = frame_id_to_pprof(index);
        let mapping_id: u64 = match &frame.module {
            Some(module) => intern_mapping(
                module.as_str(),
                &mut modules,
                &mut mappings,
                &mut strings,
                Ghost(before),
            ),
            None => 0,
        };
        let mut lines: Vec<proto::Line> = Vec::new();
        if frame.function.is_some() || frame.file.is_some() || frame.line.is_some() {
            let mut function = proto::Function::default();
            function.id = id;
            function.name = strings.intern(str_or_empty(&frame.function));
            function.filename = strings.intern(str_or_empty(&frame.file));
            functions.push(function);
            let mut line = proto::Line::default();
            line.function_id = id;
            line.line = match frame.line {
                Some(line) => line as i64,
                None => 0,
            };
            lines.push(line);
        }
        let location = proto::Location {
            id,
            mapping_id,
            address: match frame.address {
                Some(address) => address,
                None => 0,
            },
            line: lines,
            is_folded: false,
        };
        let ghost said = location@;
        let ghost placed = views(locations@);
        locations.push(location);
        proof {
            assert(views(locations@) =~= placed.push(said));
            let after = before.with_frame(index as int, frame@);
            assert(said.line =~= after.locations.last().line);
            assert(said =~= after.locations.last());
            assert(after =~= Layout {
                strings: strings@,
                modules: modules@,
                mappings: mappings@,
                functions: functions@,
                locations: views(locations@),
            });
        }
        index = index + 1;
    }
    assert(all.take(index as int) =~= all);
    let sample = write_samples(&profile.samples);
    let mut r = proto::Profile::default();
    r.sample_type = sample_type;
    r.sample = sample;
    r.mapping = mappings;
    r.location = locations;
    r.function = functions;
    r.string_table = strings.into_vec();
    assert(r@ =~= to_proto(profile@));
    r
}

/// What bytes that are no pprof message are answered: the first field at fault,
/// and why.
pub open spec fn undecodable(bytes: Seq<u8>) -> ErrorView {
    ErrorView::Decode(
        "invalid pprof protobuf: failed to decode Protobuf message: "@ + profile_fault(bytes),
    )
}

/// What raw protobuf bytes say.
pub open spec fn payload_meaning(bytes: Seq<u8>) -> std::result::Result<ProfileView, ErrorView> {
    match proto::read_message(bytes) {
        Some(message) => from_proto(message),
        None => Err(undecodable(bytes)),
    }
}

/// What bytes say as a pprof profile.
pub open spec fn pprof_meaning(input: Seq<u8>) -> std::result::Result<ProfileView, ErrorView> {
    match payload(input) {
        Some(bytes) => payload_meaning(bytes),
        None => Err(ErrorView::Io),
    }
}

/// Reads raw protobuf bytes.
pub fn read_payload(bytes: &[u8]) -> (r: Result<Profile>)
    ensures
        outcome(r) == payload_meaning(bytes@),
{
    match proto::Profile::decode(bytes) {
        Some(message) => convert_from_proto(&message),
        None => {
            let mut text: String =
                "invalid pprof protobuf: failed to decode Protobuf message: ".to_owned();
            text.push_str(find_profile_fault(bytes).as_str());
            Err(ProfcastError::Decode(text))
        },
    }
}

/// The bytes for a profile, before compression.
pub open spec fn raw_rendering(p: ProfileView) -> Seq<u8> {
    to_proto(p).bytes()
}

/// The bytes for a profile.
pub open spec fn pprof_rendering(p: ProfileView) -> std::result::Result<Seq<u8>, ErrorView> {
    Ok(gzipped(raw_rendering(p)))
}

/// Encodes the model as pprof protobuf, not yet compressed.
pub fn encode_profile(profile: &Profile) -> (r: Vec<u8>)
    ensures
        r@ == raw_rendering(profile@),
{
    convert_to_proto(profile).encode_to_vec()
}

/// Encodes the model as gzip-compressed pprof protobuf.
///
/// What is written starts with the magic bytes of gzip, and its payload is the
/// protobuf encoding, where that is no longer than [`MAX_DECOMPRESSED`].
pub fn write_profile(profile: &Profile) -> (r: Result<Vec<u8>>)
    ensures
        outcome(r) == pprof_rendering(profile@),
        r matches Ok(bytes) ==> is_gzip(bytes@),
        r matches Ok(bytes) ==> raw_rendering(profile@).len() <= MAX_DECOMPRESSED ==> payload(
            bytes@,
        ) == Some(raw_rendering(profile@)),
{
    let raw = encode_profile(profile);
    match gzip(raw.as_slice()) {
        Ok(bytes) => Ok(bytes),
        Err(error) => Err(ProfcastError::Io(error)),
    }
}

/// Whether a message has pprof's hallmarks: the empty string at index 0 plus
/// some structure.
pub open spec fn hallmarked(m: proto::ProfileView) -> bool {
    &&& m.string_table.len() > 0
    &&& m.string_table[0].len() == 0
    &&& m.sample_type.len() > 0 || m.sample.len() > 0 || m.string_table.len() > 1
}

/// How strongly raw protobuf bytes resemble pprof.
pub open spec fn payload_likeness(bytes: Seq<u8>) -> Confidence {
    if proto::read_message(bytes) matches Some(message) && hallmarked(message) {
        Confidence::Likely
    } else {
        Confidence::NoMatch
    }
}

/// How strongly bytes resemble pprof.
pub open spec fn content_likeness(buf: Seq<u8>) -> Confidence {
    match payload(buf) {
        Some(bytes) => payload_likeness(bytes),
        None => Confidence::NoMatch,
    }
}

/// Whether a decoded message has pprof's hallmarks (empty string at index 0
/// plus some structure), rather than being decoded from unrelated bytes.
pub fn looks_like_pprof(message: &proto::Profile) -> (r: bool)
    ensures
        r == hallmarked(message@),
{
    if message.string_table.len() == 0 {
        return false;
    }
    assert(message@.string_table[0] == message.string_table@[0]@);
    let empty_first: bool = message.string_table[0].as_str().is_empty();
    let has_structure: bool = message.sample_type.len() > 0 || message.sample.len() > 0
        || message.string_table.len() > 1;
    empty_first && has_structure
}

/// How strongly raw protobuf bytes resemble pprof.
pub fn probe_payload(bytes: &[u8]) -> (r: Confidence)
    ensures
        r == payload_likeness(bytes@),
{
    match proto::Profile::decode(bytes) {
        Some(message) => if looks_like_pprof(&message) {
            Confidence::Likely
        } else {
            Confidence::NoMatch
        },
        None => Confidence::NoMatch,
    }
}

/// How strongly `buf` resembles pprof: it must decode and pass
/// [`looks_like_pprof`].
pub fn probe_content(buf: &[u8]) -> (r: Confidence)
    ensures
        r == content_likeness(buf@),
{
    match decode_payload(buf) {
        Ok(bytes) => probe_payload(bytes.as_slice()),
        Err(_) => Confidence::NoMatch,
    }
}

impl InputFormat for PprofFormat {
    open spec fn in_name(&self) -> Seq<char> {
        "pprof"@
    }

    open spec fn in_extensions(&self) -> Seq<Seq<char>> {
        seq!["pprof"@, "pb"@]
    }

    open spec fn likeness(&self, data: ProbeView) -> Confidence {
        weigh_name(content_likeness(data.buf), data.filename, seq!["pprof"@, "pb"@])
    }

    open spec fn meaning(&self, input: Seq<u8>) -> std::result::Result<ProfileView, ErrorView> {
        pprof_meaning(input)
    }

    fn name(&self) -> (r: &'static str) {
        "pprof"
    }

    fn extensions(&self) -> (r: &'static [&'static str]) {
        let r: &'static [&'static str] = &["pprof", "pb"];
        assert(word_list(r@) =~= seq!["pprof"@, "pb"@]);
        r
    }

    fn probe(&self, data: &ProbeData<'_>) -> (r: Confidence) {
        weighed(probe_content(data.buf), data.filename, InputFormat::extensions(self))
    }

    fn read(&self, input: &[u8]) -> (r: Result<Profile>) {
        match decode_payload(input) {
            Ok(bytes) => read_payload(bytes.as_slice()),
            Err(error) => Err(error),
        }
    }
}

impl OutputFormat for PprofFormat {
    open spec fn out_name(&self) -> Seq<char> {
        "pprof"@
    }

    open spec fn out_extensions(&self) -> Seq<Seq<char>> {
        seq!["pprof"@, "pb"@, "gz"@]
    }

    open spec fn rendering(&self, profile: ProfileView, options: WriteOptions) -> std::result::Result<
        Seq<u8>,
        ErrorView,
    > {
        pprof_rendering(profile)
    }

    fn name(&self) -> (r: &'static str) {
        "pprof"
    }

    // `gz` is listed so a conventional `*.pb.gz` path infers pprof: a caller
    // only sees the final `.gz` component, and pprof is the only gzipped output
    // profcast produces. (Input detection relies on content probing instead.)
    fn extensions(&self) -> (r: &'static [&'static str]) {
        let r: &'static [&'static str] = &["pprof", "pb", "gz"];
        assert(word_list(r@) =~= seq!["pprof"@, "pb"@, "gz"@]);
        r
    }

    /// What is written reads back as the profile, where that is faithful to
    /// the format and its encoding is no longer than [`MAX_DECOMPRESSED`].
    fn write(&self, profile: &Profile, _options: WriteOptions) -> (r: Result<Vec<u8>>)
        ensures
            r matches Ok(bytes) ==> is_gzip(bytes@),
            r matches Ok(bytes) ==> raw_rendering(profile@).len() <= MAX_DECOMPRESSED ==> payload(
                bytes@,
            ) == Some(raw_rendering(profile@)),
            r matches Ok(bytes) ==> faithful(profile@) && raw_rendering(profile@).len()
                <= MAX_DECOMPRESSED ==> pprof_meaning(bytes@) == Ok::<ProfileView, ErrorView>(
                profile@,
            ),
    {
        let r = write_profile(profile);
        proof {
            if faithful(profile@) && raw_rendering(profile@).len() <= MAX_DECOMPRESSED {
                law_payload_round_trips(profile@);
            }
        }
        r
    }
}

} // verus!

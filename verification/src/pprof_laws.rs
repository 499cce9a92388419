//! What holds of the pprof format as a whole: readers hand out valid profiles,
//! and what is written is read back.

use vstd::prelude::*;

use crate::error::ErrorView;
use crate::intern::{
    grown, grown_all, ids, law_grown_all_keeps_places, law_grown_keeps_places, lemma_place, place,
};
use crate::model::{FrameId, FrameView, ProfileView, SampleView, ValueKindView};
use crate::pprof::{
    address_of, from_proto, function_text, function_with, gather, kind_strings, kind_types,
    kinds_of, lay_out, line_frames, line_of, locate, location_frames, mapping_with, module_text,
    opt_string_at, payload_likeness, payload_meaning, pprof_id, raw_rendering, samples_of,
    samples_to, stack_locations, string_at, string_id, symbolized, text_or_empty, to_proto, Layout,
    Located, MAX_DECOMPRESSED,
};
use crate::proto;
use crate::wire::{field_bytes, fields_bytes, Message};

verus! {

/// Whether a frame can be told in pprof: it has no label of its own, and what
/// is known of it is not empty or zero, which the format takes for unknown.
pub open spec fn faithful_frame(frame: FrameView) -> bool {
    &&& frame.raw.len() == 0
    &&& tellable(frame)
}

/// Whether what is known of a frame besides its label can be told in pprof: it
/// is not empty or zero, which the format takes for unknown.
pub open spec fn tellable(frame: FrameView) -> bool {
    &&& frame.function matches Some(text) ==> text.len() > 0
    &&& frame.file matches Some(text) ==> text.len() > 0
    &&& frame.module matches Some(text) ==> text.len() > 0
    &&& frame.line matches Some(line) ==> line > 0
    &&& frame.address matches Some(address) ==> address > 0
}

/// Whether a profile can be told in pprof: it is valid, its frames are
/// distinct and can be told, and every one of them has an id.
pub open spec fn faithful(p: ProfileView) -> bool {
    &&& p.valid()
    &&& p.frames.no_duplicates()
    &&& p.frames.len() <= u32::MAX
    &&& forall|i: int| 0 <= i < p.frames.len() ==> faithful_frame(#[trigger] p.frames[i])
}

proof fn lemma_ids_fit(table: Seq<FrameView>, frames: Seq<FrameView>)
    requires
        forall|i: int| 0 <= i < frames.len() ==> table.contains(#[trigger] frames[i]),
    ensures
        forall|i: int| 0 <= i < frames.len() ==> (#[trigger] ids(table, frames)[i]).0 < table.len(),
{
    assert forall|i: int| 0 <= i < frames.len() implies (#[trigger] ids(table, frames)[i]).0
        < table.len() by {
        assert(table.contains(frames[i]));
        let k = place(table, frames[i]);
        assert(0 <= k < table.len());
    }
}

/// Whether every id of every location points into the table.
spec fn fits(located: Located) -> bool {
    &&& located.table.no_duplicates()
    &&& forall|id: u64, i: int|
        located.known.contains_key(id) && 0 <= i < located.known[id].len() ==> (
        #[trigger] located.known[id][i]).0 < located.table.len()
}

proof fn lemma_locate_fits(
    locations: Seq<proto::LocationView>,
    functions: Seq<proto::Function>,
    mappings: Seq<proto::Mapping>,
    strings: Seq<Seq<char>>,
)
    ensures
        locate(locations, functions, mappings, strings) matches Ok(located) ==> fits(located),
    decreases locations.len(),
{
    if locations.len() > 0 {
        lemma_locate_fits(locations.drop_last(), functions, mappings, strings);
        if let Ok(after) = locate(locations, functions, mappings, strings) {
            let before = locate(locations.drop_last(), functions, mappings, strings)->Ok_0;
            let location = locations.last();
            if !before.known.contains_key(location.id) {
                let frames = location_frames(location, functions, mappings, strings)->Ok_0;
                law_grown_all_keeps_places(before.table, frames);
                lemma_ids_fit(after.table, frames);
                assert forall|id: u64, i: int|
                    after.known.contains_key(id) && 0 <= i < after.known[id].len() implies (
                #[trigger] after.known[id][i]).0 < after.table.len() by {
                    if id != location.id {
                        assert(before.known[id][i].0 < before.table.len());
                    }
                }
            }
        }
    }
}

proof fn lemma_gather_fits(located: Located, locations: Seq<u64>)
    requires
        fits(located),
    ensures
        gather(located.known, locations) matches Ok(stack) ==> forall|i: int|
            0 <= i < stack.len() ==> (#[trigger] stack[i]).0 < located.table.len(),
    decreases locations.len(),
{
    if locations.len() > 0 {
        lemma_gather_fits(located, locations.drop_last());
        if let Ok(stack) = gather(located.known, locations) {
            let before = gather(located.known, locations.drop_last())->Ok_0;
            let more = located.known[locations.last()];
            assert forall|i: int| 0 <= i < stack.len() implies (#[trigger] stack[i]).0
                < located.table.len() by {
                if i >= before.len() {
                    assert(stack[i] == more[i - before.len()]);
                } else {
                    assert(stack[i] == before[i]);
                }
            }
        }
    }
}

proof fn lemma_samples_fit(located: Located, samples: Seq<proto::SampleView>, kinds: nat)
    requires
        fits(located),
    ensures
        samples_of(samples, located.known, kinds) matches Ok(list) ==> forall|i: int|
            0 <= i < list.len() ==> (#[trigger] list[i]).fits(located.table.len(), kinds),
    decreases samples.len(),
{
    if samples.len() > 0 {
        lemma_samples_fit(located, samples.drop_last(), kinds);
        if let Ok(list) = samples_of(samples, located.known, kinds) {
            let before = samples_of(samples.drop_last(), located.known, kinds)->Ok_0;
            lemma_gather_fits(located, samples.last().location_id);
            let stack = gather(located.known, samples.last().location_id)->Ok_0;
            assert forall|i: int| 0 <= i < list.len() implies (#[trigger] list[i]).fits(
                located.table.len(),
                kinds,
            ) by {
                if i < before.len() {
                    assert(list[i] == before[i]);
                } else {
                    let s = list[i];
                    assert forall|j: int| 0 <= j < s.stack.len() implies (#[trigger] s.stack[j]).0
                        < located.table.len() by {
                        assert(s.stack[j] == stack[stack.len() - 1 - j]);
                    }
                }
            }
        }
    }
}

/// Every profile that comes of a pprof message is valid, and no two of its
/// frames are the same.
pub proof fn law_pprof_reads_valid_profiles(bytes: Seq<u8>)
    ensures
        payload_meaning(bytes) matches Ok(p) ==> p.valid() && p.frames.no_duplicates(),
{
    if let Ok(p) = payload_meaning(bytes) {
        let m = proto::read_message(bytes)->0;
        let located = locate(m.location, m.function, m.mapping, m.string_table)->Ok_0;
        lemma_locate_fits(m.location, m.function, m.mapping, m.string_table);
        lemma_samples_fit(located, m.sample, p.value_kinds.len());
    }
}

/// A payload that reads as a profile with value kinds or samples, and whose
/// string table starts with the empty string as the format has it, is probed
/// as likely.
pub proof fn law_probe_agrees_with_reader(bytes: Seq<u8>)
    requires
        payload_meaning(bytes) is Ok,
        payload_meaning(bytes)->Ok_0.value_kinds.len() > 0 || payload_meaning(
            bytes,
        )->Ok_0.samples.len() > 0,
        proto::read_message(bytes)->0.string_table.len() > 0,
        proto::read_message(bytes)->0.string_table[0].len() == 0,
    ensures
        payload_likeness(bytes) == crate::format::Confidence::Likely,
{
    let m = proto::read_message(bytes)->0;
    let p = payload_meaning(bytes)->Ok_0;
    lemma_kinds_count(m.sample_type, m.string_table);
    let located = locate(m.location, m.function, m.mapping, m.string_table)->Ok_0;
    lemma_samples_count(m.sample, located.known, p.value_kinds.len());
}

proof fn lemma_kinds_count(types: Seq<proto::ValueType>, strings: Seq<Seq<char>>)
    ensures
        kinds_of(types, strings) matches Ok(kinds) ==> kinds.len() == types.len(),
    decreases types.len(),
{
    if types.len() > 0 {
        lemma_kinds_count(types.drop_last(), strings);
    }
}

proof fn lemma_samples_count(
    samples: Seq<proto::SampleView>,
    known: Map<u64, Seq<FrameId>>,
    kinds: nat,
)
    ensures
        samples_of(samples, known, kinds) matches Ok(list) ==> list.len() == samples.len(),
    decreases samples.len(),
{
    if samples.len() > 0 {
        lemma_samples_count(samples.drop_last(), known, kinds);
    }
}

/// A string in a table is found at its index.
proof fn lemma_string_found(table: Seq<Seq<char>>, small: Seq<Seq<char>>, text: Seq<char>)
    requires
        small.no_duplicates(),
        small.contains(text),
        small.is_prefix_of(table),
        table.len() <= i64::MAX,
        table.len() <= usize::MAX,
    ensures
        string_at(table, string_id(place(small, text))) == Ok::<Seq<char>, ErrorView>(text),
        opt_string_at(table, string_id(place(small, text))) == Ok::<Option<Seq<char>>, ErrorView>(
            if text.len() == 0 {
                None
            } else {
                Some(text)
            },
        ),
{
    let k = place(small, text);
    assert(0 <= k < small.len() && small[k] == text);
    assert(table.take(small.len() as int)[k] == small[k]);
}

proof fn lemma_prefix_trans<V>(a: Seq<V>, b: Seq<V>, c: Seq<V>)
    requires
        a.is_prefix_of(b),
        b.is_prefix_of(c),
    ensures
        a.is_prefix_of(c),
{
    assert(c.take(a.len() as int) =~= b.take(a.len() as int));
}

proof fn lemma_kind_strings(strings: Seq<Seq<char>>, kinds: Seq<ValueKindView>)
    requires
        strings.no_duplicates(),
    ensures
        kind_strings(strings, kinds).no_duplicates(),
        strings.is_prefix_of(kind_strings(strings, kinds)),
    decreases kinds.len(),
{
    if kinds.len() > 0 {
        lemma_kind_strings(strings, kinds.drop_last());
        let before = kind_strings(strings, kinds.drop_last());
        let named = grown(before, kinds.last().kind);
        law_grown_keeps_places(before, kinds.last().kind);
        law_grown_keeps_places(named, kinds.last().unit);
        lemma_prefix_trans(strings, before, named);
        lemma_prefix_trans(strings, named, kind_strings(strings, kinds));
    } else {
        assert(strings.take(strings.len() as int) =~= strings);
    }
}

/// The value kinds are read back from the value types.
proof fn lemma_kinds_read_back(
    strings: Seq<Seq<char>>,
    kinds: Seq<ValueKindView>,
    table: Seq<Seq<char>>,
)
    requires
        strings.no_duplicates(),
        kind_strings(strings, kinds).is_prefix_of(table),
        table.len() <= i64::MAX,
        table.len() <= usize::MAX,
    ensures
        kinds_of(kind_types(strings, kinds), table) == Ok::<Seq<ValueKindView>, ErrorView>(kinds),
    decreases kinds.len(),
{
    if kinds.len() > 0 {
        let front = kinds.drop_last();
        let before = kind_strings(strings, front);
        let named = grown(before, kinds.last().kind);
        let whole = grown(named, kinds.last().unit);
        lemma_kind_strings(strings, front);
        law_grown_keeps_places(before, kinds.last().kind);
        law_grown_keeps_places(named, kinds.last().unit);
        lemma_prefix_trans(named, whole, table);
        lemma_prefix_trans(before, named, table);
        lemma_kinds_read_back(strings, front, table);
        lemma_string_found(table, named, kinds.last().kind);
        lemma_string_found(table, whole, kinds.last().unit);
        assert(kind_types(strings, kinds).drop_last() =~= kind_types(strings, front));
        assert(front.push(kinds.last()) =~= kinds);
    } else {
        assert(kinds =~= Seq::empty());
    }
}

/// What holds of a layout: its strings and modules are distinct, each module
/// has its mapping and each function its frame.
spec fn laid(layout: Layout) -> bool {
    &&& layout.strings.no_duplicates()
    &&& layout.modules.no_duplicates()
    &&& layout.mappings.len() == layout.modules.len()
    &&& forall|i: int|
        0 <= i < layout.mappings.len() ==> (#[trigger] layout.mappings[i]).id == pprof_id(i)
    &&& forall|i: int|
        0 <= i < layout.modules.len() ==> layout.strings.contains(#[trigger] layout.modules[i])
            && layout.mappings[i].filename == string_id(place(layout.strings, layout.modules[i]))
}

/// A step from one layout to the next only adds.
spec fn extends(a: Layout, b: Layout) -> bool {
    &&& a.strings.is_prefix_of(b.strings)
    &&& a.modules.is_prefix_of(b.modules)
    &&& a.mappings.is_prefix_of(b.mappings)
    &&& a.functions.is_prefix_of(b.functions)
    &&& a.locations.is_prefix_of(b.locations)
}

proof fn lemma_refl<V>(a: Seq<V>)
    ensures
        a.is_prefix_of(a),
{
    assert(a.take(a.len() as int) =~= a);
}

proof fn lemma_push_prefix<V>(a: Seq<V>, x: V)
    ensures
        a.is_prefix_of(a.push(x)),
{
    assert(a.push(x).take(a.len() as int) =~= a);
}

proof fn lemma_extends_refl(a: Layout)
    ensures
        extends(a, a),
{
    lemma_refl(a.strings);
    lemma_refl(a.modules);
    lemma_refl(a.mappings);
    lemma_refl(a.functions);
    lemma_refl(a.locations);
}

proof fn lemma_extends_trans(a: Layout, b: Layout, c: Layout)
    requires
        extends(a, b),
        extends(b, c),
    ensures
        extends(a, c),
{
    lemma_prefix_trans(a.strings, b.strings, c.strings);
    lemma_prefix_trans(a.modules, b.modules, c.modules);
    lemma_prefix_trans(a.mappings, b.mappings, c.mappings);
    lemma_prefix_trans(a.functions, b.functions, c.functions);
    lemma_prefix_trans(a.locations, b.locations, c.locations);
}

proof fn lemma_module_step(a: Layout, module: Seq<char>)
    requires
        laid(a),
    ensures
        laid(a.with_module(module)),
        extends(a, a.with_module(module)),
        a.with_module(module).modules.contains(module),
        a.with_module(module).functions == a.functions,
        a.with_module(module).locations == a.locations,
{
    lemma_extends_refl(a);
    let b = a.with_module(module);
    if !a.modules.contains(module) {
        law_grown_keeps_places(a.strings, module);
        law_grown_keeps_places(a.modules, module);
        assert(b.modules =~= grown(a.modules, module));
        lemma_push_prefix(a.modules, module);
        lemma_push_prefix(a.mappings, b.mappings.last());
        assert forall|i: int| 0 <= i < b.mappings.len() implies (#[trigger] b.mappings[i]).id
            == pprof_id(i) by {
            if i < a.mappings.len() {
                assert(b.mappings[i] == a.mappings[i]);
            }
        }
        assert forall|i: int| 0 <= i < b.modules.len() implies b.strings.contains(
            #[trigger] b.modules[i],
        ) && b.mappings[i].filename == string_id(place(b.strings, b.modules[i])) by {
            if i < a.modules.len() {
                assert(b.modules[i] == a.modules[i]);
                assert(a.strings.contains(a.modules[i]));
            }
        }
    }
}

proof fn lemma_function_step(a: Layout, index: int, frame: FrameView)
    requires
        laid(a),
    ensures
        laid(a.with_function(index, frame)),
        extends(a, a.with_function(index, frame)),
        a.with_function(index, frame).modules == a.modules,
        a.with_function(index, frame).mappings == a.mappings,
        a.with_function(index, frame).locations == a.locations,
{
    lemma_extends_refl(a);
    let name = text_or_empty(frame.function);
    let file = text_or_empty(frame.file);
    let named = grown(a.strings, name);
    law_grown_keeps_places(a.strings, name);
    law_grown_keeps_places(named, file);
    lemma_prefix_trans(a.strings, named, grown(named, file));
    let b = a.with_function(index, frame);
    assert forall|i: int| 0 <= i < b.modules.len() implies b.strings.contains(
        #[trigger] b.modules[i],
    ) && b.mappings[i].filename == string_id(place(b.strings, b.modules[i])) by {
        assert(a.strings.contains(a.modules[i]));
        assert(named.contains(a.modules[i]));
    }
    lemma_push_prefix(a.functions, a.with_function(index, frame).functions.last());
}

proof fn lemma_frame_step(a: Layout, index: int, frame: FrameView)
    requires
        laid(a),
    ensures
        laid(a.with_frame(index, frame)),
        extends(a, a.with_frame(index, frame)),
{
    lemma_extends_refl(a);
    let mapped = match frame.module {
        Some(module) => a.with_module(module),
        None => a,
    };
    if let Some(module) = frame.module {
        lemma_module_step(a, module);
    }
    lemma_extends_refl(mapped);
    let done = if symbolized(frame) {
        mapped.with_function(index, frame)
    } else {
        mapped
    };
    if symbolized(frame) {
        lemma_function_step(mapped, index, frame);
    }
    let b = a.with_frame(index, frame);
    lemma_extends_refl(done);
    lemma_push_prefix(done.locations, b.locations.last());
    lemma_extends_trans(a, mapped, done);
    lemma_extends_trans(a, done, b);
}

proof fn lemma_lay_out(strings: Seq<Seq<char>>, frames: Seq<FrameView>, n: int)
    requires
        strings.no_duplicates(),
        0 <= n <= frames.len(),
    ensures
        laid(lay_out(strings, frames.take(n))),
        laid(lay_out(strings, frames)),
        extends(lay_out(strings, frames.take(n)), lay_out(strings, frames)),
        strings.is_prefix_of(lay_out(strings, frames).strings),
        lay_out(strings, frames).locations.len() == frames.len(),
        lay_out(strings, frames).modules.len() <= frames.len(),
    decreases frames.len(),
{
    let all = lay_out(strings, frames);
    if frames.len() > 0 {
        let front = frames.drop_last();
        let m: int = if n == frames.len() {
            n - 1
        } else {
            n
        };
        lemma_lay_out(strings, front, m);
        let mid = lay_out(strings, front);
        lemma_frame_step(mid, frames.len() - 1, frames.last());
        lemma_prefix_trans(strings, mid.strings, all.strings);
        if n == frames.len() {
            assert(frames.take(n) =~= frames);
            lemma_extends_refl(all);
        } else {
            assert(front.take(n) =~= frames.take(n));
            lemma_extends_trans(lay_out(strings, frames.take(n)), mid, all);
        }
    } else {
        assert(frames.take(n) =~= frames);
        lemma_extends_refl(all);
        lemma_refl(strings);
    }
}

/// A mapping is found under its id.
proof fn lemma_mapping_found(mappings: Seq<proto::Mapping>, i: int)
    requires
        0 <= i < mappings.len(),
        mappings.len() <= u32::MAX,
        forall|j: int| 0 <= j < mappings.len() ==> (#[trigger] mappings[j]).id == pprof_id(j),
    ensures
        mapping_with(mappings, pprof_id(i)) == Some(mappings[i]),
    decreases mappings.len(),
{
    if i < mappings.len() - 1 {
        let front = mappings.drop_last();
        assert(mappings[mappings.len() - 1].id == pprof_id(mappings.len() - 1));
        assert forall|j: int| 0 <= j < front.len() implies (#[trigger] front[j]).id == pprof_id(
            j,
        ) by {
            assert(front[j] == mappings[j]);
        }
        lemma_mapping_found(front, i);
    } else {
        assert(mappings[i].id == pprof_id(i));
    }
}

/// No mapping has the id zero.
proof fn lemma_no_mapping(mappings: Seq<proto::Mapping>)
    requires
        forall|j: int| 0 <= j < mappings.len() ==> (#[trigger] mappings[j]).id == pprof_id(j),
    ensures
        mapping_with(mappings, 0) is None,
    decreases mappings.len(),
{
    if mappings.len() > 0 {
        let front = mappings.drop_last();
        assert(mappings[mappings.len() - 1].id == pprof_id(mappings.len() - 1));
        assert forall|j: int| 0 <= j < front.len() implies (#[trigger] front[j]).id == pprof_id(
            j,
        ) by {
            assert(front[j] == mappings[j]);
        }
        lemma_no_mapping(front);
    }
}

/// The ids of functions grow with the frames they belong to.
spec fn function_ids_below(functions: Seq<proto::Function>, bound: int) -> bool {
    forall|j: int| 0 <= j < functions.len() ==> (#[trigger] functions[j]).id <= bound
}

/// The function of a frame is found in any later layout.
proof fn lemma_function_found(
    strings: Seq<Seq<char>>,
    frames: Seq<FrameView>,
    k: int,
)
    requires
        0 <= k < frames.len() <= u32::MAX,
        symbolized(frames[k]),
    ensures
        function_with(lay_out(strings, frames).functions, pprof_id(k)) == Some(
            lay_out(strings, frames.take(k + 1)).functions.last(),
        ),
        function_ids_below(lay_out(strings, frames).functions, frames.len() as int),
    decreases frames.len(),
{
    lemma_function_bound(strings, frames);
    let front = frames.drop_last();
    let all = lay_out(strings, frames).functions;
    let before = lay_out(strings, front).functions;
    let last = frames.last();
    if k == frames.len() - 1 {
        assert(frames.take(k + 1) =~= frames);
        assert(all.last().id == pprof_id(k));
    } else {
        lemma_function_found(strings, front, k);
        assert(front.take(k + 1) =~= frames.take(k + 1));
        if symbolized(last) {
            assert(all.drop_last() =~= before);
            assert(all.last().id == pprof_id(frames.len() - 1));
        } else {
            assert(all == before);
        }
    }
}

proof fn lemma_function_bound(strings: Seq<Seq<char>>, frames: Seq<FrameView>)
    requires
        frames.len() <= u32::MAX,
    ensures
        function_ids_below(lay_out(strings, frames).functions, frames.len() as int),
    decreases frames.len(),
{
    if frames.len() > 0 {
        let front = frames.drop_last();
        lemma_function_bound(strings, front);
        let all = lay_out(strings, frames).functions;
        let before = lay_out(strings, front).functions;
        assert forall|j: int| 0 <= j < all.len() implies (#[trigger] all[j]).id
            <= frames.len() by {
            if j < before.len() {
                assert(all[j] == before[j]);
            }
        }
    }
}

/// A text that is there and not empty.
pub open spec fn known_text(text: Option<Seq<char>>) -> Option<Seq<char>> {
    if text is Some && text->0.len() > 0 {
        text
    } else {
        None
    }
}

/// What can be told of a frame in pprof: nothing of its label, and no empty text,
/// line zero or address zero.
pub open spec fn known(frame: FrameView) -> FrameView {
    FrameView {
        raw: Seq::empty(),
        function: known_text(frame.function),
        file: known_text(frame.file),
        line: if frame.line == Some(0u32) {
            None
        } else {
            frame.line
        },
        module: known_text(frame.module),
        address: if frame.address == Some(0u64) {
            None
        } else {
            frame.address
        },
    }
}

/// What can be told of a frame is read back from its location in the whole
/// layout.
proof fn lemma_location_told(strings: Seq<Seq<char>>, frames: Seq<FrameView>, k: int)
    requires
        strings.no_duplicates(),
        0 <= k < frames.len() <= u32::MAX,
        lay_out(strings, frames).strings.len() <= i64::MAX,
        lay_out(strings, frames).strings.len() <= usize::MAX,
    ensures
        location_frames(
            lay_out(strings, frames).locations[k],
            lay_out(strings, frames).functions,
            lay_out(strings, frames).mappings,
            lay_out(strings, frames).strings,
        ) == Ok::<Seq<FrameView>, ErrorView>(
            seq![known(frames[k])],
        ),
        lay_out(strings, frames).locations[k].id == pprof_id(k),
{
    let all = lay_out(strings, frames);
    let frame = frames[k];
    let bare = known(frame);
    let here = frames.take(k + 1);
    assert(here.drop_last() =~= frames.take(k));
    assert(here.last() == frame);
    let a = lay_out(strings, frames.take(k));
    let b = lay_out(strings, here);
    lemma_lay_out(strings, frames, k);
    lemma_lay_out(strings, frames, k + 1);
    lemma_lay_out(strings, here, k + 1);
    assert(b.locations.len() == k + 1);
    let location = all.locations[k];
    assert(location == b.locations[k]) by {
        assert(all.locations.take(b.locations.len() as int)[k] == b.locations[k]);
    }
    let mapped = match frame.module {
        Some(module) => a.with_module(module),
        None => a,
    };
    // The module comes back from its mapping.
    assert(module_text(all.mappings, location.mapping_id, all.strings) == Ok::<
        Option<Seq<char>>,
        ErrorView,
    >(bare.module)) by {
        if let Some(module) = frame.module {
            lemma_module_step(a, module);
            assert(mapped.modules == b.modules);
            let j = place(mapped.modules, module);
            assert(0 <= j < mapped.modules.len() && mapped.modules[j] == module);
            assert(all.modules[j] == module) by {
                assert(all.modules.take(b.modules.len() as int)[j] == b.modules[j]);
            }
            lemma_mapping_found(all.mappings, j);
            lemma_refl(all.strings);
            assert(all.strings.contains(all.modules[j]));
            lemma_string_found(all.strings, all.strings, module);
        } else {
            lemma_no_mapping(all.mappings);
        }
    }
    let address: u64 = match frame.address {
        Some(address) => address,
        None => 0,
    };
    assert(address_of(address) == bare.address);
    if symbolized(frame) {
        if let Some(module) = frame.module {
            lemma_module_step(a, module);
        }
        let name = text_or_empty(frame.function);
        let file = text_or_empty(frame.file);
        let named = grown(mapped.strings, name);
        let whole = grown(named, file);
        law_grown_keeps_places(mapped.strings, name);
        law_grown_keeps_places(named, file);
        assert(b.strings == whole);
        lemma_prefix_trans(named, whole, all.strings);
        lemma_string_found(all.strings, named, name);
        lemma_string_found(all.strings, whole, file);
        lemma_function_found(strings, frames, k);
        let line = location.line[0];
        assert(location.line =~= seq![line]);
        assert(line.function_id == pprof_id(k));
        assert(function_text(all.functions, pprof_id(k), all.strings) == Ok::<
            (Option<Seq<char>>, Option<Seq<char>>),
            ErrorView,
        >((bare.function, bare.file)));
        assert(line_of(line.line) == bare.line);
        assert(location.line.drop_last() =~= Seq::empty());
        assert(line_frames(
            location.line.drop_last(),
            location.address,
            bare.module,
            all.functions,
            all.strings,
        ) == Ok::<Seq<FrameView>, ErrorView>(Seq::empty()));
        let told = line_frames(
            location.line,
            location.address,
            bare.module,
            all.functions,
            all.strings,
        )->Ok_0;
        assert(told =~= seq![bare]) by {
            assert(told[0] =~= bare);
        }
    } else {
        let told = location_frames(location, all.functions, all.mappings, all.strings)->Ok_0;
        assert(told =~= seq![bare]) by {
            assert(told[0] =~= bare);
        }
    }
}

/// A frame is read back from its location in the whole layout.
proof fn lemma_location_read_back(strings: Seq<Seq<char>>, frames: Seq<FrameView>, k: int)
    requires
        strings.no_duplicates(),
        0 <= k < frames.len() <= u32::MAX,
        tellable(frames[k]),
        lay_out(strings, frames).strings.len() <= i64::MAX,
        lay_out(strings, frames).strings.len() <= usize::MAX,
    ensures
        location_frames(
            lay_out(strings, frames).locations[k],
            lay_out(strings, frames).functions,
            lay_out(strings, frames).mappings,
            lay_out(strings, frames).strings,
        ) == Ok::<Seq<FrameView>, ErrorView>(
            seq![FrameView { raw: Seq::empty(), ..frames[k] }],
        ),
        lay_out(strings, frames).locations[k].id == pprof_id(k),
{
    lemma_location_told(strings, frames, k);
    assert(known(frames[k]) =~= (FrameView { raw: Seq::empty(), ..frames[k] }));
}

/// What is known after `n` locations of a layout.
spec fn knows(located: Located, frames: Seq<FrameView>, n: int) -> bool {
    &&& located.table == frames.take(n)
    &&& forall|i: int|
        0 <= i < n ==> located.known.contains_key(#[trigger] pprof_id(i))
            && located.known[pprof_id(i)] == seq![FrameId(i as u32)]
    &&& forall|id: u64| #[trigger] located.known.contains_key(id) ==> id <= n
}

proof fn lemma_locate_read_back(strings: Seq<Seq<char>>, frames: Seq<FrameView>, n: int)
    requires
        strings.no_duplicates(),
        0 <= n <= frames.len() <= u32::MAX,
        frames.no_duplicates(),
        forall|i: int| 0 <= i < frames.len() ==> faithful_frame(#[trigger] frames[i]),
        lay_out(strings, frames).strings.len() <= i64::MAX,
        lay_out(strings, frames).strings.len() <= usize::MAX,
    ensures
        locate(
            lay_out(strings, frames).locations.take(n),
            lay_out(strings, frames).functions,
            lay_out(strings, frames).mappings,
            lay_out(strings, frames).strings,
        ) matches Ok(located) && knows(located, frames, n),
    decreases n,
{
    let all = lay_out(strings, frames);
    lemma_lay_out(strings, frames, n);
    if n == 0 {
        assert(all.locations.take(0) =~= Seq::empty());
        assert(frames.take(0) =~= Seq::empty());
    } else {
        let k = n - 1;
        lemma_locate_read_back(strings, frames, k);
        lemma_location_read_back(strings, frames, k);
        let list = all.locations.take(n);
        assert(list.drop_last() =~= all.locations.take(k));
        assert(list.last() == all.locations[k]);
        let before = locate(
            all.locations.take(k),
            all.functions,
            all.mappings,
            all.strings,
        )->Ok_0;
        let after = locate(list, all.functions, all.mappings, all.strings)->Ok_0;
        let frame = frames[k];
        assert(FrameView { raw: Seq::empty(), ..frame } =~= frame);
        assert(!before.known.contains_key(pprof_id(k)));
        assert(!frames.take(k).contains(frame)) by {
            if frames.take(k).contains(frame) {
                let j = frames.take(k).index_of(frame);
                assert(frames[j] == frames[k]);
            }
        }
        let one = seq![frame];
        assert(one.drop_last() =~= Seq::empty());
        assert(grown_all(frames.take(k), one.drop_last()) == frames.take(k));
        assert(grown_all(frames.take(k), one) =~= frames.take(n));
        assert(frames.take(n)[k] == frame);
        lemma_place(frames.take(n), k);
        assert(ids(frames.take(n), one) =~= seq![FrameId(k as u32)]);
        assert(after.known == before.known.insert(pprof_id(k), seq![FrameId(k as u32)]));
        assert forall|i: int| 0 <= i < n implies after.known.contains_key(#[trigger] pprof_id(i))
            && after.known[pprof_id(i)] == seq![FrameId(i as u32)] by {
            if i < k {
                assert(before.known.contains_key(pprof_id(i)));
            }
        }
    }
}

proof fn lemma_gather_read_back(
    located: Located,
    frames: Seq<FrameView>,
    stack: Seq<FrameId>,
    n: int,
)
    requires
        knows(located, frames, frames.len() as int),
        frames.len() <= u32::MAX,
        0 <= n <= stack.len(),
        forall|i: int| 0 <= i < stack.len() ==> (#[trigger] stack[i]).0 < frames.len(),
    ensures
        gather(located.known, stack_locations(stack).take(n)) == Ok::<Seq<FrameId>, ErrorView>(
            stack.reverse().take(n),
        ),
    decreases n,
{
    let list = stack_locations(stack);
    if n > 0 {
        lemma_gather_read_back(located, frames, stack, n - 1);
        assert(list.take(n).drop_last() =~= list.take(n - 1));
        let id = stack[stack.len() - n];
        assert(list.take(n).last() == pprof_id(id.0 as int));
        assert(located.known.contains_key(pprof_id(id.0 as int)));
        assert(stack.reverse().take(n - 1) + seq![id] =~= stack.reverse().take(n));
    } else {
        assert(list.take(0) =~= Seq::empty());
        assert(stack.reverse().take(0) =~= Seq::empty());
    }
}

proof fn lemma_samples_read_back(
    located: Located,
    p: ProfileView,
    n: int,
)
    requires
        knows(located, p.frames, p.frames.len() as int),
        p.frames.len() <= u32::MAX,
        p.valid(),
        0 <= n <= p.samples.len(),
    ensures
        samples_of(samples_to(p.samples).take(n), located.known, p.value_kinds.len()) == Ok::<
            Seq<SampleView>,
            ErrorView,
        >(p.samples.take(n)),
    decreases n,
{
    let list = samples_to(p.samples);
    if n > 0 {
        lemma_samples_read_back(located, p, n - 1);
        assert(list.take(n).drop_last() =~= list.take(n - 1));
        let sample = p.samples[n - 1];
        assert(sample.fits(p.frames.len(), p.value_kinds.len()));
        lemma_gather_read_back(located, p.frames, sample.stack, sample.stack.len() as int);
        let locations = stack_locations(sample.stack);
        assert(locations.take(locations.len() as int) =~= locations);
        let back = sample.stack.reverse();
        assert(back.take(back.len() as int) =~= back);
        assert(back.reverse() =~= sample.stack);
        assert(list.take(n).last() == list[n - 1]);
        assert(p.samples.take(n - 1).push(sample) =~= p.samples.take(n));
    } else {
        assert(list.take(0) =~= Seq::empty());
        assert(p.samples.take(0) =~= Seq::empty());
    }
}

/// A profile of the model comes back from the pprof profile it is converted to,
/// frame for frame and sample for sample, where it can be told in pprof. The
/// string table has no more entries than an index can tell.
pub proof fn law_conversion_round_trips(p: ProfileView)
    requires
        faithful(p),
        to_proto(p).string_table.len() <= i64::MAX,
        to_proto(p).string_table.len() <= usize::MAX,
    ensures
        from_proto(to_proto(p)) == Ok::<ProfileView, ErrorView>(p),
{
    let m = to_proto(p);
    let first = seq![Seq::<char>::empty()];
    let strings = kind_strings(first, p.value_kinds);
    assert(first.no_duplicates());
    lemma_kind_strings(first, p.value_kinds);
    lemma_lay_out(strings, p.frames, 0);
    lemma_kinds_read_back(first, p.value_kinds, m.string_table);
    let n = p.frames.len() as int;
    lemma_locate_read_back(strings, p.frames, n);
    assert(m.location.take(n) =~= m.location);
    assert(p.frames.take(n) =~= p.frames);
    let located = locate(m.location, m.function, m.mapping, m.string_table)->Ok_0;
    lemma_samples_read_back(located, p, p.samples.len() as int);
    assert(m.sample.take(p.samples.len() as int) =~= m.sample);
    assert(p.samples.take(p.samples.len() as int) =~= p.samples);
}

/// Every location that is written stands for what can be told of its own frame,
/// and for no other, and has the index of that frame, counted from one, as its id. The
/// value types stand for the value kinds.
pub proof fn law_locations_stand_for_their_frames(p: ProfileView)
    requires
        p.frames.len() <= u32::MAX,
        to_proto(p).string_table.len() <= i64::MAX,
        to_proto(p).string_table.len() <= usize::MAX,
    ensures
        ({
            let m = to_proto(p);
            &&& m.location.len() == p.frames.len()
            &&& forall|k: int|
                0 <= k < p.frames.len() ==> {
                    &&& (#[trigger] m.location[k]).id == k + 1
                    &&& location_frames(m.location[k], m.function, m.mapping, m.string_table)
                        == Ok::<Seq<FrameView>, ErrorView>(
                        seq![known(p.frames[k])],
                    )
                }
            &&& kinds_of(m.sample_type, m.string_table) == Ok::<Seq<ValueKindView>, ErrorView>(
                p.value_kinds,
            )
        }),
{
    let m = to_proto(p);
    let first = seq![Seq::<char>::empty()];
    let strings = kind_strings(first, p.value_kinds);
    assert(first.no_duplicates());
    lemma_kind_strings(first, p.value_kinds);
    lemma_lay_out(strings, p.frames, 0);
    lemma_kinds_read_back(first, p.value_kinds, m.string_table);
    assert forall|k: int| 0 <= k < p.frames.len() implies {
        &&& (#[trigger] m.location[k]).id == k + 1
        &&& location_frames(m.location[k], m.function, m.mapping, m.string_table) == Ok::<
            Seq<FrameView>,
            ErrorView,
        >(seq![known(p.frames[k])])
    } by {
        lemma_location_told(strings, p.frames, k);
    }
}

/// What is written has a string table that starts with the empty string and
/// holds nothing twice, one mapping for each distinct module, and the samples in
/// their order: each with its values, and with the locations of its frames, which
/// are numbered from one, from the leaf to the root. Nothing else is set.
pub proof fn law_messages_are_written_as_they_stand(p: ProfileView)
    ensures
        ({
            let m = to_proto(p);
            &&& m.string_table.len() > 0
            &&& m.string_table[0].len() == 0
            &&& m.string_table.no_duplicates()
            &&& m.sample_type.len() == p.value_kinds.len()
            &&& m.location.len() == p.frames.len()
            &&& m.sample.len() == p.samples.len()
            &&& forall|i: int|
                0 <= i < p.samples.len() ==> {
                    &&& (#[trigger] m.sample[i]).value == p.samples[i].values
                    &&& m.sample[i].location_id.len() == p.samples[i].stack.len()
                    &&& m.sample[i].label.len() == 0
                }
            &&& forall|i: int, j: int|
                0 <= i < p.samples.len() && 0 <= j < p.samples[i].stack.len()
                    ==> #[trigger] m.sample[i].location_id[j] == p.samples[i].stack[
                p.samples[i].stack.len() - 1 - j].0 + 1
            &&& m.mapping.len() <= p.frames.len()
            &&& forall|i: int|
                0 <= i < m.mapping.len() && m.mapping.len() <= u32::MAX ==> (
                #[trigger] m.mapping[i]).id == i + 1
            &&& m.drop_frames == 0
            &&& m.keep_frames == 0
            &&& m.time_nanos == 0
            &&& m.duration_nanos == 0
            &&& m.period_type is None
            &&& m.period == 0
            &&& m.comment.len() == 0
            &&& m.default_sample_type == 0
            &&& m.doc_url == 0
        }),
{
    let m = to_proto(p);
    let first = seq![Seq::<char>::empty()];
    let strings = kind_strings(first, p.value_kinds);
    assert(first.no_duplicates());
    lemma_kind_strings(first, p.value_kinds);
    lemma_lay_out(strings, p.frames, 0);
    lemma_prefix_trans(first, strings, m.string_table);
    assert(m.string_table.take(1)[0] == first[0]);
    lemma_types_count(first, p.value_kinds);
}

proof fn lemma_strings_count(tag: nat, bodies: Seq<Seq<u8>>, n: int)
    requires
        0 <= n <= bodies.len(),
    ensures
        fields_bytes(proto::repeated(tag, bodies).take(n)).len() >= n,
    decreases n,
{
    let fields = proto::repeated(tag, bodies);
    if n > 0 {
        lemma_strings_count(tag, bodies, n - 1);
        assert(fields.take(n).drop_last() =~= fields.take(n - 1));
        assert(fields.take(n).last() == fields[n - 1]);
        assert(crate::wire::write_varint(tag * 8 + 2).len() > 0);
        assert(field_bytes(fields[n - 1]).len() > 0);
    }
}

proof fn lemma_string_table_is_short(m: proto::ProfileView)
    ensures
        m.string_table.len() <= m.bytes().len(),
{
    let bodies = proto::string_bodies(m.string_table);
    let f6 = proto::repeated(6, bodies);
    lemma_strings_count(6, bodies, bodies.len() as int);
    assert(f6.take(f6.len() as int) =~= f6);
    let front = m.list_fields().take(m.list_fields().len() - f6.len());
    assert(front + f6 =~= m.list_fields());
    crate::wire::lemma_fields_bytes_concat(front, f6);
    crate::wire::lemma_fields_bytes_concat(m.list_fields(), m.own_fields());
}

/// A profile that can be told in pprof is read back from the protobuf bytes
/// that it is written as, where they are no longer than the cap on
/// decompressed bytes.
pub proof fn law_payload_round_trips(p: ProfileView)
    requires
        faithful(p),
        raw_rendering(p).len() <= MAX_DECOMPRESSED,
    ensures
        payload_meaning(raw_rendering(p)) == Ok::<ProfileView, ErrorView>(p),
{
    lemma_string_table_is_short(to_proto(p));
    proto::law_message_reads_back(to_proto(p));
    law_conversion_round_trips(p);
}

/// Whether a layout says no more than frames do: mappings have a file name alone,
/// functions a name and a file name, and locations at most one line each.
pub open spec fn says_no_more(m: proto::ProfileView) -> bool {
    &&& forall|i: int|
        0 <= i < m.mapping.len() ==> #[trigger] m.mapping[i] == (proto::Mapping {
            id: m.mapping[i].id,
            memory_start: 0,
            memory_limit: 0,
            file_offset: 0,
            filename: m.mapping[i].filename,
            build_id: 0,
            has_functions: false,
            has_filenames: false,
            has_line_numbers: false,
            has_inline_frames: false,
        })
    &&& forall|i: int|
        0 <= i < m.function.len() ==> (#[trigger] m.function[i]).system_name == 0
            && m.function[i].start_line == 0
    &&& forall|i: int|
        0 <= i < m.location.len() ==> {
            &&& !(#[trigger] m.location[i]).is_folded
            &&& m.location[i].line.len() <= 1
            &&& m.location[i].line.len() == 1 ==> m.location[i].line[0].column == 0
        }
}

/// The message that has no more than a layout in it.
spec fn laid_message(layout: Layout) -> proto::ProfileView {
    proto::ProfileView {
        mapping: layout.mappings,
        function: layout.functions,
        location: layout.locations,
        ..proto::ProfileView::blank()
    }
}

proof fn lemma_says_no_more(strings: Seq<Seq<char>>, frames: Seq<FrameView>)
    ensures
        says_no_more(laid_message(lay_out(strings, frames))),
        forall|k: int|
            0 <= k < frames.len() && k < lay_out(strings, frames).locations.len() ==> (
            #[trigger] lay_out(strings, frames).locations[k].line).len() == (if frames[k].function is Some
                || frames[k].file is Some || frames[k].line is Some {
                1nat
            } else {
                0
            }),
        lay_out(strings, frames).locations.len() == frames.len(),
    decreases frames.len(),
{
    let all = lay_out(strings, frames);
    let after = laid_message(all);
    if frames.len() > 0 {
        let front = frames.drop_last();
        lemma_says_no_more(strings, front);
        let mid = lay_out(strings, front);
        let before = laid_message(mid);
        assert forall|i: int| 0 <= i < after.mapping.len() implies #[trigger] after.mapping[i] == (
        proto::Mapping {
            id: after.mapping[i].id,
            memory_start: 0,
            memory_limit: 0,
            file_offset: 0,
            filename: after.mapping[i].filename,
            build_id: 0,
            has_functions: false,
            has_filenames: false,
            has_line_numbers: false,
            has_inline_frames: false,
        }) by {
            if i < before.mapping.len() {
                assert(after.mapping[i] == before.mapping[i]);
            }
        }
        assert forall|i: int| 0 <= i < after.function.len() implies (
        #[trigger] after.function[i]).system_name == 0 && after.function[i].start_line == 0 by {
            if i < before.function.len() {
                assert(after.function[i] == before.function[i]);
            }
        }
        assert forall|i: int| 0 <= i < after.location.len() implies {
            &&& !(#[trigger] after.location[i]).is_folded
            &&& after.location[i].line.len() <= 1
            &&& after.location[i].line.len() == 1 ==> after.location[i].line[0].column == 0
        } by {
            if i < before.location.len() {
                assert(after.location[i] == before.location[i]);
            }
        }
        assert forall|k: int| 0 <= k < frames.len() && k < all.locations.len() implies (
        #[trigger] all.locations[k].line).len() == (if frames[k].function is Some
            || frames[k].file is Some || frames[k].line is Some {
            1nat
        } else {
            0
        }) by {
            if k < front.len() {
                assert(all.locations[k] == mid.locations[k]);
                assert(mid.locations[k].line == all.locations[k].line);
                assert(front[k] == frames[k]);
            }
        }
    }
}

/// What is written says nothing that the frames do not say, and a location has a
/// line exactly where its frame has a function, a file or a line.
pub proof fn law_locations_say_no_more_than_frames(p: ProfileView, k: int)
    requires
        0 <= k < p.frames.len(),
    ensures
        says_no_more(to_proto(p)),
        to_proto(p).location[k].line.len() == (if p.frames[k].function is Some
            || p.frames[k].file is Some || p.frames[k].line is Some {
            1nat
        } else {
            0
        }),
{
    let first = seq![Seq::<char>::empty()];
    let strings = kind_strings(first, p.value_kinds);
    lemma_says_no_more(strings, p.frames);
    let all = lay_out(strings, p.frames);
    assert(all.locations[k].line == to_proto(p).location[k].line);
    let m = laid_message(all);
    assert(m.mapping == to_proto(p).mapping);
    assert(m.function == to_proto(p).function);
    assert(m.location == to_proto(p).location);
}

/// The protobuf bytes that a profile is written as say the message that it was
/// converted to, where they are no longer than the cap on decompressed bytes.
pub proof fn law_payload_says_the_message(p: ProfileView)
    requires
        raw_rendering(p).len() <= MAX_DECOMPRESSED,
    ensures
        proto::read_message(raw_rendering(p)) == Some(to_proto(p)),
        payload_meaning(raw_rendering(p)) == from_proto(to_proto(p)),
        to_proto(p).string_table.len() <= MAX_DECOMPRESSED,
{
    lemma_string_table_is_short(to_proto(p));
    proto::law_message_reads_back(to_proto(p));
}

/// What is written is probed as likely, where there is a value kind or a
/// sample, and the bytes are no longer than the cap on decompressed bytes.
pub proof fn law_probe_accepts_own_output(p: ProfileView)
    requires
        p.value_kinds.len() > 0 || p.samples.len() > 0,
        raw_rendering(p).len() <= MAX_DECOMPRESSED,
    ensures
        payload_likeness(raw_rendering(p)) == crate::format::Confidence::Likely,
{
    let m = to_proto(p);
    proto::law_message_reads_back(m);
    let first = seq![Seq::<char>::empty()];
    assert(first.no_duplicates());
    lemma_kind_strings(first, p.value_kinds);
    let strings = kind_strings(first, p.value_kinds);
    lemma_lay_out(strings, p.frames, 0);
    lemma_prefix_trans(first, strings, m.string_table);
    assert(m.string_table.take(1)[0] == first[0]);
    lemma_types_count(first, p.value_kinds);
}

proof fn lemma_types_count(strings: Seq<Seq<char>>, kinds: Seq<ValueKindView>)
    ensures
        kind_types(strings, kinds).len() == kinds.len(),
    decreases kinds.len(),
{
    if kinds.len() > 0 {
        lemma_types_count(strings, kinds.drop_last());
    }
}

} // verus!

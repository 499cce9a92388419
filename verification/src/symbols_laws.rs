//! What resolving an address to a function means: which segment, which symbol,
//! which region and which binary count.

use vstd::prelude::*;

use crate::model::FrameView;
use crate::number::{all_digits, digit, hexadecimal, law_hexadecimal_reads_back, read_unsigned};
use crate::picking::{lemma_picked_more, lemma_picked_none, picked};
use crate::sorting::{law_stable_order_sorts, orders};
use crate::symbols::{
    base_name, dynamic_symbols_in, fields, first_white, frame_at, func_keys, func_list, funcs_sorted, hit_paths,
    last_not_above, load_keys, load_list, loadable, loaded_at, loads_sorted, map_line, map_lines,
    module_at, module_of, region_at, segments_in, symbols_in, FuncView, Load, LoadedView, MapView, ModuleView, RawView,
};
use crate::text::{is_white, last_of, lemma_first_is, lemma_last_of};
use crate::text_laws::{blank, law_trimming_drops_the_blanks_around};

verus! {

/// Whether a segment covers a file offset.
pub open spec fn covers(load: Load, offset: u64) -> bool {
    load.offset <= offset && offset < load.offset + load.size
}

/// A file offset is loaded where the first segment that covers it says: as far
/// above the address of the segment as it is above its start in the file.
pub proof fn law_offsets_are_loaded_by_their_segment(loads: Seq<Load>, offset: u64, i: int)
    requires
        0 <= i < loads.len(),
        loads[i].offset <= offset,
        offset < loads[i].offset + loads[i].size,
        forall|j: int|
            0 <= j < i ==> !((#[trigger] loads[j]).offset <= offset && offset < loads[j].offset
                + loads[j].size),
    ensures
        offset - loads[i].offset + loads[i].vaddr <= u64::MAX ==> loaded_at(loads, offset) == Some(
            (offset - loads[i].offset + loads[i].vaddr) as u64,
        ),
        offset - loads[i].offset + loads[i].vaddr > u64::MAX ==> loaded_at(loads, offset) is None,
    decreases loads.len(),
{
    if i > 0 {
        assert(!(loads[0].offset <= offset && offset < loads[0].offset + loads[0].size));
        let rest = loads.skip(1);
        assert forall|j: int| 0 <= j < i - 1 implies !((#[trigger] rest[j]).offset <= offset && offset
            < rest[j].offset + rest[j].size) by {
            assert(rest[j] == loads[j + 1]);
        }
        law_offsets_are_loaded_by_their_segment(rest, offset, i - 1);
    }
}

/// A file offset that no segment covers is not loaded.
pub proof fn law_uncovered_offsets_are_not_loaded(loads: Seq<Load>, offset: u64)
    requires
        forall|j: int|
            0 <= j < loads.len() ==> !((#[trigger] loads[j]).offset <= offset && offset
                < loads[j].offset + loads[j].size),
    ensures
        loaded_at(loads, offset) is None,
    decreases loads.len(),
{
    if loads.len() > 0 {
        assert(!(loads[0].offset <= offset && offset < loads[0].offset + loads[0].size));
        let rest = loads.skip(1);
        assert forall|j: int| 0 <= j < rest.len() implies !((#[trigger] rest[j]).offset <= offset
            && offset < rest[j].offset + rest[j].size) by {
            assert(rest[j] == loads[j + 1]);
        }
        law_uncovered_offsets_are_not_loaded(rest, offset);
    }
}

proof fn lemma_last_symbol(funcs: Seq<FuncView>, vaddr: u64, k: int)
    requires
        0 <= k < funcs.len(),
        funcs[k].vaddr <= vaddr,
        forall|j: int| k < j < funcs.len() ==> (#[trigger] funcs[j]).vaddr > vaddr,
    ensures
        last_not_above(funcs, vaddr) == Some(funcs[k]),
    decreases funcs.len(),
{
    if k < funcs.len() - 1 {
        assert(funcs[funcs.len() - 1].vaddr > vaddr);
        lemma_last_symbol(funcs.drop_last(), vaddr, k);
    }
}

proof fn lemma_no_symbol(funcs: Seq<FuncView>, vaddr: u64)
    requires
        forall|j: int| 0 <= j < funcs.len() ==> (#[trigger] funcs[j]).vaddr > vaddr,
    ensures
        last_not_above(funcs, vaddr) is None,
    decreases funcs.len(),
{
    if funcs.len() > 0 {
        assert(funcs[funcs.len() - 1].vaddr > vaddr);
        lemma_no_symbol(funcs.drop_last(), vaddr);
    }
}

/// A file offset that is loaded lies in the function of the last symbol that
/// does not start above its address; a symbol of known size has to reach it.
pub proof fn law_offsets_lie_in_their_function(module: ModuleView, offset: u64, i: int, k: int)
    requires
        0 <= i < module.loads.len(),
        module.loads[i].offset <= offset,
        offset < module.loads[i].offset + module.loads[i].size,
        forall|j: int|
            0 <= j < i ==> !((#[trigger] module.loads[j]).offset <= offset && offset
                < module.loads[j].offset + module.loads[j].size),
        offset - module.loads[i].offset + module.loads[i].vaddr <= u64::MAX,
        0 <= k < module.funcs.len(),
        module.funcs[k].vaddr <= offset - module.loads[i].offset + module.loads[i].vaddr,
        forall|j: int|
            k < j < module.funcs.len() ==> (#[trigger] module.funcs[j]).vaddr > offset
                - module.loads[i].offset + module.loads[i].vaddr,
    ensures
        module.funcs[k].size == 0 || offset - module.loads[i].offset + module.loads[i].vaddr
            < module.funcs[k].vaddr + module.funcs[k].size ==> module.function(offset) == Some(
            module.funcs[k].name,
        ),
        module.funcs[k].size != 0 && offset - module.loads[i].offset + module.loads[i].vaddr
            >= module.funcs[k].vaddr + module.funcs[k].size ==> module.function(offset) is None,
{
    law_offsets_are_loaded_by_their_segment(module.loads, offset, i);
    let vaddr = (offset - module.loads[i].offset + module.loads[i].vaddr) as u64;
    lemma_last_symbol(module.funcs, vaddr, k);
}

/// A file offset below every symbol, or in no segment, lies in no function.
pub proof fn law_other_offsets_lie_in_no_function(module: ModuleView, offset: u64)
    requires
        forall|j: int, k: int|
            0 <= j < module.loads.len() && 0 <= k < module.funcs.len() && (
            #[trigger] module.loads[j]).offset <= offset && offset < module.loads[j].offset
                + module.loads[j].size ==> (#[trigger] module.funcs[k]).vaddr > offset
                - module.loads[j].offset + module.loads[j].vaddr,
    ensures
        module.function(offset) is None,
{
    if exists|i: int| 0 <= i < module.loads.len() && covers(#[trigger] module.loads[i], offset) {
        let i = lemma_first_cover(module.loads, offset);
        law_offsets_are_loaded_by_their_segment(module.loads, offset, i);
        if let Some(vaddr) = loaded_at(module.loads, offset) {
            assert forall|k: int| 0 <= k < module.funcs.len() implies (
            #[trigger] module.funcs[k]).vaddr > vaddr by {
                assert(module.loads[i].offset <= offset);
            }
            lemma_no_symbol(module.funcs, vaddr);
        }
    } else {
        assert forall|j: int| 0 <= j < module.loads.len() implies !((
        #[trigger] module.loads[j]).offset <= offset && offset < module.loads[j].offset
            + module.loads[j].size) by {
            assert(!covers(module.loads[j], offset));
        }
        law_uncovered_offsets_are_not_loaded(module.loads, offset);
    }
}

proof fn lemma_first_cover(loads: Seq<Load>, offset: u64) -> (i: int)
    requires
        exists|i: int| 0 <= i < loads.len() && covers(#[trigger] loads[i], offset),
    ensures
        0 <= i < loads.len(),
        covers(loads[i], offset),
        forall|j: int| 0 <= j < i ==> !covers(#[trigger] loads[j], offset),
    decreases loads.len(),
{
    if covers(loads[0], offset) {
        0
    } else {
        let rest = loads.skip(1);
        let i = choose|i: int| 0 <= i < loads.len() && covers(#[trigger] loads[i], offset);
        assert(rest[i - 1] == loads[i]);
        let k = lemma_first_cover(rest, offset);
        assert forall|j: int| 0 <= j < k + 1 implies !covers(#[trigger] loads[j], offset) by {
            if j > 0 {
                assert(rest[j - 1] == loads[j]);
            }
        }
        assert(rest[k] == loads[k + 1]);
        k + 1
    }
}

/// The segments of a binary are those that hold something of the file.
pub proof fn law_segments_with_contents_are_kept(segments: Seq<(u64, u64, u64)>)
    ensures
        picked(
            segments,
            |s: (u64, u64, u64)| s.1 > 0,
            |s: (u64, u64, u64)| Load { offset: s.0, size: s.1, vaddr: s.2 },
            load_list(segments),
        ),
    decreases segments.len(),
{
    let wanted = |s: (u64, u64, u64)| s.1 > 0;
    let image = |s: (u64, u64, u64)| Load { offset: s.0, size: s.1, vaddr: s.2 };
    if segments.len() == 0 {
        lemma_picked_none(segments, wanted, image, load_list(segments));
    } else {
        law_segments_with_contents_are_kept(segments.drop_last());
        lemma_picked_more(
            segments,
            wanted,
            image,
            load_list(segments.drop_last()),
            load_list(segments),
        );
    }
}

/// The functions of a binary are its text symbols that have an address and a
/// name.
pub proof fn law_named_functions_are_kept(symbols: Seq<RawView>)
    ensures
        picked(
            symbols,
            |s: RawView| s.text && s.address != 0 && s.name is Some && s.name->0.len() > 0,
            |s: RawView| FuncView { vaddr: s.address, size: s.size, name: s.name->0 },
            func_list(symbols),
        ),
    decreases symbols.len(),
{
    let wanted = |s: RawView| s.text && s.address != 0 && s.name is Some && s.name->0.len() > 0;
    let image = |s: RawView| FuncView { vaddr: s.address, size: s.size, name: s.name->0 };
    if symbols.len() == 0 {
        lemma_picked_none(symbols, wanted, image, func_list(symbols));
    } else {
        law_named_functions_are_kept(symbols.drop_last());
        lemma_picked_more(
            symbols,
            wanted,
            image,
            func_list(symbols.drop_last()),
            func_list(symbols),
        );
    }
}

/// The regions of a process are those of the lines that are regions, in their
/// order.
pub proof fn law_every_region_line_counts(lines: Seq<Seq<char>>)
    ensures
        picked(
            lines,
            |line: Seq<char>| map_line(line) is Some,
            |line: Seq<char>| map_line(line)->0,
            map_lines(lines),
        ),
    decreases lines.len(),
{
    let wanted = |line: Seq<char>| map_line(line) is Some;
    let image = |line: Seq<char>| map_line(line)->0;
    if lines.len() == 0 {
        lemma_picked_none(lines, wanted, image, map_lines(lines));
    } else {
        law_every_region_line_counts(lines.drop_last());
        lemma_picked_more(lines, wanted, image, map_lines(lines.drop_last()), map_lines(lines));
    }
}

/// The last component of a path is what stands behind its last slash: it holds
/// none, and what stands before it is nothing or ends in one.
pub proof fn law_last_component(path: Seq<char>)
    ensures
        base_name(path).is_suffix_of(path),
        !base_name(path).contains('/'),
        base_name(path).len() < path.len() ==> path[path.len() - base_name(path).len() - 1] == '/',
        path.len() > 0 && path.last() != '/' ==> base_name(path).len() > 0,
{
    lemma_last_of(path, '/');
    let at = last_of(path, '/');
    assert(base_name(path) =~= path.subrange(at + 1, path.len() as int));
}

/// An address lies in the first region that spans it.
pub proof fn law_addresses_lie_in_their_region(maps: Seq<MapView>, ip: u64, i: int)
    requires
        0 <= i < maps.len(),
        maps[i].start <= ip && ip < maps[i].end,
        forall|j: int| 0 <= j < i ==> !((#[trigger] maps[j]).start <= ip && ip < maps[j].end),
    ensures
        region_at(maps, ip) == Some(maps[i]),
    decreases maps.len(),
{
    if i > 0 {
        assert(!(maps[0].start <= ip && ip < maps[0].end));
        let rest = maps.skip(1);
        assert forall|j: int| 0 <= j < i - 1 implies !((#[trigger] rest[j]).start <= ip && ip
            < rest[j].end) by {
            assert(rest[j] == maps[j + 1]);
        }
        law_addresses_lie_in_their_region(rest, ip, i - 1);
    }
}

/// An address that no region spans lies in none.
pub proof fn law_other_addresses_lie_nowhere(maps: Seq<MapView>, ip: u64)
    requires
        forall|j: int| 0 <= j < maps.len() ==> !((#[trigger] maps[j]).start <= ip && ip < maps[j].end),
    ensures
        region_at(maps, ip) is None,
    decreases maps.len(),
{
    if maps.len() > 0 {
        assert(!(maps[0].start <= ip && ip < maps[0].end));
        let rest = maps.skip(1);
        assert forall|j: int| 0 <= j < rest.len() implies !((#[trigger] rest[j]).start <= ip && ip
            < rest[j].end) by {
            assert(rest[j] == maps[j + 1]);
        }
        law_other_addresses_lie_nowhere(rest, ip);
    }
}

proof fn lemma_module_at(modules: Seq<LoadedView>, path: Seq<char>, i: int)
    requires
        0 <= i < modules.len(),
        modules[i].path == path,
        forall|j: int| 0 <= j < i ==> (#[trigger] modules[j]).path != path,
    ensures
        module_at(modules, path) == modules[i].module,
    decreases modules.len(),
{
    if i > 0 {
        assert(modules[0].path != path);
        let rest = modules.skip(1);
        assert forall|j: int| 0 <= j < i - 1 implies (#[trigger] rest[j]).path != path by {
            assert(rest[j] == modules[j + 1]);
        }
        lemma_module_at(rest, path, i - 1);
    }
}

proof fn lemma_no_module(modules: Seq<LoadedView>, path: Seq<char>)
    requires
        forall|j: int| 0 <= j < modules.len() ==> (#[trigger] modules[j]).path != path,
    ensures
        module_at(modules, path) is None,
    decreases modules.len(),
{
    if modules.len() > 0 {
        assert(modules[0].path != path);
        let rest = modules.skip(1);
        assert forall|j: int| 0 <= j < rest.len() implies (#[trigger] rest[j]).path != path by {
            assert(rest[j] == modules[j + 1]);
        }
        lemma_no_module(rest, path);
    }
}

/// The frame of an address in region `i` whose binary is the `b`th that was
/// read: it names the last component of the path, keeps the address, and its
/// function and label are what the binary has at the offset in the file that
/// the address was mapped from, else the label is the address.
pub proof fn law_addresses_resolve_through_region_and_binary(
    maps: Seq<MapView>,
    modules: Seq<LoadedView>,
    ip: u64,
    i: int,
    b: int,
)
    requires
        0 <= i < maps.len(),
        maps[i].start <= ip && ip < maps[i].end,
        forall|j: int| 0 <= j < i ==> !((#[trigger] maps[j]).start <= ip && ip < maps[j].end),
        0 <= b < modules.len(),
        modules[b].path == maps[i].path,
        forall|j: int| 0 <= j < b ==> (#[trigger] modules[j]).path != maps[i].path,
        modules[b].module is Some,
        ip - maps[i].start + maps[i].file_offset <= u64::MAX,
    ensures
        frame_at(maps, modules, ip).function == modules[b].module->0.function(
            (ip - maps[i].start + maps[i].file_offset) as u64,
        ),
        frame_at(maps, modules, ip).function is Some ==> frame_at(maps, modules, ip).raw
            == frame_at(maps, modules, ip).function->0,
        frame_at(maps, modules, ip).function is None ==> frame_at(maps, modules, ip).raw == "0x"@
            + hexadecimal(ip as nat),
        frame_at(maps, modules, ip).module == Some(base_name(maps[i].path)),
        frame_at(maps, modules, ip).address == Some(ip),
        frame_at(maps, modules, ip).file is None,
        frame_at(maps, modules, ip).line is None,
{
    law_addresses_lie_in_their_region(maps, ip, i);
    lemma_module_at(modules, maps[i].path, b);
}

/// An address in a region whose binary could not be read still names the
/// module, and is labelled by itself.
pub proof fn law_unread_binaries_still_name_the_module(
    maps: Seq<MapView>,
    modules: Seq<LoadedView>,
    ip: u64,
    i: int,
)
    requires
        0 <= i < maps.len(),
        maps[i].start <= ip && ip < maps[i].end,
        forall|j: int| 0 <= j < i ==> !((#[trigger] maps[j]).start <= ip && ip < maps[j].end),
        forall|j: int| 0 <= j < modules.len() ==> (#[trigger] modules[j]).path != maps[i].path,
    ensures
        frame_at(maps, modules, ip) == (FrameView {
            raw: "0x"@ + hexadecimal(ip as nat),
            function: None,
            file: None,
            line: None,
            module: Some(base_name(maps[i].path)),
            address: Some(ip),
        }),
{
    law_addresses_lie_in_their_region(maps, ip, i);
    lemma_no_module(modules, maps[i].path);
}

/// An address outside every region is labelled by itself, and nothing else is
/// known of it.
pub proof fn law_unmapped_addresses_are_bare(maps: Seq<MapView>, modules: Seq<LoadedView>, ip: u64)
    requires
        forall|j: int| 0 <= j < maps.len() ==> !((#[trigger] maps[j]).start <= ip && ip < maps[j].end),
    ensures
        frame_at(maps, modules, ip) == (FrameView {
            raw: "0x"@ + hexadecimal(ip as nat),
            function: None,
            file: None,
            line: None,
            module: None,
            address: Some(ip),
        }),
{
    law_other_addresses_lie_nowhere(maps, ip);
}

/// Sorted symbols are the symbols, each as often as before, by their address.
pub proof fn law_symbols_are_sorted_by_address(funcs: Seq<FuncView>, sorted: Seq<FuncView>)
    requires
        funcs_sorted(funcs, sorted),
    ensures
        sorted.len() == funcs.len(),
        forall|i: int, j: int|
            0 <= i < j < sorted.len() ==> (#[trigger] sorted[i]).vaddr <= (
            #[trigger] sorted[j]).vaddr,
        forall|f: FuncView| sorted.contains(f) <==> funcs.contains(f),
{
    let order = choose|order: Seq<usize>|
        orders(func_keys(funcs), order, 0, funcs.len() as int) && sorted == Seq::new(
            order.len(),
            |i: int| funcs[order[i] as int],
        );
    let keys = func_keys(funcs);
    law_stable_order_sorts(keys, order);
    assert forall|i: int, j: int| 0 <= i < j < sorted.len() implies (#[trigger] sorted[i]).vaddr <= (
    #[trigger] sorted[j]).vaddr by {
        assert(keys[order[i] as int] <= keys[order[j] as int]);
    }
    assert forall|f: FuncView| sorted.contains(f) <==> funcs.contains(f) by {
        if sorted.contains(f) {
            let i = sorted.index_of(f);
            assert(funcs[order[i] as int] == f);
        }
        if funcs.contains(f) {
            let k = funcs.index_of(f);
            lemma_place_in_order(keys, order, k);
            let i = choose|i: int| 0 <= i < order.len() && order[i] as int == k;
            assert(sorted[i] == f);
        }
    }
}

proof fn lemma_place_in_order(keys: Seq<u64>, order: Seq<usize>, k: int)
    requires
        orders(keys, order, 0, keys.len() as int),
        0 <= k < keys.len(),
    ensures
        exists|i: int| 0 <= i < order.len() && #[trigger] order[i] as int == k,
{
    let places = Seq::new(order.len(), |i: int| order[i] as int);
    law_stable_order_sorts(keys, order);
    assert(places.no_duplicates());
    let all = vstd::set_lib::set_int_range(0, keys.len() as int);
    vstd::set_lib::lemma_int_range(0, keys.len() as int);
    places.unique_seq_to_set();
    assert(places.to_set().subset_of(all));
    vstd::set_lib::lemma_subset_equality(places.to_set(), all);
    assert(places.to_set().contains(k));
    let i = places.index_of(k);
    assert(order[i] as int == k);
}

/// Sorted segments are the segments, each as often as before, by where they
/// start in the file.
pub proof fn law_segments_are_sorted_by_offset(loads: Seq<Load>, sorted: Seq<Load>)
    requires
        loads_sorted(loads, sorted),
    ensures
        sorted.len() == loads.len(),
        forall|i: int, j: int|
            0 <= i < j < sorted.len() ==> (#[trigger] sorted[i]).offset <= (
            #[trigger] sorted[j]).offset,
        forall|l: Load| sorted.contains(l) <==> loads.contains(l),
{
    let order = choose|order: Seq<usize>|
        orders(load_keys(loads), order, 0, loads.len() as int) && sorted == Seq::new(
            order.len(),
            |i: int| loads[order[i] as int],
        );
    let keys = load_keys(loads);
    law_stable_order_sorts(keys, order);
    assert forall|i: int, j: int| 0 <= i < j < sorted.len() implies (#[trigger] sorted[i]).offset <= (
    #[trigger] sorted[j]).offset by {
        assert(keys[order[i] as int] <= keys[order[j] as int]);
    }
    assert forall|l: Load| sorted.contains(l) <==> loads.contains(l) by {
        if sorted.contains(l) {
            let i = sorted.index_of(l);
            assert(loads[order[i] as int] == l);
        }
        if loads.contains(l) {
            let k = loads.index_of(l);
            lemma_place_in_order(keys, order, k);
            let i = choose|i: int| 0 <= i < order.len() && order[i] as int == k;
            assert(sorted[i] == l);
        }
    }
}

/// The binaries that are asked for are those of the regions that addresses lie
/// in and that can be read: with an absolute path that does not say the file
/// was deleted.
pub proof fn law_hit_binaries_are_wanted(maps: Seq<MapView>, addresses: Seq<u64>, path: Seq<char>)
    ensures
        hit_paths(maps, addresses).contains(path) <==> exists|i: int|
            0 <= i < addresses.len() && (region_at(maps, #[trigger] addresses[i]) matches Some(
                region,
            ) && region.path == path && path.len() > 0 && path[0] == '/'
                && !"(deleted)"@.is_suffix_of(path)),
    decreases addresses.len(),
{
    let hits = hit_paths(maps, addresses);
    if addresses.len() > 0 {
        let front = addresses.drop_last();
        let before = hit_paths(maps, front);
        law_hit_binaries_are_wanted(maps, front, path);
        let last = addresses.len() - 1;
        if before.contains(path) {
            let k = before.index_of(path);
            assert(hits[k] == path);
            let i = choose|i: int|
                0 <= i < front.len() && (region_at(maps, #[trigger] front[i]) matches Some(region)
                    && region.path == path && path.len() > 0 && path[0] == '/'
                    && !"(deleted)"@.is_suffix_of(path));
            assert(addresses[i] == front[i]);
        }
        if let Some(region) = region_at(maps, addresses[last]) {
            if loadable(region.path) {
                assert(hits[before.len() as int] == region.path);
            }
        }
        if hits.contains(path) && !before.contains(path) {
            let k = hits.index_of(path);
            assert(k == before.len()) by {
                if k < before.len() {
                    assert(before[k] == path);
                }
            }
            assert(region_at(maps, addresses[last]) is Some);
        }
        if exists|i: int|
            0 <= i < addresses.len() && (region_at(maps, #[trigger] addresses[i]) matches Some(
                region,
            ) && region.path == path && path.len() > 0 && path[0] == '/'
                && !"(deleted)"@.is_suffix_of(path)) {
            let i = choose|i: int|
                0 <= i < addresses.len() && (region_at(maps, #[trigger] addresses[i]) matches Some(
                    region,
                ) && region.path == path && path.len() > 0 && path[0] == '/'
                    && !"(deleted)"@.is_suffix_of(path));
            if i < last {
                assert(front[i] == addresses[i]);
            }
        }
    }
}

proof fn lemma_word_ends(word: Seq<char>, rest: Seq<char>)
    requires
        forall|i: int| 0 <= i < word.len() ==> !is_white(#[trigger] word[i]),
        rest.len() > 0,
        is_white(rest[0]),
    ensures
        first_white(word + rest) == word.len(),
    decreases word.len(),
{
    let whole = word + rest;
    if word.len() > 0 {
        assert(whole[0] == word[0]);
        assert(!is_white(word[0]));
        let tail = word.skip(1);
        assert forall|i: int| 0 <= i < tail.len() implies !is_white(#[trigger] tail[i]) by {
            assert(tail[i] == word[i + 1]);
        }
        assert(whole.skip(1) =~= tail + rest);
        lemma_word_ends(tail, rest);
    } else {
        assert(whole =~= rest);
    }
}

/// Whether a text is a word: not empty, and without white space.
pub open spec fn is_word(s: Seq<char>) -> bool {
    s.len() > 0 && forall|i: int| 0 <= i < s.len() ==> !is_white(#[trigger] s[i])
}

proof fn lemma_next_field(word: Seq<char>, rest: Seq<char>, count: nat)
    requires
        is_word(word),
        count > 1,
    ensures
        fields(word + seq![' '] + rest, count) == seq![word] + fields(rest, (count - 1) as nat),
{
    let whole = word + seq![' '] + rest;
    assert(whole =~= word + (seq![' '] + rest));
    assert((seq![' '] + rest)[0] == ' ');
    lemma_word_ends(word, seq![' '] + rest);
    assert(whole.take(word.len() as int) =~= word);
    assert(whole.skip((word.len() + 1) as int) =~= rest);
}

/// A line of a memory map, as the system writes it: the range, the permissions,
/// the offset, the device, the inode, some blanks, and the path.
pub open spec fn written_line(
    entry: MapView,
    perms: Seq<char>,
    dev: Seq<char>,
    inode: Seq<char>,
    gap: Seq<char>,
) -> Seq<char> {
    hexadecimal(entry.start as nat) + seq!['-'] + hexadecimal(entry.end as nat) + seq![' '] + (perms
        + seq![' '] + (hexadecimal(entry.file_offset as nat) + seq![' '] + (dev + seq![' '] + (inode
        + seq![' '] + (gap + entry.path)))))
}

/// A line of a memory map is read as it was written, where the region is
/// executable and its path is absolute, and is passed over otherwise.
pub proof fn law_map_lines_are_read_as_written(
    entry: MapView,
    perms: Seq<char>,
    dev: Seq<char>,
    inode: Seq<char>,
    gap: Seq<char>,
)
    requires
        is_word(perms),
        is_word(dev),
        is_word(inode),
        blank(gap),
        entry.path.len() > 0,
        !is_white(entry.path[0]),
        !is_white(entry.path.last()),
    ensures
        perms.contains('x') && entry.path[0] == '/' ==> map_line(
            written_line(entry, perms, dev, inode, gap),
        ) == Some(entry),
        !perms.contains('x') || entry.path[0] != '/' ==> map_line(
            written_line(entry, perms, dev, inode, gap),
        ) is None,
{
    let start = hexadecimal(entry.start as nat);
    let end = hexadecimal(entry.end as nat);
    let offset = hexadecimal(entry.file_offset as nat);
    let range = start + seq!['-'] + end;
    let tail = gap + entry.path;
    lemma_hex_is_a_word(entry.start as nat);
    lemma_hex_is_a_word(entry.end as nat);
    lemma_hex_is_a_word(entry.file_offset as nat);
    assert(is_word(range)) by {
        assert forall|i: int| 0 <= i < range.len() implies !is_white(#[trigger] range[i]) by {
            if i < start.len() {
                assert(range[i] == start[i]);
            } else if i > start.len() {
                assert(range[i] == end[i - start.len() - 1]);
            }
        }
    }
    let l5 = tail;
    let l4 = inode + seq![' '] + l5;
    let l3 = dev + seq![' '] + l4;
    let l2 = offset + seq![' '] + l3;
    let l1 = perms + seq![' '] + l2;
    let line = range + seq![' '] + l1;
    assert(line == written_line(entry, perms, dev, inode, gap));
    lemma_next_field(range, l1, 6);
    lemma_next_field(perms, l2, 5);
    lemma_next_field(offset, l3, 4);
    lemma_next_field(dev, l4, 3);
    lemma_next_field(inode, l5, 2);
    assert(fields(l5, 1) == seq![l5]);
    let parts = fields(line, 6);
    assert(parts =~= seq![range, perms, offset, dev, inode, tail]);
    let nothing = Seq::<char>::empty();
    law_trimming_drops_the_blanks_around(gap, entry.path, nothing);
    assert(gap + entry.path + nothing =~= tail);
    let dash = start.len() as int;
    assert forall|j: int| 0 <= j < dash implies range[j] != '-' by {
        assert(range[j] == start[j]);
        assert(digit(start[j], true) is Some);
    }
    lemma_first_is(range, '-', dash);
    assert(range.take(dash) =~= start);
    assert(range.skip(dash + 1) =~= end);
}

proof fn lemma_hex_is_a_word(n: nat)
    ensures
        is_word(hexadecimal(n)),
        all_digits(hexadecimal(n), true),
        n <= u64::MAX ==> read_unsigned(hexadecimal(n), true, u64::MAX as nat) == Some(n),
{
    let s = hexadecimal(n);
    law_hexadecimal_reads_back(n);
    assert forall|i: int| 0 <= i < s.len() implies !is_white(#[trigger] s[i]) by {
        assert(digit(s[i], true) is Some);
    }
    assert(digit(s[0], true) is Some);
}

/// Whether a symbol is the function that it stands for: a text symbol that has an
/// address and a name.
pub open spec fn stands_for_function(symbol: RawView, f: FuncView) -> bool {
    &&& symbol.text
    &&& symbol.address != 0
    &&& symbol.name == Some(f.name)
    &&& f.name.len() > 0
    &&& f.vaddr == symbol.address
    &&& f.size == symbol.size
}

proof fn lemma_func_list_holds(symbols: Seq<RawView>, f: FuncView)
    ensures
        func_list(symbols).contains(f) <==> exists|i: int|
            0 <= i < symbols.len() && stands_for_function(#[trigger] symbols[i], f),
    decreases symbols.len(),
{
    if symbols.len() > 0 {
        let front = symbols.drop_last();
        let last = symbols.len() - 1;
        lemma_func_list_holds(front, f);
        let all = func_list(symbols);
        let before = func_list(front);
        if all.contains(f) {
            let k = all.index_of(f);
            assert(all[k] == f);
            if k < before.len() {
                assert(before[k] == f);
                let i = choose|i: int|
                    0 <= i < front.len() && stands_for_function(#[trigger] front[i], f);
                assert(symbols[i] == front[i]);
            } else {
                assert(stands_for_function(symbols[last], f));
            }
        }
        if exists|i: int| 0 <= i < symbols.len() && stands_for_function(#[trigger] symbols[i], f) {
            let i = choose|i: int|
                0 <= i < symbols.len() && stands_for_function(#[trigger] symbols[i], f);
            if i < front.len() {
                assert(front[i] == symbols[i]);
                assert(all[before.index_of(f)] == f);
            } else {
                assert(all[before.len() as int] =~= f);
                assert(all[before.len() as int] == f);
            }
        }
    }
}

/// The functions of a binary are those of its symbol table and of its dynamic
/// symbol table, all of them and no others. Bytes that are no ELF file hold none.
pub proof fn law_binaries_hold_both_symbol_tables(
    data: Seq<u8>,
    module: Option<ModuleView>,
    f: FuncView,
)
    requires
        module_of(data, module),
    ensures
        data.len() < 4 || data[0] != 0x7f || data[1] != 'E' as u8 || data[2] != 'L' as u8
            || data[3] != 'F' as u8 ==> module is None,
        module matches Some(m) ==> {
            &&& m.funcs.contains(f) <==> {
                ||| exists|i: int|
                    0 <= i < symbols_in(data)->0.len() && stands_for_function(
                        #[trigger] symbols_in(data)->0[i],
                        f,
                    )
                ||| exists|i: int|
                    0 <= i < dynamic_symbols_in(data)->0.len() && stands_for_function(
                        #[trigger] dynamic_symbols_in(data)->0[i],
                        f,
                    )
            }
        },
{
    if let Some(m) = module {
        let a = symbols_in(data)->0;
        let b = dynamic_symbols_in(data)->0;
        lemma_func_list_holds(a + b, f);
        law_symbols_are_sorted_by_address(func_list(a + b), m.funcs);
        if exists|i: int| 0 <= i < (a + b).len() && stands_for_function(#[trigger] (a + b)[i], f) {
            let i = choose|i: int|
                0 <= i < (a + b).len() && stands_for_function(#[trigger] (a + b)[i], f);
            if i < a.len() {
                assert(stands_for_function(a[i], f));
            } else {
                assert(stands_for_function(b[i - a.len()], f));
            }
        }
        if exists|i: int| 0 <= i < a.len() && stands_for_function(#[trigger] a[i], f) {
            let i = choose|i: int| 0 <= i < a.len() && stands_for_function(#[trigger] a[i], f);
            assert((a + b)[i] == a[i]);
        }
        if exists|i: int| 0 <= i < b.len() && stands_for_function(#[trigger] b[i], f) {
            let i = choose|i: int| 0 <= i < b.len() && stands_for_function(#[trigger] b[i], f);
            assert((a + b)[a.len() + i] == b[i]);
        }
    }
}

/// A binary that can be read at all is read: it is ELF, and its segments and
/// both of its symbol tables can be listed.
pub proof fn law_readable_binaries_are_read(data: Seq<u8>, module: Option<ModuleView>)
    requires
        module_of(data, module),
        data.len() >= 4 && data[0] == 0x7f && data[1] == 'E' as u8 && data[2] == 'L' as u8
            && data[3] == 'F' as u8,
        segments_in(data) is Some,
        symbols_in(data) is Some,
        dynamic_symbols_in(data) is Some,
    ensures
        module is Some,
        module->0.loads.len() == load_list(segments_in(data)->0).len(),
{
    law_segments_are_sorted_by_offset(load_list(segments_in(data)->0), module->0.loads);
}

/// A binary is worth reading where its path is absolute and does not say that
/// the file was deleted.
pub proof fn law_deleted_binaries_are_not_read(path: Seq<char>, rest: Seq<char>)
    ensures
        !loadable(Seq::empty()),
        path.len() > 0 && path[0] != '/' ==> !loadable(path),
        !loadable(rest + "(deleted)"@),
        path.len() > 0 && path[0] == '/' && !"(deleted)"@.is_suffix_of(path) ==> loadable(path),
{
    let all = rest + "(deleted)"@;
    assert(all.skip(rest.len() as int) =~= "(deleted)"@);
    assert("(deleted)"@.is_suffix_of(all));
}

/// An address in a region whose binary was looked at and could not be read, or
/// that lies too far into the file to be an offset, is labelled by itself and
/// still names the module.
pub proof fn law_unreadable_binaries_name_no_function(
    maps: Seq<MapView>,
    modules: Seq<LoadedView>,
    ip: u64,
    i: int,
    b: int,
)
    requires
        0 <= i < maps.len(),
        maps[i].start <= ip && ip < maps[i].end,
        forall|j: int| 0 <= j < i ==> !((#[trigger] maps[j]).start <= ip && ip < maps[j].end),
        0 <= b < modules.len(),
        modules[b].path == maps[i].path,
        forall|j: int| 0 <= j < b ==> (#[trigger] modules[j]).path != maps[i].path,
        modules[b].module is None || ip - maps[i].start + maps[i].file_offset > u64::MAX,
    ensures
        frame_at(maps, modules, ip) == (FrameView {
            raw: "0x"@ + hexadecimal(ip as nat),
            function: None,
            file: None,
            line: None,
            module: Some(base_name(maps[i].path)),
            address: Some(ip),
        }),
{
    law_addresses_lie_in_their_region(maps, ip, i);
    lemma_module_at(modules, maps[i].path, b);
}

/// A line of a memory map without a path is passed over: an anonymous region has
/// none.
pub proof fn law_anonymous_regions_are_passed_over(
    range: Seq<char>,
    perms: Seq<char>,
    offset: Seq<char>,
    dev: Seq<char>,
    inode: Seq<char>,
)
    requires
        is_word(range),
        is_word(perms),
        is_word(offset),
        is_word(dev),
        is_word(inode),
    ensures
        map_line(
            range + seq![' '] + (perms + seq![' '] + (offset + seq![' '] + (dev + seq![' ']
                + inode))),
        ) is None,
{
    let l4 = inode;
    let l3 = dev + seq![' '] + l4;
    let l2 = offset + seq![' '] + l3;
    let l1 = perms + seq![' '] + l2;
    lemma_next_field(range, l1, 6);
    lemma_next_field(perms, l2, 5);
    lemma_next_field(offset, l3, 4);
    lemma_next_field(dev, l4, 3);
    assert(first_white(inode) >= inode.len()) by {
        lemma_word_has_no_blank(inode);
    }
    assert(fields(l4, 2) == seq![inode]);
}

proof fn lemma_word_has_no_blank(word: Seq<char>)
    requires
        forall|i: int| 0 <= i < word.len() ==> !is_white(#[trigger] word[i]),
    ensures
        first_white(word) == word.len(),
    decreases word.len(),
{
    if word.len() > 0 {
        assert(!is_white(word[0]));
        let rest = word.skip(1);
        assert forall|i: int| 0 <= i < rest.len() implies !is_white(#[trigger] rest[i]) by {
            assert(rest[i] == word[i + 1]);
        }
        lemma_word_has_no_blank(rest);
    }
}

/// A line whose range or offset is no hexadecimal number is passed over.
pub proof fn law_malformed_ranges_are_passed_over(line: Seq<char>)
    requires
        fields(line, 6).len() == 6,
        !fields(line, 6)[0].contains('-') || read_unsigned(
            fields(line, 6)[2],
            true,
            u64::MAX as nat,
        ) is None,
    ensures
        map_line(line) is None,
{
    let range = fields(line, 6)[0];
    crate::text::lemma_first_of(range, '-');
    let dash = crate::text::first_of(range, '-');
    if dash < range.len() {
        assert(range.contains(range[dash]));
    }
}

} // verus!

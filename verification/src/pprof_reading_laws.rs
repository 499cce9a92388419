//! What holds of the pprof reader, told of the message and the profile that
//! comes of it.

use vstd::prelude::*;

use crate::error::ErrorView;
use crate::format::Confidence;
use crate::intern::{grown_all, id_at, ids, law_grown_all_keeps_places, place};
use crate::model::{FrameId, FrameView, ProfileView, SampleView};
use crate::pprof::{
    content_likeness, from_proto, function_text, function_with, gather, kinds_of, line_frames, locate,
    location_frames, mapping_with, module_text, negative_message, payload, payload_likeness,
    payload_meaning, pprof_meaning, range_message, raw_rendering, sample_of, samples_of, string_at,
    to_proto, unknown_location_message, Located, MAX_DECOMPRESSED,
};
use crate::number::decimal;
use crate::pprof_laws::{
    known, law_locations_stand_for_their_frames, law_payload_says_the_message, tellable,
};
use crate::proto;

verus! {

/// Whether an index points into a string table.
pub open spec fn findable(strings: Seq<Seq<char>>, index: i64) -> bool {
    0 <= index < strings.len()
}

/// Whether `text` is what an index of a string table stands for: nothing where
/// the string there is empty.
pub open spec fn stands_for(strings: Seq<Seq<char>>, index: i64, text: Option<Seq<char>>) -> bool {
    &&& findable(strings, index)
    &&& text == (if strings[index as int].len() == 0 {
        None
    } else {
        Some(strings[index as int])
    })
}

/// Whether the last function with an id stands at an index.
pub open spec fn last_function(functions: Seq<proto::Function>, id: u64, at: int) -> bool {
    &&& 0 <= at < functions.len()
    &&& functions[at].id == id
    &&& forall|j: int| at < j < functions.len() ==> (#[trigger] functions[j]).id != id
}

/// Whether the last mapping with an id stands at an index.
pub open spec fn last_mapping(mappings: Seq<proto::Mapping>, id: u64, at: int) -> bool {
    &&& 0 <= at < mappings.len()
    &&& mappings[at].id == id
    &&& forall|j: int| at < j < mappings.len() ==> (#[trigger] mappings[j]).id != id
}

/// Whether the first location with an id stands at an index.
pub open spec fn first_location(locations: Seq<proto::LocationView>, id: u64, at: int) -> bool {
    &&& 0 <= at < locations.len()
    &&& locations[at].id == id
    &&& forall|j: int| 0 <= j < at ==> (#[trigger] locations[j]).id != id
}

/// Whether a name and a file are those of the function with an id: both are
/// unknown where there is no such function.
pub open spec fn function_told(
    functions: Seq<proto::Function>,
    strings: Seq<Seq<char>>,
    id: u64,
    name: Option<Seq<char>>,
    file: Option<Seq<char>>,
) -> bool {
    &&& forall|at: int| #[trigger]
        last_function(functions, id, at) ==> stands_for(strings, functions[at].name, name)
            && stands_for(strings, functions[at].filename, file)
    &&& (forall|at: int| 0 <= at < functions.len() ==> (#[trigger] functions[at]).id != id)
        ==> name is None && file is None
}

/// Whether a module is that of the mapping with an id: it is unknown where
/// there is no such mapping.
pub open spec fn module_told(
    mappings: Seq<proto::Mapping>,
    strings: Seq<Seq<char>>,
    id: u64,
    module: Option<Seq<char>>,
) -> bool {
    &&& forall|at: int| #[trigger]
        last_mapping(mappings, id, at) ==> stands_for(strings, mappings[at].filename, module)
    &&& (forall|at: int| 0 <= at < mappings.len() ==> (#[trigger] mappings[at]).id != id)
        ==> module is None
}

proof fn lemma_function_with(functions: Seq<proto::Function>, id: u64)
    ensures
        match function_with(functions, id) {
            Some(function) => exists|at: int| #[trigger]
                last_function(functions, id, at) && functions[at] == function,
            None => forall|at: int| 0 <= at < functions.len() ==> (#[trigger] functions[at]).id != id,
        },
    decreases functions.len(),
{
    if functions.len() > 0 {
        let front = functions.drop_last();
        if functions.last().id == id {
            assert(last_function(functions, id, functions.len() - 1));
        } else {
            lemma_function_with(front, id);
            if let Some(function) = function_with(front, id) {
                let at = choose|at: int| #[trigger]
                    last_function(front, id, at) && front[at] == function;
                assert forall|j: int| at < j < functions.len() implies (#[trigger] functions[j]).id
                    != id by {
                    if j < front.len() {
                        assert(functions[j] == front[j]);
                    }
                }
                assert(last_function(functions, id, at));
            } else {
                assert forall|at: int| 0 <= at < functions.len() implies (
                #[trigger] functions[at]).id != id by {
                    if at < front.len() {
                        assert(functions[at] == front[at]);
                    }
                }
            }
        }
    }
}

proof fn lemma_mapping_with(mappings: Seq<proto::Mapping>, id: u64)
    ensures
        match mapping_with(mappings, id) {
            Some(mapping) => exists|at: int| #[trigger]
                last_mapping(mappings, id, at) && mappings[at] == mapping,
            None => forall|at: int| 0 <= at < mappings.len() ==> (#[trigger] mappings[at]).id != id,
        },
    decreases mappings.len(),
{
    if mappings.len() > 0 {
        let front = mappings.drop_last();
        if mappings.last().id == id {
            assert(last_mapping(mappings, id, mappings.len() - 1));
        } else {
            lemma_mapping_with(front, id);
            if let Some(mapping) = mapping_with(front, id) {
                let at = choose|at: int| #[trigger]
                    last_mapping(front, id, at) && front[at] == mapping;
                assert forall|j: int| at < j < mappings.len() implies (#[trigger] mappings[j]).id
                    != id by {
                    if j < front.len() {
                        assert(mappings[j] == front[j]);
                    }
                }
                assert(last_mapping(mappings, id, at));
            } else {
                assert forall|at: int| 0 <= at < mappings.len() implies (
                #[trigger] mappings[at]).id != id by {
                    if at < front.len() {
                        assert(mappings[at] == front[at]);
                    }
                }
            }
        }
    }
}

/// Whether what a function id stands for can be told.
pub open spec fn function_findable(
    functions: Seq<proto::Function>,
    strings: Seq<Seq<char>>,
    id: u64,
) -> bool {
    forall|at: int| #[trigger]
        last_function(functions, id, at) ==> findable(strings, functions[at].name) && findable(
            strings,
            functions[at].filename,
        )
}

/// Whether what a mapping id stands for can be told.
pub open spec fn mapping_findable(
    mappings: Seq<proto::Mapping>,
    strings: Seq<Seq<char>>,
    id: u64,
) -> bool {
    forall|at: int| #[trigger]
        last_mapping(mappings, id, at) ==> findable(strings, mappings[at].filename)
}

proof fn lemma_function_text(
    functions: Seq<proto::Function>,
    strings: Seq<Seq<char>>,
    id: u64,
)
    requires
        strings.len() <= usize::MAX,
    ensures
        function_text(functions, id, strings) is Ok <==> function_findable(functions, strings, id),
        function_text(functions, id, strings) matches Ok((name, file)) ==> function_told(
            functions,
            strings,
            id,
            name,
            file,
        ),
{
    lemma_function_with(functions, id);
    if let Some(function) = function_with(functions, id) {
        let k = choose|at: int| #[trigger]
            last_function(functions, id, at) && functions[at] == function;
        assert(last_function(functions, id, k));
        assert forall|at: int| #[trigger] last_function(functions, id, at) implies at == k by {
            if at < k {
                assert(functions[k].id != id);
            } else if k < at {
                assert(functions[at].id != id);
            }
        }
        assert(functions[k].id == id);
    } else {
        assert forall|at: int| !(#[trigger] last_function(functions, id, at)) by {
            if last_function(functions, id, at) {
                assert(functions[at].id != id);
            }
        }
    }
}

proof fn lemma_module_text(
    mappings: Seq<proto::Mapping>,
    strings: Seq<Seq<char>>,
    id: u64,
)
    requires
        strings.len() <= usize::MAX,
    ensures
        module_text(mappings, id, strings) is Ok <==> mapping_findable(mappings, strings, id),
        module_text(mappings, id, strings) matches Ok(module) ==> module_told(
            mappings,
            strings,
            id,
            module,
        ),
{
    lemma_mapping_with(mappings, id);
    if let Some(mapping) = mapping_with(mappings, id) {
        let k = choose|at: int| #[trigger]
            last_mapping(mappings, id, at) && mappings[at] == mapping;
        assert(last_mapping(mappings, id, k));
        assert forall|at: int| #[trigger] last_mapping(mappings, id, at) implies at == k by {
            if at < k {
                assert(mappings[k].id != id);
            } else if k < at {
                assert(mappings[at].id != id);
            }
        }
        assert(mappings[k].id == id);
    } else {
        assert forall|at: int| !(#[trigger] last_mapping(mappings, id, at)) by {
            if last_mapping(mappings, id, at) {
                assert(mappings[at].id != id);
            }
        }
    }
}

/// Whether a frame is that of a line of a location, the one at an index.
pub open spec fn line_told(
    location: proto::LocationView,
    functions: Seq<proto::Function>,
    mappings: Seq<proto::Mapping>,
    strings: Seq<Seq<char>>,
    i: int,
    frame: FrameView,
) -> bool {
    let number = location.line[i].line;
    &&& frame.raw.len() == 0
    &&& function_told(
        functions,
        strings,
        location.line[i].function_id,
        frame.function,
        frame.file,
    )
    &&& module_told(mappings, strings, location.mapping_id, frame.module)
    &&& 0 < number <= u32::MAX ==> frame.line == Some(number as u32)
    &&& number <= 0 || number > u32::MAX ==> frame.line is None
    &&& i == 0 && location.address != 0 ==> frame.address == Some(location.address)
    &&& i > 0 || location.address == 0 ==> frame.address is None
}

/// Whether everything that a location speaks of is in the string table.
pub open spec fn location_findable(
    location: proto::LocationView,
    functions: Seq<proto::Function>,
    mappings: Seq<proto::Mapping>,
    strings: Seq<Seq<char>>,
) -> bool {
    &&& mapping_findable(mappings, strings, location.mapping_id)
    &&& forall|i: int|
        0 <= i < location.line.len() ==> function_findable(
            functions,
            strings,
            (#[trigger] location.line[i]).function_id,
        )
}

proof fn lemma_line_frames(
    location: proto::LocationView,
    n: int,
    module: Option<Seq<char>>,
    functions: Seq<proto::Function>,
    mappings: Seq<proto::Mapping>,
    strings: Seq<Seq<char>>,
)
    requires
        strings.len() <= usize::MAX,
        0 <= n <= location.line.len(),
        module_told(mappings, strings, location.mapping_id, module),
    ensures
        line_frames(location.line.take(n), location.address, module, functions, strings) is Ok
            <==> (forall|i: int|
            0 <= i < n ==> function_findable(
                functions,
                strings,
                (#[trigger] location.line[i]).function_id,
            )),
        line_frames(location.line.take(n), location.address, module, functions, strings) matches Ok(
            frames,
        ) ==> frames.len() == n && forall|i: int|
            0 <= i < n ==> line_told(
                location,
                functions,
                mappings,
                strings,
                i,
                #[trigger] frames[i],
            ),
    decreases n,
{
    if n > 0 {
        let lines = location.line.take(n);
        lemma_line_frames(location, n - 1, module, functions, mappings, strings);
        assert(lines.drop_last() =~= location.line.take(n - 1));
        assert(lines.last() == location.line[n - 1]);
        lemma_function_text(functions, strings, lines.last().function_id);
        let all = line_frames(lines, location.address, module, functions, strings);
        let before = line_frames(
            location.line.take(n - 1),
            location.address,
            module,
            functions,
            strings,
        );
        if all is Ok {
            assert(before is Ok);
            assert forall|i: int| 0 <= i < n implies line_told(
                location,
                functions,
                mappings,
                strings,
                i,
                #[trigger] all->Ok_0[i],
            ) by {
                if i < n - 1 {
                    assert(all->Ok_0[i] == before->Ok_0[i]);
                }
            }
            assert forall|i: int| 0 <= i < n implies function_findable(
                functions,
                strings,
                (#[trigger] location.line[i]).function_id,
            ) by {
                if i < n - 1 {
                    assert(before is Ok);
                }
            }
        } else if before is Ok {
            assert(!function_findable(functions, strings, location.line[n - 1].function_id));
        }
    }
}

/// A location with lines stands for one frame per line, in the order of the
/// lines: each has the number of its own line and the name and file of its own
/// function, all have the module of the location, and the first alone has the
/// address.
pub proof fn law_lines_become_frames(
    location: proto::LocationView,
    functions: Seq<proto::Function>,
    mappings: Seq<proto::Mapping>,
    strings: Seq<Seq<char>>,
)
    requires
        strings.len() <= usize::MAX,
        location.line.len() > 0,
        location_findable(location, functions, mappings, strings),
    ensures
        location_frames(location, functions, mappings, strings) matches Ok(frames)
            && frames.len() == location.line.len() && forall|i: int|
            0 <= i < frames.len() ==> line_told(
                location,
                functions,
                mappings,
                strings,
                i,
                #[trigger] frames[i],
            ),
{
    lemma_module_text(mappings, strings, location.mapping_id);
    let module = module_text(mappings, location.mapping_id, strings)->Ok_0;
    let n = location.line.len() as int;
    lemma_line_frames(location, n, module, functions, mappings, strings);
    assert(location.line.take(n) =~= location.line);
}

/// A location without lines stands for one frame, of which no more than the
/// module and the address are known.
pub proof fn law_bare_locations_become_one_frame(
    location: proto::LocationView,
    functions: Seq<proto::Function>,
    mappings: Seq<proto::Mapping>,
    strings: Seq<Seq<char>>,
)
    requires
        strings.len() <= usize::MAX,
        location.line.len() == 0,
        mapping_findable(mappings, strings, location.mapping_id),
    ensures
        location_frames(location, functions, mappings, strings) matches Ok(frames) && {
            &&& frames.len() == 1
            &&& frames[0].raw.len() == 0
            &&& frames[0].function is None
            &&& frames[0].file is None
            &&& frames[0].line is None
            &&& module_told(mappings, strings, location.mapping_id, frames[0].module)
            &&& frames[0].address == (if location.address == 0 {
                None
            } else {
                Some(location.address)
            })
        },
{
    lemma_module_text(mappings, strings, location.mapping_id);
}

/// A location is refused where something that it speaks of is not in the string
/// table, and nowhere else.
pub proof fn law_locations_are_refused_for_their_strings(
    location: proto::LocationView,
    functions: Seq<proto::Function>,
    mappings: Seq<proto::Mapping>,
    strings: Seq<Seq<char>>,
)
    requires
        strings.len() <= usize::MAX,
    ensures
        location_frames(location, functions, mappings, strings) is Ok <==> location_findable(
            location,
            functions,
            mappings,
            strings,
        ),
{
    lemma_module_text(mappings, strings, location.mapping_id);
    if let Ok(module) = module_text(mappings, location.mapping_id, strings) {
        let n = location.line.len() as int;
        lemma_line_frames(location, n, module, functions, mappings, strings);
        assert(location.line.take(n) =~= location.line);
    }
}

/// The frames of the locations with the given ids in a row, each location's
/// innermost frame first. Of two locations with one id the first counts.
pub open spec fn frames_along(m: proto::ProfileView, path: Seq<u64>) -> Seq<FrameView>
    decreases path.len(),
{
    if path.len() == 0 {
        Seq::empty()
    } else {
        let at = choose|at: int| first_location(m.location, path.last(), at);
        frames_along(m, path.drop_last()) + location_frames(
            m.location[at],
            m.function,
            m.mapping,
            m.string_table,
        )->Ok_0
    }
}

/// The frames that the ids of a stack stand for.
pub open spec fn frames_at(frames: Seq<FrameView>, stack: Seq<FrameId>) -> Seq<FrameView> {
    Seq::new(stack.len(), |i: int| frames[stack[i].0 as int])
}

/// Whether some location has an id.
pub open spec fn located_somewhere(locations: Seq<proto::LocationView>, id: u64) -> bool {
    exists|at: int| #[trigger] first_location(locations, id, at)
}

proof fn lemma_first_location(locations: Seq<proto::LocationView>, k: int)
    requires
        0 <= k < locations.len(),
    ensures
        located_somewhere(locations, locations[k].id),
    decreases k,
{
    let id = locations[k].id;
    if exists|j: int| 0 <= j < k && (#[trigger] locations[j]).id == id {
        let j = choose|j: int| 0 <= j < k && (#[trigger] locations[j]).id == id;
        lemma_first_location(locations, j);
    } else {
        assert(first_location(locations, id, k));
    }
}

proof fn lemma_first_is_one(locations: Seq<proto::LocationView>, id: u64, i: int, j: int)
    requires
        first_location(locations, id, i),
        first_location(locations, id, j),
    ensures
        i == j,
{
    if i < j {
        assert(locations[i].id != id);
    } else if j < i {
        assert(locations[j].id != id);
    }
}

/// Whether the first location of every id stands for frames.
spec fn all_expand(m: proto::ProfileView, n: int) -> bool {
    forall|id: u64, at: int| #[trigger]
        first_location(m.location, id, at) && at < n ==> location_frames(
            m.location[at],
            m.function,
            m.mapping,
            m.string_table,
        ) is Ok
}

/// Whether what has been read of the first `n` locations is all that they say.
spec fn read_all(m: proto::ProfileView, n: int, located: Located) -> bool {
    &&& located.table.no_duplicates()
    &&& forall|id: u64|
        #![trigger located.known.contains_key(id)]
        located.known.contains_key(id) ==> exists|at: int| #[trigger]
            first_location(m.location, id, at) && at < n
    &&& forall|id: u64, at: int| #[trigger]
        first_location(m.location, id, at) && at < n ==> {
            let frames = location_frames(m.location[at], m.function, m.mapping, m.string_table)->Ok_0;
            &&& located.known.contains_key(id)
            &&& located.known[id].len() == frames.len()
            &&& forall|j: int|
                0 <= j < frames.len() ==> located.table.contains(#[trigger] frames[j])
                    && located.known[id][j] == id_at(place(located.table, frames[j]))
        }
}

proof fn lemma_locate_step(m: proto::ProfileView, n: int, before: Located, after: Located)
    requires
        0 < n <= m.location.len(),
        read_all(m, n - 1, before),
        ({
            let location = m.location[n - 1];
            let frames = location_frames(location, m.function, m.mapping, m.string_table)->Ok_0;
            if before.known.contains_key(location.id) {
                after == before
            } else {
                &&& after.table == grown_all(before.table, frames)
                &&& after.known == before.known.insert(location.id, ids(after.table, frames))
            }
        }),
    ensures
        read_all(m, n, after),
{
    let location = m.location[n - 1];
    if before.known.contains_key(location.id) {
        let k = choose|at: int| #[trigger]
            first_location(m.location, location.id, at) && at < n - 1;
        assert forall|id: u64, at: int| #[trigger]
            first_location(m.location, id, at) && at < n implies at < n - 1 by {
            if at == n - 1 {
                lemma_first_is_one(m.location, id, at, k);
            }
        }
        assert(read_all(m, n, after));
    } else {
        let frames = location_frames(location, m.function, m.mapping, m.string_table)->Ok_0;
        law_grown_all_keeps_places(before.table, frames);
        assert(first_location(m.location, location.id, n - 1)) by {
            lemma_first_location(m.location, n - 1);
            let k = choose|at: int| first_location(m.location, location.id, at);
            if k < n - 1 {
                assert(before.known.contains_key(location.id));
            } else if k > n - 1 {
                assert(m.location[n - 1].id != location.id);
            }
        }
        assert forall|id: u64|
            #![trigger after.known.contains_key(id)]
            after.known.contains_key(id) implies exists|at: int| #[trigger]
            first_location(m.location, id, at) && at < n by {
            if id == location.id {
                assert(first_location(m.location, id, n - 1));
            } else {
                assert(before.known.contains_key(id));
                let k = choose|at: int| #[trigger]
                    first_location(m.location, id, at) && at < n - 1;
                assert(first_location(m.location, id, k));
            }
        }
        assert forall|id: u64, at: int| #[trigger]
            first_location(m.location, id, at) && at < n implies ({
            let list = location_frames(m.location[at], m.function, m.mapping, m.string_table)->Ok_0;
            &&& after.known.contains_key(id)
            &&& after.known[id].len() == list.len()
            &&& forall|j: int|
                0 <= j < list.len() ==> after.table.contains(#[trigger] list[j])
                    && after.known[id][j] == id_at(place(after.table, list[j]))
        }) by {
            let list = location_frames(m.location[at], m.function, m.mapping, m.string_table)->Ok_0;
            if at < n - 1 {
                assert(id != location.id) by {
                    if id == location.id {
                        lemma_first_is_one(m.location, id, at, n - 1);
                    }
                }
                assert(before.known.contains_key(id));
                assert forall|j: int| 0 <= j < list.len() implies after.table.contains(
                    #[trigger] list[j],
                ) && after.known[id][j] == id_at(place(after.table, list[j])) by {
                    assert(before.table.contains(list[j]));
                }
            }
        }
    }
}

proof fn lemma_locate_reads_all(m: proto::ProfileView, n: int)
    requires
        0 <= n <= m.location.len(),
    ensures
        locate(m.location.take(n), m.function, m.mapping, m.string_table) is Ok <==> all_expand(
            m,
            n,
        ),
        locate(m.location.take(n), m.function, m.mapping, m.string_table) matches Ok(located)
            ==> read_all(m, n, located),
    decreases n,
{
    let list = m.location.take(n);
    if n > 0 {
        lemma_locate_reads_all(m, n - 1);
        assert(list.drop_last() =~= m.location.take(n - 1));
        let location = m.location[n - 1];
        assert(list.last() == location);
        let earlier = locate(m.location.take(n - 1), m.function, m.mapping, m.string_table);
        let all = locate(list, m.function, m.mapping, m.string_table);
        let own = location_frames(location, m.function, m.mapping, m.string_table);
        if earlier is Ok {
            let before = earlier->Ok_0;
            if all is Ok {
                let after = all->Ok_0;
                lemma_locate_step(m, n, before, after);
                assert forall|id: u64, at: int| #[trigger]
                    first_location(m.location, id, at) && at < n implies location_frames(
                    m.location[at],
                    m.function,
                    m.mapping,
                    m.string_table,
                ) is Ok by {
                    if at == n - 1 && before.known.contains_key(location.id) {
                        let k = choose|at: int| #[trigger]
                            first_location(m.location, location.id, at) && at < n - 1;
                        lemma_first_is_one(m.location, id, at, k);
                    }
                }
            } else {
                assert(own is Err);
                assert(!before.known.contains_key(location.id));
                lemma_first_location(m.location, n - 1);
                let k = choose|at: int| first_location(m.location, location.id, at);
                assert(k == n - 1) by {
                    if k > n - 1 {
                        assert(m.location[n - 1].id != location.id);
                    }
                }
                assert(!all_expand(m, n));
            }
        } else {
            assert(all is Err);
            assert(!all_expand(m, n));
        }
    } else {
        assert(list =~= Seq::empty());
    }
}

/// What has been gathered of a path is what its locations stand for.
proof fn lemma_gather_along(m: proto::ProfileView, located: Located, path: Seq<u64>)
    requires
        read_all(m, m.location.len() as int, located),
    ensures
        gather(located.known, path) is Ok <==> (forall|i: int|
            0 <= i < path.len() ==> located_somewhere(m.location, #[trigger] path[i])),
        gather(located.known, path) matches Ok(stack) ==> located.table.len() <= u32::MAX ==> {
            &&& frames_at(located.table, stack) == frames_along(m, path)
            &&& stack.len() == frames_along(m, path).len()
        },
    decreases path.len(),
{
    if path.len() > 0 {
        let front = path.drop_last();
        lemma_gather_along(m, located, front);
        let earlier = gather(located.known, front);
        let all = gather(located.known, path);
        let id = path.last();
        let n = m.location.len() as int;
        assert(located.known.contains_key(id) <==> located_somewhere(m.location, id)) by {
            if located_somewhere(m.location, id) {
                let at = choose|at: int| #[trigger] first_location(m.location, id, at);
                assert(first_location(m.location, id, at) && at < n);
            }
        }
        if all is Ok {
            assert forall|i: int| 0 <= i < path.len() implies located_somewhere(
                m.location,
                #[trigger] path[i],
            ) by {
                if i < front.len() {
                    assert(front[i] == path[i]);
                }
            }
            if located.table.len() <= u32::MAX {
                let at = choose|at: int| first_location(m.location, id, at);
                assert(first_location(m.location, id, at) && at < n);
                let list = location_frames(
                    m.location[at],
                    m.function,
                    m.mapping,
                    m.string_table,
                )->Ok_0;
                let before = earlier->Ok_0;
                let stack = all->Ok_0;
                assert(frames_at(located.table, stack) =~= frames_along(m, front) + list) by {
                    let shown = frames_at(located.table, stack);
                    assert(before.len() == frames_along(m, front).len());
                    assert forall|j: int| 0 <= j < shown.len() implies shown[j] == (frames_along(
                        m,
                        front,
                    ) + list)[j] by {
                        if j < before.len() {
                            assert(stack[j] == before[j]);
                            assert(frames_at(located.table, before)[j] == shown[j]);
                        } else {
                            let k = j - before.len();
                            assert(stack[j] == located.known[id][k]);
                            assert(located.table.contains(list[k]));
                            let p = place(located.table, list[k]);
                            assert(0 <= p < located.table.len() && located.table[p] == list[k]);
                        }
                    }
                }
            }
        } else if earlier is Ok {
            assert(!located_somewhere(m.location, path[path.len() - 1]));
        } else {
            let i = choose|i: int|
                0 <= i < front.len() && !located_somewhere(m.location, #[trigger] front[i]);
            assert(path[i] == front[i]);
        }
    }
}

proof fn lemma_samples_pointwise(
    samples: Seq<proto::SampleView>,
    known: Map<u64, Seq<FrameId>>,
    kinds: nat,
)
    ensures
        samples_of(samples, known, kinds) is Ok <==> (forall|i: int|
            0 <= i < samples.len() ==> sample_of(#[trigger] samples[i], known, kinds) is Ok),
        samples_of(samples, known, kinds) matches Ok(list) ==> list.len() == samples.len()
            && forall|i: int|
            0 <= i < samples.len() ==> sample_of(#[trigger] samples[i], known, kinds) == Ok::<
                SampleView,
                ErrorView,
            >(list[i]),
    decreases samples.len(),
{
    if samples.len() > 0 {
        let front = samples.drop_last();
        lemma_samples_pointwise(front, known, kinds);
        let all = samples_of(samples, known, kinds);
        let earlier = samples_of(front, known, kinds);
        if all is Ok {
            assert forall|i: int| 0 <= i < samples.len() implies sample_of(
                #[trigger] samples[i],
                known,
                kinds,
            ) == Ok::<SampleView, ErrorView>(all->Ok_0[i]) by {
                if i < front.len() {
                    assert(front[i] == samples[i]);
                    assert(all->Ok_0[i] == earlier->Ok_0[i]);
                }
            }
        } else if earlier is Ok {
            assert(sample_of(samples[samples.len() - 1], known, kinds) is Err);
        } else {
            let i = choose|i: int|
                0 <= i < front.len() && sample_of(#[trigger] front[i], known, kinds) is Err;
            assert(samples[i] == front[i]);
        }
    }
}

proof fn lemma_kinds_pointwise(types: Seq<proto::ValueType>, strings: Seq<Seq<char>>)
    requires
        strings.len() <= usize::MAX,
    ensures
        kinds_of(types, strings) is Ok <==> (forall|i: int|
            0 <= i < types.len() ==> findable(strings, (#[trigger] types[i]).kind) && findable(
                strings,
                types[i].unit,
            )),
        kinds_of(types, strings) matches Ok(list) ==> list.len() == types.len() && forall|i: int|
            0 <= i < types.len() ==> (#[trigger] list[i]).kind == strings[types[i].kind as int]
                && list[i].unit == strings[types[i].unit as int],
    decreases types.len(),
{
    if types.len() > 0 {
        let front = types.drop_last();
        lemma_kinds_pointwise(front, strings);
        let all = kinds_of(types, strings);
        let earlier = kinds_of(front, strings);
        if all is Ok {
            assert forall|i: int| 0 <= i < types.len() implies findable(
                strings,
                (#[trigger] types[i]).kind,
            ) && findable(strings, types[i].unit) by {
                if i < front.len() {
                    assert(front[i] == types[i]);
                }
            }
            assert forall|i: int| 0 <= i < types.len() implies (#[trigger] all->Ok_0[i]).kind
                == strings[types[i].kind as int] && all->Ok_0[i].unit == strings[
                types[i].unit as int
            ] by {
                if i < front.len() {
                    assert(front[i] == types[i]);
                    assert(all->Ok_0[i] == earlier->Ok_0[i]);
                }
            }
        } else if earlier is Ok {
            assert(types[types.len() - 1] == types.last());
        } else {
            let i = choose|i: int|
                0 <= i < front.len() && !(findable(strings, (#[trigger] front[i]).kind) && findable(
                    strings,
                    front[i].unit,
                ));
            assert(types[i] == front[i]);
        }
    }
}

/// Whether a pprof message can be read: the strings of its value types and of
/// its locations are there, every sample has one value per value type, and
/// every location that a sample names is there.
pub open spec fn readable(m: proto::ProfileView) -> bool {
    &&& forall|i: int|
        0 <= i < m.sample_type.len() ==> findable(m.string_table, (#[trigger] m.sample_type[i]).kind)
            && findable(m.string_table, m.sample_type[i].unit)
    &&& forall|id: u64, at: int| #[trigger]
        first_location(m.location, id, at) ==> location_findable(
            m.location[at],
            m.function,
            m.mapping,
            m.string_table,
        )
    &&& forall|i: int|
        0 <= i < m.sample.len() ==> (#[trigger] m.sample[i]).value.len() == m.sample_type.len()
    &&& forall|i: int, j: int|
        0 <= i < m.sample.len() && 0 <= j < m.sample[i].location_id.len() ==> located_somewhere(
            m.location,
            #[trigger] m.sample[i].location_id[j],
        )
}

proof fn lemma_expand_is_findable(m: proto::ProfileView)
    requires
        m.string_table.len() <= usize::MAX,
    ensures
        all_expand(m, m.location.len() as int) <==> (forall|id: u64, at: int| #[trigger]
            first_location(m.location, id, at) ==> location_findable(
                m.location[at],
                m.function,
                m.mapping,
                m.string_table,
            )),
{
    assert forall|id: u64, at: int| #[trigger] first_location(m.location, id, at) implies (
    location_findable(m.location[at], m.function, m.mapping, m.string_table) <==> location_frames(
        m.location[at],
        m.function,
        m.mapping,
        m.string_table,
    ) is Ok) by {
        law_locations_are_refused_for_their_strings(
            m.location[at],
            m.function,
            m.mapping,
            m.string_table,
        );
    }
}

proof fn lemma_sample_readable(m: proto::ProfileView, located: Located, i: int)
    requires
        read_all(m, m.location.len() as int, located),
        0 <= i < m.sample.len(),
    ensures
        sample_of(m.sample[i], located.known, m.sample_type.len()) is Ok <==> {
            &&& m.sample[i].value.len() == m.sample_type.len()
            &&& forall|j: int|
                0 <= j < m.sample[i].location_id.len() ==> located_somewhere(
                    m.location,
                    #[trigger] m.sample[i].location_id[j],
                )
        },
{
    lemma_gather_along(m, located, m.sample[i].location_id);
}

/// A message is read where it is readable, and refused everywhere else.
pub proof fn law_readable_messages_are_read(m: proto::ProfileView)
    requires
        m.string_table.len() <= usize::MAX,
    ensures
        from_proto(m) is Ok <==> readable(m),
{
    let n = m.location.len() as int;
    lemma_kinds_pointwise(m.sample_type, m.string_table);
    lemma_locate_reads_all(m, n);
    assert(m.location.take(n) =~= m.location);
    lemma_expand_is_findable(m);
    let kinds = kinds_of(m.sample_type, m.string_table);
    let located = locate(m.location, m.function, m.mapping, m.string_table);
    if kinds is Ok && located is Ok {
        let known = located->Ok_0.known;
        lemma_samples_pointwise(m.sample, known, m.sample_type.len());
        assert forall|i: int| 0 <= i < m.sample.len() implies (sample_of(
            #[trigger] m.sample[i],
            known,
            m.sample_type.len(),
        ) is Ok <==> {
            &&& m.sample[i].value.len() == m.sample_type.len()
            &&& forall|j: int|
                0 <= j < m.sample[i].location_id.len() ==> located_somewhere(
                    m.location,
                    #[trigger] m.sample[i].location_id[j],
                )
        }) by {
            lemma_sample_readable(m, located->Ok_0, i);
        }
        let samples = samples_of(m.sample, known, m.sample_type.len());
        if samples is Err {
            let i = choose|i: int|
                0 <= i < m.sample.len() && sample_of(
                    #[trigger] m.sample[i],
                    known,
                    m.sample_type.len(),
                ) is Err;
            assert(!readable(m));
        } else {
            assert forall|i: int, j: int|
                0 <= i < m.sample.len() && 0 <= j < m.sample[i].location_id.len() implies
                located_somewhere(m.location, #[trigger] m.sample[i].location_id[j]) by {
                assert(sample_of(m.sample[i], known, m.sample_type.len()) is Ok);
            }
            assert(readable(m));
        }
    }
}

/// The profile that comes of a message has its value types as value kinds, by
/// the strings that they point to, and its samples in their order. Each sample
/// keeps its values, and its stack, from the root to the leaf, is what its
/// locations stand for from the last to the first.
pub proof fn law_messages_are_read_as_they_stand(m: proto::ProfileView)
    requires
        m.string_table.len() <= usize::MAX,
        from_proto(m) is Ok,
        from_proto(m)->Ok_0.frames.len() <= u32::MAX,
    ensures
        ({
            let q = from_proto(m)->Ok_0;
            &&& q.value_kinds.len() == m.sample_type.len()
            &&& forall|i: int|
                0 <= i < m.sample_type.len() ==> (#[trigger] q.value_kinds[i]).kind
                    == m.string_table[m.sample_type[i].kind as int] && q.value_kinds[i].unit
                    == m.string_table[m.sample_type[i].unit as int]
            &&& q.samples.len() == m.sample.len()
            &&& forall|i: int|
                0 <= i < m.sample.len() ==> {
                    &&& (#[trigger] q.samples[i]).values == m.sample[i].value
                    &&& frames_at(q.frames, q.samples[i].stack) == frames_along(
                        m,
                        m.sample[i].location_id,
                    ).reverse()
                }
        }),
{
    let n = m.location.len() as int;
    let q = from_proto(m)->Ok_0;
    lemma_kinds_pointwise(m.sample_type, m.string_table);
    lemma_locate_reads_all(m, n);
    assert(m.location.take(n) =~= m.location);
    let located = locate(m.location, m.function, m.mapping, m.string_table)->Ok_0;
    lemma_samples_pointwise(m.sample, located.known, m.sample_type.len());
    assert forall|i: int| 0 <= i < m.sample.len() implies {
        &&& (#[trigger] q.samples[i]).values == m.sample[i].value
        &&& frames_at(q.frames, q.samples[i].stack) == frames_along(
            m,
            m.sample[i].location_id,
        ).reverse()
    } by {
        let sample = m.sample[i];
        assert(sample_of(sample, located.known, m.sample_type.len()) == Ok::<
            SampleView,
            ErrorView,
        >(q.samples[i]));
        lemma_gather_along(m, located, sample.location_id);
        let stack = gather(located.known, sample.location_id)->Ok_0;
        assert(q.samples[i].stack == stack.reverse());
        assert(frames_at(q.frames, stack.reverse()) =~= frames_at(q.frames, stack).reverse());
    }
}

proof fn lemma_table_is_small(m: proto::ProfileView, n: int)
    requires
        0 <= n <= m.location.len(),
        forall|k: int|
            0 <= k < m.location.len() ==> (location_frames(
                #[trigger] m.location[k],
                m.function,
                m.mapping,
                m.string_table,
            ) matches Ok(frames) && frames.len() == 1),
    ensures
        locate(m.location.take(n), m.function, m.mapping, m.string_table) matches Ok(located)
            && located.table.len() <= n,
    decreases n,
{
    if n > 0 {
        lemma_table_is_small(m, n - 1);
        let list = m.location.take(n);
        assert(list.drop_last() =~= m.location.take(n - 1));
        assert(list.last() == m.location[n - 1]);
        let frames = location_frames(
            m.location[n - 1],
            m.function,
            m.mapping,
            m.string_table,
        )->Ok_0;
        let before = locate(m.location.take(n - 1), m.function, m.mapping, m.string_table)->Ok_0;
        assert(frames.drop_last() =~= Seq::empty());
        assert(grown_all(before.table, frames.drop_last()) == before.table);
        assert(grown_all(before.table, frames).len() <= before.table.len() + 1);
    } else {
        assert(m.location.take(0) =~= Seq::empty());
    }
}

proof fn lemma_along_single_frames(m: proto::ProfileView, bare: Seq<FrameView>, path: Seq<u64>)
    requires
        m.location.len() == bare.len(),
        bare.len() <= u32::MAX,
        forall|k: int|
            0 <= k < m.location.len() ==> {
                &&& (#[trigger] m.location[k]).id == k + 1
                &&& location_frames(m.location[k], m.function, m.mapping, m.string_table) == Ok::<
                    Seq<FrameView>,
                    ErrorView,
                >(seq![bare[k]])
            },
        forall|i: int| 0 <= i < path.len() ==> 1 <= #[trigger] path[i] <= bare.len(),
    ensures
        frames_along(m, path).len() == path.len(),
        forall|i: int|
            0 <= i < path.len() ==> #[trigger] frames_along(m, path)[i] == bare[path[i] - 1],
    decreases path.len(),
{
    if path.len() > 0 {
        let front = path.drop_last();
        assert forall|i: int| 0 <= i < front.len() implies 1 <= #[trigger] front[i]
            <= bare.len() by {
            assert(front[i] == path[i]);
        }
        lemma_along_single_frames(m, bare, front);
        let id = path[path.len() - 1];
        let k = id - 1;
        assert(m.location[k].id == id);
        assert(first_location(m.location, id, k)) by {
            assert forall|j: int| 0 <= j < k implies (#[trigger] m.location[j]).id != id by {}
        }
        let at = choose|at: int| first_location(m.location, path.last(), at);
        lemma_first_is_one(m.location, id, at, k);
        assert(frames_along(m, path) =~= frames_along(m, front) + seq![bare[k]]);
        assert forall|i: int| 0 <= i < path.len() implies #[trigger] frames_along(m, path)[i]
            == bare[path[i] - 1] by {
            if i < front.len() {
                assert(frames_along(m, path)[i] == frames_along(m, front)[i]);
                assert(front[i] == path[i]);
            }
        }
    }
}

proof fn lemma_written_message_is_read(p: ProfileView)
    requires
        p.valid(),
        p.frames.len() <= u32::MAX,
        to_proto(p).string_table.len() <= i64::MAX,
        to_proto(p).string_table.len() <= usize::MAX,
    ensures
        from_proto(to_proto(p)) matches Ok(q) && q.frames.len() <= u32::MAX && q.value_kinds
            == p.value_kinds,
{
    let m = to_proto(p);
    law_locations_stand_for_their_frames(p);
    let n = m.location.len() as int;
    lemma_table_is_small(m, n);
    lemma_locate_reads_all(m, n);
    assert(m.location.take(n) =~= m.location);
    let located = locate(m.location, m.function, m.mapping, m.string_table)->Ok_0;
    lemma_samples_pointwise(m.sample, located.known, p.value_kinds.len());
    assert forall|i: int| 0 <= i < m.sample.len() implies sample_of(
        #[trigger] m.sample[i],
        located.known,
        p.value_kinds.len(),
    ) is Ok by {
        let sample = p.samples[i];
        assert(sample.fits(p.frames.len(), p.value_kinds.len()));
        let path = m.sample[i].location_id;
        lemma_gather_along(m, located, path);
        assert forall|j: int| 0 <= j < path.len() implies located_somewhere(
            m.location,
            #[trigger] path[j],
        ) by {
            let k = sample.stack[sample.stack.len() - 1 - j].0 as int;
            assert(k < p.frames.len());
            assert(m.location[k].id == path[j]);
            lemma_first_location(m.location, k);
        }
    }
}

/// Whether a profile comes back as another one but for the labels of its frames:
/// with its value kinds and its samples, each with its values and, frame by frame
/// from the root to the leaf, with the same function, file, line, module and
/// address.
pub open spec fn told_back(p: ProfileView, q: ProfileView) -> bool {
    &&& q.value_kinds == p.value_kinds
    &&& q.samples.len() == p.samples.len()
    &&& forall|i: int|
        0 <= i < p.samples.len() ==> (#[trigger] q.samples[i]).values == p.samples[i].values
            && q.samples[i].stack.len() == p.samples[i].stack.len()
    &&& forall|i: int, j: int|
        0 <= i < p.samples.len() && 0 <= j < p.samples[i].stack.len() ==> {
            let read = q.frames[(#[trigger] q.samples[i].stack[j]).0 as int];
            let written = p.frames[p.samples[i].stack[j].0 as int];
            &&& read.raw.len() == 0
            &&& read.function == written.function
            &&& read.file == written.file
            &&& read.line == written.line
            &&& read.module == written.module
            &&& read.address == written.address
        }
}

/// What can be told of a frame survives a round trip through pprof, whatever else
/// is in it: the profile comes back with its value kinds and its samples, each
/// with its values and, frame by frame from the root to the leaf, with what can be
/// told of the frame. The string table has no more entries than an index can tell.
pub proof fn law_what_can_be_told_round_trips(p: ProfileView)
    requires
        p.valid(),
        p.frames.len() <= u32::MAX,
        to_proto(p).string_table.len() <= i64::MAX,
        to_proto(p).string_table.len() <= usize::MAX,
    ensures
        from_proto(to_proto(p)) is Ok,
        ({
            let q = from_proto(to_proto(p))->Ok_0;
            &&& q.value_kinds == p.value_kinds
            &&& q.samples.len() == p.samples.len()
            &&& forall|i: int|
                0 <= i < p.samples.len() ==> (#[trigger] q.samples[i]).values
                    == p.samples[i].values && q.samples[i].stack.len() == p.samples[i].stack.len()
            &&& forall|i: int, j: int|
                0 <= i < p.samples.len() && 0 <= j < p.samples[i].stack.len() ==> q.frames[(
                #[trigger] q.samples[i].stack[j]).0 as int] == known(
                    p.frames[p.samples[i].stack[j].0 as int],
                )
        }),
{
    let m = to_proto(p);
    lemma_written_message_is_read(p);
    law_messages_are_read_as_they_stand(m);
    law_locations_stand_for_their_frames(p);
    let q = from_proto(m)->Ok_0;
    let bare = Seq::new(p.frames.len(), |k: int| known(p.frames[k]));
    assert forall|i: int| 0 <= i < p.samples.len() implies {
        &&& (#[trigger] q.samples[i]).stack.len() == p.samples[i].stack.len()
        &&& forall|j: int|
            0 <= j < p.samples[i].stack.len() ==> q.frames[(#[trigger] q.samples[i].stack[j]).0 as int]
                == bare[p.samples[i].stack[j].0 as int]
    } by {
        let stack = p.samples[i].stack;
        let path = m.sample[i].location_id;
        assert(p.samples[i].fits(p.frames.len(), p.value_kinds.len()));
        assert forall|j: int| 0 <= j < path.len() implies 1 <= #[trigger] path[j]
            <= bare.len() by {
            assert(stack[stack.len() - 1 - j].0 < p.frames.len());
        }
        lemma_along_single_frames(m, bare, path);
        let shown = frames_at(q.frames, q.samples[i].stack);
        let along = frames_along(m, path);
        assert(shown == along.reverse());
        assert(shown.len() == q.samples[i].stack.len());
        assert forall|j: int| 0 <= j < stack.len() implies q.frames[(
        #[trigger] q.samples[i].stack[j]).0 as int] == bare[stack[j].0 as int] by {
            assert(shown[j] == q.frames[q.samples[i].stack[j].0 as int]);
            let k = stack.len() - 1 - j;
            assert(along.reverse()[j] == along[k]);
            assert(path[k] == stack[j].0 + 1);
        }
    }
}

/// Whatever a frame is labelled, what is known of it survives a round trip
/// through pprof: the profile comes back with its value kinds and its samples,
/// each with its values and, frame by frame from the root to the leaf, with the
/// same function, file, line, module and address. Only the labels are gone. What
/// is known is not empty or zero, and the string table has no more entries than
/// an index can tell.
pub proof fn law_labelled_profiles_round_trip(p: ProfileView)
    requires
        p.valid(),
        p.frames.len() <= u32::MAX,
        forall|i: int| 0 <= i < p.frames.len() ==> tellable(#[trigger] p.frames[i]),
        to_proto(p).string_table.len() <= i64::MAX,
        to_proto(p).string_table.len() <= usize::MAX,
    ensures
        from_proto(to_proto(p)) matches Ok(q) && told_back(p, q),
{
    law_what_can_be_told_round_trips(p);
    let q = from_proto(to_proto(p))->Ok_0;
    assert forall|i: int, j: int|
        0 <= i < p.samples.len() && 0 <= j < p.samples[i].stack.len() implies ({
        let read = q.frames[(#[trigger] q.samples[i].stack[j]).0 as int];
        let written = p.frames[p.samples[i].stack[j].0 as int];
        &&& read.raw.len() == 0
        &&& read.function == written.function
        &&& read.file == written.file
        &&& read.line == written.line
        &&& read.module == written.module
        &&& read.address == written.address
    }) by {
        assert(p.samples[i].fits(p.frames.len(), p.value_kinds.len()));
        let at = p.samples[i].stack[j].0 as int;
        assert(tellable(p.frames[at]));
    }
}

/// The same holds of the protobuf bytes that a profile is written as, where they
/// are no longer than the cap on decompressed bytes.
pub proof fn law_labelled_payloads_round_trip(p: ProfileView)
    requires
        p.valid(),
        p.frames.len() <= u32::MAX,
        forall|i: int| 0 <= i < p.frames.len() ==> tellable(#[trigger] p.frames[i]),
        raw_rendering(p).len() <= MAX_DECOMPRESSED,
    ensures
        payload_meaning(raw_rendering(p)) matches Ok(q) && told_back(p, q),
{
    law_payload_says_the_message(p);
    law_labelled_profiles_round_trip(p);
}

/// Bytes that do not start with the two magic bytes of gzip are the message as
/// they stand.
pub proof fn law_raw_input_is_the_message(input: Seq<u8>)
    requires
        input.len() < 2 || input[0] != 0x1f || input[1] != 0x8b,
    ensures
        payload(input) == Some(input),
        pprof_meaning(input) == payload_meaning(input),
        content_likeness(input) == payload_likeness(input),
{
}

/// Bytes are likely pprof where they are a message whose string table starts with
/// the empty string, and which has a value type, a sample or a second string.
/// All others are rejected.
pub proof fn law_messages_are_known_by_their_hallmarks(bytes: Seq<u8>)
    ensures
        payload_likeness(bytes) == Confidence::Likely || payload_likeness(bytes)
            == Confidence::NoMatch,
        proto::read_message(bytes) is None ==> payload_likeness(bytes) == Confidence::NoMatch,
        proto::read_message(bytes) matches Some(m) ==> (payload_likeness(bytes)
            == Confidence::Likely <==> {
            &&& m.string_table.len() > 0
            &&& m.string_table[0].len() == 0
            &&& m.string_table.len() > 1 || m.sample_type.len() > 0 || m.sample.len() > 0
        }),
{
}

/// Where all but the samples is in order, a message is refused for its first
/// sample that cannot be read: for the number of its values where that is not the
/// number of value types, and else for its first location that is not there.
pub proof fn law_the_first_unreadable_sample_is_told(m: proto::ProfileView, at: int, j: int)
    requires
        m.string_table.len() <= usize::MAX,
        forall|i: int|
            0 <= i < m.sample_type.len() ==> findable(
                m.string_table,
                (#[trigger] m.sample_type[i]).kind,
            ) && findable(m.string_table, m.sample_type[i].unit),
        forall|id: u64, k: int| #[trigger]
            first_location(m.location, id, k) ==> location_findable(
                m.location[k],
                m.function,
                m.mapping,
                m.string_table,
            ),
        0 <= at < m.sample.len(),
        forall|i: int|
            0 <= i < at ==> (#[trigger] m.sample[i]).value.len() == m.sample_type.len(),
        forall|i: int, k: int|
            0 <= i < at && 0 <= k < m.sample[i].location_id.len() ==> located_somewhere(
                m.location,
                #[trigger] m.sample[i].location_id[k],
            ),
    ensures
        m.sample[at].value.len() != m.sample_type.len() ==> from_proto(m) == Err::<
            ProfileView,
            ErrorView,
        >(
            ErrorView::Decode(
                "sample has "@ + decimal(m.sample[at].value.len())
                    + " values but the profile declares "@ + decimal(m.sample_type.len())
                    + " value kinds"@,
            ),
        ),
        m.sample[at].value.len() == m.sample_type.len() && 0 <= j
            < m.sample[at].location_id.len() && !located_somewhere(
            m.location,
            m.sample[at].location_id[j],
        ) && (forall|k: int|
            0 <= k < j ==> located_somewhere(m.location, #[trigger] m.sample[at].location_id[k]))
            ==> from_proto(m) == Err::<ProfileView, ErrorView>(
            ErrorView::Decode(unknown_location_message(m.sample[at].location_id[j] as nat)),
        ),
{
    let n = m.location.len() as int;
    lemma_kinds_pointwise(m.sample_type, m.string_table);
    lemma_locate_reads_all(m, n);
    assert(m.location.take(n) =~= m.location);
    lemma_expand_is_findable(m);
    let located = locate(m.location, m.function, m.mapping, m.string_table)->Ok_0;
    let kinds = m.sample_type.len();
    assert forall|i: int| 0 <= i < at implies sample_of(
        #[trigger] m.sample[i],
        located.known,
        kinds,
    ) is Ok by {
        lemma_sample_readable(m, located, i);
    }
    lemma_first_bad_sample(m.sample, located.known, kinds, at);
    let path = m.sample[at].location_id;
    if m.sample[at].value.len() == kinds && 0 <= j < path.len() && !located_somewhere(
        m.location,
        path[j],
    ) && (forall|k: int| 0 <= k < j ==> located_somewhere(m.location, #[trigger] path[k])) {
        lemma_gather_along(m, located, path.take(j));
        assert forall|k: int| 0 <= k < path.take(j).len() implies located_somewhere(
            m.location,
            #[trigger] path.take(j)[k],
        ) by {
            assert(path.take(j)[k] == path[k]);
        }
        assert(!located.known.contains_key(path[j])) by {
            if located.known.contains_key(path[j]) {
                let k = choose|k: int| #[trigger] first_location(m.location, path[j], k) && k < n;
                assert(located_somewhere(m.location, path[j]));
            }
        }
        lemma_gather_stops(located.known, path, j);
    }
}

proof fn lemma_gather_stops(known: Map<u64, Seq<FrameId>>, path: Seq<u64>, j: int)
    requires
        0 <= j < path.len(),
        gather(known, path.take(j)) is Ok,
        !known.contains_key(path[j]),
    ensures
        gather(known, path) == Err::<Seq<FrameId>, ErrorView>(
            ErrorView::Decode(unknown_location_message(path[j] as nat)),
        ),
    decreases path.len(),
{
    let front = path.drop_last();
    if j == path.len() - 1 {
        assert(front =~= path.take(j));
    } else {
        assert(front.take(j) =~= path.take(j));
        assert(front[j] == path[j]);
        lemma_gather_stops(known, front, j);
    }
}

proof fn lemma_first_bad_sample(
    samples: Seq<proto::SampleView>,
    known: Map<u64, Seq<FrameId>>,
    kinds: nat,
    at: int,
)
    requires
        0 <= at < samples.len(),
        forall|i: int| 0 <= i < at ==> sample_of(#[trigger] samples[i], known, kinds) is Ok,
    ensures
        sample_of(samples[at], known, kinds) matches Err(error) ==> samples_of(
            samples,
            known,
            kinds,
        ) == Err::<Seq<SampleView>, ErrorView>(error),
    decreases samples.len(),
{
    let front = samples.drop_last();
    if at < samples.len() - 1 {
        assert forall|i: int| 0 <= i < at implies sample_of(
            #[trigger] front[i],
            known,
            kinds,
        ) is Ok by {
            assert(front[i] == samples[i]);
        }
        assert(front[at] == samples[at]);
        lemma_first_bad_sample(front, known, kinds, at);
    } else {
        lemma_samples_pointwise(front, known, kinds);
        assert forall|i: int| 0 <= i < front.len() implies sample_of(
            #[trigger] front[i],
            known,
            kinds,
        ) is Ok by {
            assert(front[i] == samples[i]);
        }
    }
}

/// An index into the string table is refused where it is negative or points
/// behind the end, with what it is and, there, how many strings there are.
pub proof fn law_string_indices_are_checked(strings: Seq<Seq<char>>, index: i64)
    requires
        strings.len() <= usize::MAX,
    ensures
        0 <= index < strings.len() ==> string_at(strings, index) == Ok::<Seq<char>, ErrorView>(
            strings[index as int],
        ),
        index < 0 ==> string_at(strings, index) == Err::<Seq<char>, ErrorView>(
            ErrorView::Decode(negative_message(index as int)),
        ),
        strings.len() <= index <= usize::MAX ==> string_at(strings, index) == Err::<
            Seq<char>,
            ErrorView,
        >(ErrorView::Decode(range_message(index as int, strings.len()))),
{
}

/// Input that cannot be decompressed is an I/O error, and no pprof.
pub proof fn law_broken_streams_are_refused(input: Seq<u8>)
    requires
        payload(input) is None,
    ensures
        pprof_meaning(input) == Err::<ProfileView, ErrorView>(ErrorView::Io),
        content_likeness(input) == Confidence::NoMatch,
        input.len() >= 2 && input[0] == 0x1f && input[1] == 0x8b,
{
}

} // verus!

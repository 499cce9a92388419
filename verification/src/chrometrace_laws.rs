//! What holds of the Chrome trace format as a whole: readers hand out valid
//! profiles, and stacks, weights and categories survive a round trip.

use vstd::prelude::*;

use crate::chrometrace::{
    chain_limit, cycle_message, display_name, event_records, events_of, leaf_and_weight,
    lemma_decimal_tells_apart, lemma_names, node_entries, node_frame, node_of, nodes_of, path,
    resolve_records, sample_entries, sample_of, sample_records, samples_of, trace_json, trace_of,
    trace_profile, trace_samples, tree_entries, unknown_message,
    value_meaning, walk, NodeKeyView, NodeView,
    RecordView, Resolved, TraceView, Tracing, TrieNode,
};
use crate::error::ErrorView;
use crate::intern::{
    grown_all, ids, law_grown_all_keeps_places, law_grown_keeps_places, lemma_place, place,
};
use crate::json::{entry, record, JsonView};
use crate::model::{FrameId, FrameView, ProfileView};
use crate::number::decimal;
use crate::order::{law_text_order, text_order};

verus! {

proof fn lemma_ids_fit(table: Seq<NodeKeyView>, chain: Seq<NodeKeyView>)
    requires
        forall|i: int| 0 <= i < chain.len() ==> table.contains(#[trigger] chain[i]),
    ensures
        forall|i: int| 0 <= i < chain.len() ==> (#[trigger] ids(table, chain)[i]).0 < table.len(),
{
    assert forall|i: int| 0 <= i < chain.len() implies (#[trigger] ids(table, chain)[i]).0
        < table.len() by {
        assert(table.contains(chain[i]));
        let k = place(table, chain[i]);
        assert(0 <= k < table.len());
    }
}

/// What holds of what has been resolved: the nodes are distinct, and every
/// sample has one weight and points at nodes that are there.
spec fn sound(resolved: Resolved) -> bool {
    &&& resolved.table.no_duplicates()
    &&& forall|i: int|
        0 <= i < resolved.samples.len() ==> (#[trigger] resolved.samples[i]).fits(
            resolved.table.len(),
            1,
        )
}

proof fn lemma_resolved_sound(trace: TraceView, records: Seq<(Seq<char>, i64)>)
    ensures
        resolve_records(trace, records) matches Ok(resolved) ==> sound(resolved),
    decreases records.len(),
{
    if records.len() > 0 {
        lemma_resolved_sound(trace, records.drop_last());
        if let Ok(after) = resolve_records(trace, records) {
            let before = resolve_records(trace, records.drop_last())->Ok_0;
            let chain = walk(trace, records.last().0, records.last().0, 0)->Ok_0;
            law_grown_all_keeps_places(before.table, chain);
            lemma_ids_fit(after.table, chain);
            assert forall|i: int| 0 <= i < after.samples.len() implies (
            #[trigger] after.samples[i]).fits(after.table.len(), 1) by {
                if i < before.samples.len() {
                    assert(after.samples[i] == before.samples[i]);
                    assert(before.samples[i].fits(before.table.len(), 1));
                } else {
                    let s = after.samples[i].stack;
                    let list = ids(after.table, chain);
                    assert forall|j: int| 0 <= j < s.len() implies (#[trigger] s[j]).0
                        < after.table.len() by {
                        assert(s[j] == list[list.len() - 1 - j]);
                    }
                }
            }
        }
    }
}

/// Every profile that is read from a trace is valid.
pub proof fn law_chrome_reads_valid_profiles(value: JsonView)
    ensures
        value_meaning(value) matches Ok(p) ==> p.valid(),
{
    if let Ok(p) = value_meaning(value) {
        let trace = trace_of(value)->Ok_0;
        lemma_resolved_sound(trace, trace.records());
        let resolved = resolve_records(trace, trace.records())->Ok_0;
        assert forall|i: int| 0 <= i < p.samples.len() implies (#[trigger] p.samples[i]).fits(
            p.frames.len(),
            p.value_kinds.len(),
        ) by {
            assert(resolved.samples[i].fits(resolved.table.len(), 1));
        }
    }
}

/// The name and the category of each frame of a stack, root first.
pub open spec fn stack_names(frames: Seq<FrameView>, stack: Seq<FrameId>) -> Seq<NodeKeyView> {
    Seq::new(
        stack.len(),
        |i: int|
            (display_name(frames[stack[i].0 as int]), frames[stack[i].0 as int].module),
    )
}

/// What is told of the first `n` samples: the names of each stack that is not
/// empty, and the first value, or one where there is none.
pub open spec fn told(p: ProfileView, n: nat) -> Seq<(Seq<NodeKeyView>, i64)>
    decreases n,
{
    if n == 0 {
        Seq::empty()
    } else {
        let before = told(p, (n - 1) as nat);
        let sample = p.samples[n - 1];
        if sample.stack.len() == 0 {
            before
        } else {
            before.push(
                (
                    stack_names(p.frames, sample.stack),
                    if sample.values.len() > 0 {
                        sample.values[0]
                    } else {
                        1
                    },
                ),
            )
        }
    }
}

/// Every parent comes before its children.
pub open spec fn ordered(trie: Seq<TrieNode>) -> bool {
    forall|i: int|
        0 <= i < trie.len() ==> ((#[trigger] trie[i]).parent matches Some(parent) ==> parent < i)
}

/// Whether the chain from the root to a node spells a stack.
spec fn spells(trie: Seq<TrieNode>, node: int, stack: Seq<FrameId>) -> bool
    decreases stack.len(),
{
    &&& stack.len() > 0
    &&& 0 <= node < trie.len()
    &&& trie[node].frame == stack.last().0
    &&& match trie[node].parent {
        None => stack.len() == 1,
        Some(parent) => stack.len() > 1 && parent < node && spells(
            trie,
            parent as int,
            stack.drop_last(),
        ),
    }
}

proof fn lemma_spells_grows(small: Seq<TrieNode>, trie: Seq<TrieNode>, node: int, stack: Seq<FrameId>)
    requires
        small.is_prefix_of(trie),
        spells(small, node, stack),
    ensures
        spells(trie, node, stack),
    decreases stack.len(),
{
    assert(trie.take(small.len() as int)[node] == small[node]);
    if let Some(parent) = small[node].parent {
        lemma_spells_grows(small, trie, parent as int, stack.drop_last());
    }
}

proof fn lemma_spells_is_short(trie: Seq<TrieNode>, node: int, stack: Seq<FrameId>)
    requires
        spells(trie, node, stack),
    ensures
        stack.len() <= node + 1,
    decreases stack.len(),
{
    if let Some(parent) = trie[node].parent {
        lemma_spells_is_short(trie, parent as int, stack.drop_last());
    }
}

proof fn lemma_prefix_trans<V>(a: Seq<V>, b: Seq<V>, c: Seq<V>)
    requires
        a.is_prefix_of(b),
        b.is_prefix_of(c),
    ensures
        a.is_prefix_of(c),
{
    assert(c.take(a.len() as int) =~= b.take(a.len() as int));
}

/// A path that was added spells its stack, and moves nothing.
proof fn lemma_path(trie: Seq<TrieNode>, stack: Seq<FrameId>, frames: nat)
    requires
        trie.no_duplicates(),
        ordered(trie),
        path(trie, stack, frames) is Ok,
        path(trie, stack, frames)->Ok_0.0.len() <= u32::MAX,
    ensures
        path(trie, stack, frames)->Ok_0.0.no_duplicates(),
        ordered(path(trie, stack, frames)->Ok_0.0),
        trie.is_prefix_of(path(trie, stack, frames)->Ok_0.0),
        path(trie, stack, frames)->Ok_0.1 is Some <==> stack.len() > 0,
        path(trie, stack, frames)->Ok_0.1 matches Some(leaf) ==> spells(
            path(trie, stack, frames)->Ok_0.0,
            leaf as int,
            stack,
        ),
    decreases stack.len(),
{
    let (after, leaf) = path(trie, stack, frames)->Ok_0;
    if stack.len() == 0 {
        assert(trie.take(trie.len() as int) =~= trie);
    } else {
        let (before, parent) = path(trie, stack.drop_last(), frames)->Ok_0;
        let node = TrieNode { frame: stack.last().0, parent };
        assert(before.len() <= after.len());
        lemma_path(trie, stack.drop_last(), frames);
        law_grown_keeps_places(before, node);
        lemma_prefix_trans(trie, before, after);
        let at = place(after, node);
        assert(0 <= at < after.len() && after[at] == node);
        assert(leaf == Some(at as u32));
        assert forall|i: int| 0 <= i < after.len() implies ((#[trigger] after[i]).parent matches Some(
            q,
        ) ==> q < i) by {
            if i < before.len() {
                assert(after[i] == before[i]);
            } else if let Some(q) = parent {
                assert(q < before.len());
            }
        }
        if let Some(q) = parent {
            lemma_spells_grows(before, after, q as int, stack.drop_last());
        } else {
            assert(stack.len() == 1);
        }
    }
}

/// Interning a stack keeps a trie as it is but for new nodes at its end: nodes
/// stay distinct, and parents stay before their children. There are at most
/// `u32::MAX` nodes.
pub proof fn law_interning_keeps_nodes(trie: Seq<TrieNode>, stack: Seq<FrameId>, frames: nat)
    requires
        trie.no_duplicates(),
        ordered(trie),
        path(trie, stack, frames) is Ok,
        path(trie, stack, frames)->Ok_0.0.len() <= u32::MAX,
    ensures
        path(trie, stack, frames)->Ok_0.0.no_duplicates(),
        ordered(path(trie, stack, frames)->Ok_0.0),
        trie.is_prefix_of(path(trie, stack, frames)->Ok_0.0),
{
    lemma_path(trie, stack, frames);
}

proof fn lemma_path_is_there(trie: Seq<TrieNode>, stack: Seq<FrameId>, frames: nat)
    requires
        forall|i: int| 0 <= i < stack.len() ==> (#[trigger] stack[i]).0 < frames,
    ensures
        path(trie, stack, frames) is Ok,
    decreases stack.len(),
{
    if stack.len() > 0 {
        let front = stack.drop_last();
        assert forall|i: int| 0 <= i < front.len() implies (#[trigger] front[i]).0 < frames by {
            assert(front[i] == stack[i]);
        }
        lemma_path_is_there(trie, front, frames);
        assert(stack[stack.len() - 1].0 < frames);
    }
}

/// A stack that a node spells is found at that node, and adds nothing.
proof fn lemma_spelled_is_found(
    trie: Seq<TrieNode>,
    node: int,
    stack: Seq<FrameId>,
    frames: nat,
    n: int,
)
    requires
        trie.no_duplicates(),
        trie.len() <= u32::MAX,
        spells(trie, node, stack),
        forall|i: int| 0 <= i < stack.len() ==> (#[trigger] stack[i]).0 < frames,
        0 <= n <= stack.len(),
    ensures
        path(trie, stack, frames) == Ok::<(Seq<TrieNode>, Option<u32>), ErrorView>(
            (trie, Some(node as u32)),
        ),
        path(trie, stack.take(n), frames) matches Ok((after, _)) && after == trie,
    decreases stack.len(),
{
    let front = stack.drop_last();
    assert forall|i: int| 0 <= i < front.len() implies (#[trigger] front[i]).0 < frames by {
        assert(front[i] == stack[i]);
    }
    let m = if n < front.len() {
        n
    } else {
        front.len() as int
    };
    if let Some(parent) = trie[node].parent {
        lemma_spelled_is_found(trie, parent as int, front, frames, m);
    } else {
        assert(front =~= Seq::empty());
        assert(front.take(m) =~= front);
    }
    assert(stack[stack.len() - 1].0 < frames);
    assert(TrieNode { frame: stack.last().0, parent: trie[node].parent } == trie[node]);
    assert(trie.contains(trie[node]));
    lemma_place(trie, node);
    if n < stack.len() {
        assert(stack.take(n) =~= front.take(m));
    } else {
        assert(stack.take(n) =~= stack);
    }
}

proof fn lemma_spells_one(trie: Seq<TrieNode>, node: int, a: Seq<FrameId>, b: Seq<FrameId>)
    requires
        spells(trie, node, a),
        spells(trie, node, b),
    ensures
        a == b,
    decreases a.len(),
{
    if let Some(parent) = trie[node].parent {
        lemma_spells_one(trie, parent as int, a.drop_last(), b.drop_last());
        assert(a =~= a.drop_last().push(a.last()));
        assert(b =~= b.drop_last().push(b.last()));
    } else {
        assert(a =~= b);
    }
}

/// A leaf id stands for one whole stack. Where `a` is interned in a trie, and
/// `b` at any time later in what became of it, the two get one id exactly where
/// they are the same stack, none exactly where the stack is empty, and `b` adds
/// no node where it is `a` or starts it. There are at most `u32::MAX` nodes.
pub proof fn law_leaf_tells_the_stack(
    trie: Seq<TrieNode>,
    a: Seq<FrameId>,
    later: Seq<TrieNode>,
    b: Seq<FrameId>,
    frames: nat,
)
    requires
        trie.no_duplicates(),
        ordered(trie),
        later.no_duplicates(),
        ordered(later),
        forall|i: int| 0 <= i < a.len() ==> (#[trigger] a[i]).0 < frames,
        forall|i: int| 0 <= i < b.len() ==> (#[trigger] b[i]).0 < frames,
        path(trie, a, frames)->Ok_0.0.is_prefix_of(later),
        path(later, b, frames)->Ok_0.0.len() <= u32::MAX,
    ensures
        path(trie, a, frames) is Ok,
        path(later, b, frames) is Ok,
        path(trie, a, frames)->Ok_0.1 == path(later, b, frames)->Ok_0.1 <==> a == b,
        path(trie, a, frames)->Ok_0.1 is None <==> a.len() == 0,
        path(later, b, frames)->Ok_0.1 is None <==> b.len() == 0,
        b.is_prefix_of(a) ==> path(later, b, frames)->Ok_0.0 == later,
{
    lemma_path_is_there(trie, a, frames);
    lemma_path_is_there(later, b, frames);
    lemma_path_grows(later, b, frames);
    let (first, x) = path(trie, a, frames)->Ok_0;
    let (after, y) = path(later, b, frames)->Ok_0;
    assert(first.len() <= later.len());
    lemma_path(trie, a, frames);
    lemma_path(later, b, frames);
    if let Some(leaf) = x {
        lemma_spells_grows(first, later, leaf as int, a);
        lemma_spells_grows(later, after, leaf as int, a);
        if y == x {
            lemma_spells_one(after, leaf as int, a, b);
        }
        lemma_spelled_is_found(later, leaf as int, a, frames, a.len() as int);
        if b.is_prefix_of(a) {
            lemma_spelled_is_found(later, leaf as int, a, frames, b.len() as int);
            assert(a.take(b.len() as int) =~= b);
        }
    } else {
        assert(a =~= Seq::empty());
        if b.len() == 0 {
            assert(b =~= a);
        }
    }
}

/// The id that is met when parents are followed `n` times from a leaf, where
/// that leads so far.
pub open spec fn ancestor(trace: TraceView, leaf: Seq<char>, n: nat) -> Option<Seq<char>>
    decreases n,
{
    if n == 0 {
        Some(leaf)
    } else {
        match ancestor(trace, leaf, (n - 1) as nat) {
            None => None,
            Some(id) => match trace.node(id) {
                None => None,
                Some(node) => node.parent,
            },
        }
    }
}

/// Whether the `n`th ancestor of a leaf is a node that is there.
pub open spec fn met(trace: TraceView, leaf: Seq<char>, n: nat) -> bool {
    ancestor(trace, leaf, n) matches Some(id) && trace.node(id) is Some
}

/// Whether following parents from a leaf never meets a missing id or a root.
pub open spec fn endless(trace: TraceView, leaf: Seq<char>) -> bool {
    forall|n: nat| #[trigger] met(trace, leaf, n)
}

proof fn lemma_met_before(trace: TraceView, leaf: Seq<char>, m: nat, n: nat)
    requires
        m < n,
        ancestor(trace, leaf, n) is Some,
    ensures
        met(trace, leaf, m),
    decreases n,
{
    if m < n - 1 {
        lemma_met_before(trace, leaf, m, (n - 1) as nat);
    }
}

/// A walk goes in circles where it finds one more ancestor than it may take.
proof fn lemma_walk_exceeds(trace: TraceView, leaf: Seq<char>, n: nat)
    requires
        n <= chain_limit(trace.nodes.len()) + 1,
        ancestor(trace, leaf, n) is Some,
    ensures
        walk(trace, leaf, ancestor(trace, leaf, n)->0, n) == Err::<Seq<NodeKeyView>, ErrorView>(
            ErrorView::Decode(cycle_message(leaf, chain_limit(trace.nodes.len()))),
        ) <==> ancestor(trace, leaf, chain_limit(trace.nodes.len()) + 1) is Some,
    decreases chain_limit(trace.nodes.len()) + 1 - n,
{
    let limit = chain_limit(trace.nodes.len());
    let id = ancestor(trace, leaf, n)->0;
    if n <= limit {
        if ancestor(trace, leaf, limit + 1) is Some {
            lemma_met_before(trace, leaf, n, limit + 1);
        }
        match trace.node(id) {
            None => {
                lemma_messages_differ(leaf, limit, id);
            },
            Some(node) => {
                if node.parent is Some {
                    assert(ancestor(trace, leaf, n + 1) == node.parent);
                    lemma_walk_exceeds(trace, leaf, n + 1);
                } else if ancestor(trace, leaf, limit + 1) is Some {
                    assert(ancestor(trace, leaf, n + 1) is None);
                    if n < limit {
                        lemma_met_before(trace, leaf, n + 1, limit + 1);
                    }
                }
            },
        }
    }
}

proof fn lemma_messages_differ(leaf: Seq<char>, limit: nat, id: Seq<char>)
    ensures
        cycle_message(leaf, limit) != unknown_message(id),
{
    reveal_strlit("stack frame chain from '");
    reveal_strlit("sample references unknown stack frame id '");
    assert(cycle_message(leaf, limit)[1] == 't');
    assert(unknown_message(id)[1] == 'a');
}

/// Where two ancestors are one, so are those above them.
proof fn lemma_ancestors_repeat(trace: TraceView, leaf: Seq<char>, i: nat, j: nat, n: nat)
    requires
        ancestor(trace, leaf, i) == ancestor(trace, leaf, j),
    ensures
        ancestor(trace, leaf, i + n) == ancestor(trace, leaf, j + n),
    decreases n,
{
    if n > 0 {
        lemma_ancestors_repeat(trace, leaf, i, j, (n - 1) as nat);
    }
}

proof fn lemma_circle_is_endless(trace: TraceView, leaf: Seq<char>, i: nat, j: nat, n: nat)
    requires
        i < j,
        ancestor(trace, leaf, i) == ancestor(trace, leaf, j),
        ancestor(trace, leaf, j) is Some,
    ensures
        met(trace, leaf, n),
    decreases n,
{
    if n < j {
        lemma_met_before(trace, leaf, n, j);
    } else {
        let back = (n - (j - i)) as nat;
        lemma_circle_is_endless(trace, leaf, i, j, back);
        lemma_ancestors_repeat(trace, leaf, i, j, (n - j) as nat);
    }
}

/// A chain is refused for a cycle exactly where it is one: where following
/// parents from the leaf never meets a missing id or a root. Every node has one
/// id of its own.
pub proof fn law_cycles_are_told(trace: TraceView, leaf: Seq<char>)
    requires
        trace.ids.no_duplicates(),
        trace.ids.len() == trace.nodes.len(),
        trace.nodes.len() <= usize::MAX,
    ensures
        walk(trace, leaf, leaf, 0) == Err::<Seq<NodeKeyView>, ErrorView>(
            ErrorView::Decode(cycle_message(leaf, chain_limit(trace.nodes.len()))),
        ) <==> endless(trace, leaf),
{
    let count = trace.nodes.len();
    let limit = chain_limit(count);
    lemma_walk_exceeds(trace, leaf, 0);
    if endless(trace, leaf) {
        assert(met(trace, leaf, limit + 1));
    }
    if ancestor(trace, leaf, limit + 1) is Some {
        let seen = Seq::new(count + 1, |n: int| ancestor(trace, leaf, n as nat)->0);
        if seen.no_duplicates() {
            assert forall|id: Seq<char>| seen.to_set().contains(id) implies trace.ids.to_set().contains(
                id,
            ) by {
                let n = seen.index_of(id);
                lemma_met_before(trace, leaf, n as nat, limit + 1);
                assert(trace.ids.contains(seen[n]));
            }
            seen.unique_seq_to_set();
            trace.ids.unique_seq_to_set();
            vstd::set_lib::lemma_len_subset(seen.to_set(), trace.ids.to_set());
            assert(false);
        }
        let (i, j) = choose|i: int, j: int|
            0 <= i < j < seen.len() && #[trigger] seen[i] == #[trigger] seen[j];
        assert(0 <= i < j < seen.len() && seen[i] == seen[j]);
        lemma_met_before(trace, leaf, i as nat, limit + 1);
        lemma_met_before(trace, leaf, j as nat, limit + 1);
        assert forall|n: nat| #[trigger] met(trace, leaf, n) by {
            lemma_circle_is_endless(trace, leaf, i as nat, j as nat, n);
        }
    }
}

/// The node that a trie node is written as.
spec fn written_node(frames: Seq<FrameView>, node: TrieNode) -> NodeView {
    NodeView {
        name: display_name(frames[node.frame as int]),
        category: frames[node.frame as int].module,
        parent: match node.parent {
            Some(parent) => Some(decimal(parent as nat)),
            None => None,
        },
    }
}

proof fn lemma_node_reads_back(frames: Seq<FrameView>, node: TrieNode)
    ensures
        node_of(JsonView::Object(node_entries(frames, node))) == Some(written_node(frames, node)),
{
    lemma_names();
    let e = node_entries(frames, node);
    let keys = seq!["name"@, "category"@, "parent"@];
    reveal_with_fuel(entry, 4);
    let f = record(JsonView::Object(e), keys, true)->0;
    let frame = frames[node.frame as int];
    let named = seq![("name"@, JsonView::Text(display_name(frame)))];
    assert(named.drop_last() =~= Seq::empty());
    let grouped = match frame.module {
        Some(module) => named.push(("category"@, JsonView::Text(module))),
        None => named,
    };
    if frame.module is Some {
        assert(grouped.drop_last() =~= named);
    }
    if node.parent is Some {
        assert(e.drop_last() =~= grouped);
    } else {
        assert(e =~= grouped);
    }
    assert(f[0] == entry(e, "name"@));
    assert(f[1] == entry(e, "category"@));
    assert(f[2] == entry(e, "parent"@));
    assert(entry(e, "name"@) == Some(JsonView::Text(display_name(frame))));
}

proof fn lemma_sample_reads_back(ts: i64, name: Seq<char>, leaf: u32, values: Seq<i64>)
    ensures
        sample_of(JsonView::Object(sample_entries(ts, name, leaf, values))) == Some(
            RecordView {
                ph: None,
                sf: Some(decimal(leaf as nat)),
                weight: if values.len() > 0 {
                    Some(values[0] as int)
                } else {
                    None
                },
            },
        ),
{
    lemma_names();
    let e = sample_entries(ts, name, leaf, values);
    let first = seq![
        ("tid"@, JsonView::Number(0)),
        ("ts"@, JsonView::Number(ts as int)),
        ("name"@, JsonView::Text(name)),
        ("sf"@, JsonView::Text(decimal(leaf as nat))),
    ];
    reveal_with_fuel(entry, 6);
    let f = record(JsonView::Object(e), seq!["sf"@, "weight"@], true)->0;
    let f3 = first.drop_last();
    let f2 = f3.drop_last();
    let f1 = f2.drop_last();
    assert(f1.drop_last() =~= Seq::empty());
    assert(entry(first, "sf"@) == Some(first[3].1));
    assert(entry(first, "weight"@) is None);
    if values.len() > 0 {
        assert(e.drop_last() =~= first);
    } else {
        assert(e =~= first);
    }
    assert(f[0] == entry(e, "sf"@));
    assert(f[1] == entry(e, "weight"@));
}

/// The trace that a written one is read as.
spec fn written_trace(frames: Seq<FrameView>, tracing: Tracing) -> TraceView {
    let order = text_order(tracing.trie.len());
    TraceView {
        ids: Seq::new(order.len(), |i: int| decimal(order[i])),
        nodes: Seq::new(order.len(), |i: int| written_node(frames, tracing.trie[order[i] as int])),
        samples: Seq::new(tracing.samples.len(), |i: int| sample_of(tracing.samples[i])->0),
        events: Seq::empty(),
    }
}

proof fn lemma_trace_reads_back(frames: Seq<FrameView>, tracing: Tracing)
    requires
        forall|i: int|
            0 <= i < tracing.samples.len() ==> sample_of(#[trigger] tracing.samples[i]) is Some,
    ensures
        trace_of(trace_json(frames, tracing)) == Ok::<TraceView, ErrorView>(
            written_trace(frames, tracing),
        ),
{
    lemma_names();
    let e = trace_json(frames, tracing)->Object_0;
    reveal_with_fuel(entry, 5);
    let e3 = e.drop_last();
    let e2 = e3.drop_last();
    let e1 = e2.drop_last();
    assert(entry(e, "stackFrames"@) == Some(e[1].1));
    assert(entry(e, "samples"@) == Some(e[2].1));
    assert(entry(e, "traceEvents"@) == Some(e[0].1));
    let tree = tree_entries(frames, tracing.trie);
    let order = text_order(tracing.trie.len());
    assert forall|i: int| 0 <= i < tree.len() implies node_of((#[trigger] tree[i]).1) == Some(
        written_node(frames, tracing.trie[order[i] as int]),
    ) by {
        lemma_node_reads_back(frames, tracing.trie[order[i] as int]);
    }
    let want = written_trace(frames, tracing);
    let (got_ids, got_nodes) = nodes_of(Some(e[1].1))->0;
    assert(got_ids =~= want.ids);
    assert(got_nodes =~= want.nodes);
    assert(samples_of(Some(e[2].1))->0 =~= want.samples);
    assert(events_of(Some(e[0].1))->0 =~= want.events);
}

/// A node of the trie is found under its id.
proof fn lemma_node_found(frames: Seq<FrameView>, tracing: Tracing, k: nat)
    requires
        k < tracing.trie.len(),
    ensures
        written_trace(frames, tracing).node(decimal(k)) == Some(
            written_node(frames, tracing.trie[k as int]),
        ),
{
    let order = text_order(tracing.trie.len());
    let trace = written_trace(frames, tracing);
    law_text_order(tracing.trie.len());
    assert(order.contains(k));
    let i = order.index_of(k);
    assert(trace.ids[i] == decimal(k));
    assert(trace.ids.contains(decimal(k)));
    let at = place(trace.ids, decimal(k));
    assert(trace.ids[at] == decimal(k));
    lemma_decimal_tells_apart(order[at], k);
}

/// Walking up from a node that spells a stack gives the names of the stack,
/// leaf first.
proof fn lemma_walk(
    frames: Seq<FrameView>,
    tracing: Tracing,
    leaf: Seq<char>,
    node: int,
    stack: Seq<FrameId>,
    steps: nat,
)
    requires
        spells(tracing.trie, node, stack),
        steps + stack.len() <= chain_limit(text_order(tracing.trie.len()).len()) + 1,
    ensures
        walk(written_trace(frames, tracing), leaf, decimal(node as nat), steps) == Ok::<
            Seq<NodeKeyView>,
            ErrorView,
        >(stack_names(frames, stack).reverse()),
    decreases stack.len(),
{
    lemma_node_found(frames, tracing, node as nat);
    let names = stack_names(frames, stack);
    let last = names.last();
    match tracing.trie[node].parent {
        None => {
            assert(seq![last] =~= names.reverse());
        },
        Some(parent) => {
            let front = stack.drop_last();
            lemma_walk(frames, tracing, leaf, parent as int, front, steps + 1);
            assert(stack_names(frames, front) =~= names.drop_last());
            assert(seq![last] + names.drop_last().reverse() =~= names.reverse());
        },
    }
}

proof fn lemma_order_length(count: nat)
    ensures
        text_order(count).len() == count,
{
    law_text_order(count);
    let order = text_order(count);
    order.unique_seq_to_set();
    let all = Seq::new(count, |i: int| i as nat);
    assert(all.no_duplicates());
    all.unique_seq_to_set();
    assert(order.to_set() =~= all.to_set()) by {
        assert forall|k: nat| order.to_set().contains(k) <==> all.to_set().contains(k) by {
            if order.to_set().contains(k) {
                assert(order.contains(k));
                assert(all[k as int] == k);
            }
            if all.to_set().contains(k) {
                assert(all.contains(k));
                let i = all.index_of(k);
                assert(k < count);
                assert(order.contains(k));
            }
        }
    }
}

/// What a list of sampling records says: the leaf of each that spells a stack.
spec fn spelled(
    trie: Seq<TrieNode>,
    records: Seq<(Seq<char>, i64)>,
    stacks: Seq<Seq<FrameId>>,
    weights: Seq<i64>,
) -> bool {
    &&& records.len() == stacks.len() == weights.len()
    &&& forall|i: int|
        0 <= i < records.len() ==> (#[trigger] records[i]).1 == weights[i] && spelled_by(
            trie,
            records[i].0,
            stacks[i],
        )
}

/// Whether an id is of a node that spells a stack.
spec fn spelled_by(trie: Seq<TrieNode>, id: Seq<char>, stack: Seq<FrameId>) -> bool {
    exists|node: nat| id == decimal(node) && #[trigger] spells(trie, node as int, stack)
}

/// The stacks of the first `n` samples that are not empty.
spec fn stacks_of(p: ProfileView, n: nat) -> Seq<Seq<FrameId>>
    decreases n,
{
    if n == 0 {
        Seq::empty()
    } else if p.samples[n - 1].stack.len() == 0 {
        stacks_of(p, (n - 1) as nat)
    } else {
        stacks_of(p, (n - 1) as nat).push(p.samples[n - 1].stack)
    }
}

/// The weights of the first `n` samples whose stacks are not empty.
spec fn weights_of(p: ProfileView, n: nat) -> Seq<i64>
    decreases n,
{
    if n == 0 {
        Seq::empty()
    } else if p.samples[n - 1].stack.len() == 0 {
        weights_of(p, (n - 1) as nat)
    } else {
        weights_of(p, (n - 1) as nat).push(
            if p.samples[n - 1].values.len() > 0 {
                p.samples[n - 1].values[0]
            } else {
                1
            },
        )
    }
}

proof fn lemma_spelled_grows(
    small: Seq<TrieNode>,
    trie: Seq<TrieNode>,
    records: Seq<(Seq<char>, i64)>,
    stacks: Seq<Seq<FrameId>>,
    weights: Seq<i64>,
)
    requires
        small.is_prefix_of(trie),
        spelled(small, records, stacks, weights),
    ensures
        spelled(trie, records, stacks, weights),
{
    assert forall|i: int| 0 <= i < records.len() implies (#[trigger] records[i]).1 == weights[i]
        && spelled_by(trie, records[i].0, stacks[i]) by {
        assert(spelled_by(small, records[i].0, stacks[i]));
        let node = choose|node: nat|
            records[i].0 == decimal(node) && #[trigger] spells(small, node as int, stacks[i]);
        lemma_spells_grows(small, trie, node as int, stacks[i]);
    }
}

/// The records that are read back from what was written for the first `n`
/// samples.
spec fn back_records(samples: Seq<JsonView>) -> Seq<(Seq<char>, i64)> {
    sample_records(Seq::new(samples.len(), |i: int| sample_of(samples[i])->0))
}

proof fn lemma_samples_written(p: ProfileView, n: nat)
    requires
        n <= p.samples.len(),
        trace_samples(p, n) is Ok,
        trace_samples(p, n)->Ok_0.trie.len() <= u32::MAX,
    ensures
        trace_samples(p, n)->Ok_0.trie.no_duplicates(),
        ordered(trace_samples(p, n)->Ok_0.trie),
        forall|i: int|
            0 <= i < trace_samples(p, n)->Ok_0.samples.len() ==> sample_of(
                #[trigger] trace_samples(p, n)->Ok_0.samples[i],
            ) is Some,
        spelled(
            trace_samples(p, n)->Ok_0.trie,
            back_records(trace_samples(p, n)->Ok_0.samples),
            stacks_of(p, n),
            weights_of(p, n),
        ),
    decreases n,
{
    let after = trace_samples(p, n)->Ok_0;
    if n == 0 {
        assert(back_records(after.samples) =~= Seq::empty());
    } else {
        let k = (n - 1) as nat;
        let before = trace_samples(p, k)->Ok_0;
        let sample = p.samples[k as int];
        let (trie, leaf) = path(before.trie, sample.stack, p.frames.len())->Ok_0;
        assert(after.trie == trie);
        lemma_path_grows(before.trie, sample.stack, p.frames.len());
        lemma_samples_written(p, k);
        lemma_path(before.trie, sample.stack, p.frames.len());
        lemma_spelled_grows(
            before.trie,
            trie,
            back_records(before.samples),
            stacks_of(p, k),
            weights_of(p, k),
        );
        if let Some(id) = leaf {
            let name = display_name(p.frames[sample.stack.last().0 as int]);
            lemma_sample_reads_back(before.ts, name, id, sample.values);
            let list = Seq::new(after.samples.len(), |i: int| sample_of(after.samples[i])->0);
            let old_list = Seq::new(before.samples.len(), |i: int| sample_of(before.samples[i])->0);
            assert(list.drop_last() =~= old_list);
            let records = back_records(after.samples);
            assert(records == back_records(before.samples).push(leaf_and_weight(list.last())));
            assert forall|i: int| 0 <= i < after.samples.len() implies sample_of(
                #[trigger] after.samples[i],
            ) is Some by {
                if i < before.samples.len() {
                    assert(after.samples[i] == before.samples[i]);
                    assert(sample_of(before.samples[i]) is Some);
                }
            }
            let stacks = stacks_of(p, n);
            let weights = weights_of(p, n);
            assert forall|i: int| 0 <= i < records.len() implies (#[trigger] records[i]).1
                == weights[i] && spelled_by(trie, records[i].0, stacks[i]) by {
                if i < records.len() - 1 {
                    assert(records[i] == back_records(before.samples)[i]);
                    assert(stacks[i] == stacks_of(p, k)[i]);
                    assert(weights[i] == weights_of(p, k)[i]);
                    assert(spelled_by(trie, back_records(before.samples)[i].0, stacks_of(p, k)[i]));
                } else {
                    assert(spells(trie, id as nat as int, sample.stack));
                }
            }
        }
    }
}

proof fn lemma_path_grows(trie: Seq<TrieNode>, stack: Seq<FrameId>, frames: nat)
    requires
        path(trie, stack, frames) is Ok,
    ensures
        trie.len() <= path(trie, stack, frames)->Ok_0.0.len(),
    decreases stack.len(),
{
    if stack.len() > 0 {
        lemma_path_grows(trie, stack.drop_last(), frames);
    }
}

/// The names of a sample of a profile that was read from a trace: the label
/// and the module of each frame, root first.
pub open spec fn read_names(p: ProfileView, index: int) -> Seq<NodeKeyView> {
    let stack = p.samples[index].stack;
    Seq::new(
        stack.len(),
        |i: int| (p.frames[stack[i].0 as int].raw, p.frames[stack[i].0 as int].module),
    )
}

/// What is told by a profile that was read from a trace.
pub open spec fn read_told(p: ProfileView) -> Seq<(Seq<NodeKeyView>, i64)> {
    Seq::new(p.samples.len(), |i: int| (read_names(p, i), p.samples[i].values[0]))
}

/// The names of a stack of ids into a table.
spec fn table_names(table: Seq<NodeKeyView>, stack: Seq<FrameId>) -> Seq<NodeKeyView> {
    Seq::new(stack.len(), |i: int| table[stack[i].0 as int])
}

/// Whether every entry of a table is the key of a node of the trie.
spec fn keyed(table: Seq<NodeKeyView>, frames: Seq<FrameView>, trie: Seq<TrieNode>) -> bool {
    forall|i: int|
        0 <= i < table.len() ==> trie_keys(frames, trie).contains(#[trigger] table[i])
}

/// The key of each node of the trie.
spec fn trie_keys(frames: Seq<FrameView>, trie: Seq<TrieNode>) -> Seq<NodeKeyView> {
    Seq::new(
        trie.len(),
        |i: int|
            (
                display_name(frames[trie[i].frame as int]),
                frames[trie[i].frame as int].module,
            ),
    )
}

proof fn lemma_keyed_is_short(table: Seq<NodeKeyView>, frames: Seq<FrameView>, trie: Seq<TrieNode>)
    requires
        table.no_duplicates(),
        keyed(table, frames, trie),
    ensures
        table.len() <= trie.len(),
{
    let keys = trie_keys(frames, trie);
    table.unique_seq_to_set();
    keys.lemma_cardinality_of_set();
    assert(table.to_set().subset_of(keys.to_set())) by {
        assert forall|k: NodeKeyView| table.to_set().contains(k) implies keys.to_set().contains(
            k,
        ) by {
            let i = table.index_of(k);
            assert(keys.contains(table[i]));
        }
    }
    vstd::set_lib::lemma_len_subset(table.to_set(), keys.to_set());
}

proof fn lemma_spelled_names(
    frames: Seq<FrameView>,
    trie: Seq<TrieNode>,
    node: int,
    stack: Seq<FrameId>,
)
    requires
        spells(trie, node, stack),
    ensures
        forall|i: int|
            0 <= i < stack.len() ==> trie_keys(frames, trie).contains(
                #[trigger] stack_names(frames, stack)[i],
            ),
    decreases stack.len(),
{
    let names = stack_names(frames, stack);
    let keys = trie_keys(frames, trie);
    assert forall|i: int| 0 <= i < stack.len() implies keys.contains(#[trigger] names[i]) by {
        if i == stack.len() - 1 {
            assert(keys[node] == names[i]);
        } else {
            let front = stack.drop_last();
            let parent = trie[node].parent->0;
            lemma_spelled_names(frames, trie, parent as int, front);
            assert(stack_names(frames, front)[i] == names[i]);
        }
    }
}

/// Resolving the records that were written gives the names and weights that
/// were told.
proof fn lemma_resolve_back(
    p: ProfileView,
    tracing: Tracing,
    records: Seq<(Seq<char>, i64)>,
    stacks: Seq<Seq<FrameId>>,
    weights: Seq<i64>,
)
    requires
        tracing.trie.len() <= u32::MAX,
        spelled(tracing.trie, records, stacks, weights),
    ensures
        resolve_records(written_trace(p.frames, tracing), records) matches Ok(resolved)
            && resolved.samples.len() == records.len() && resolved.table.no_duplicates() && keyed(
            resolved.table,
            p.frames,
            tracing.trie,
        ) && forall|i: int|
            0 <= i < records.len() ==> (#[trigger] resolved.samples[i]).values == seq![weights[i]]
                && table_names(resolved.table, resolved.samples[i].stack) == stack_names(
                p.frames,
                stacks[i],
            ) && in_table(resolved.table, resolved.samples[i].stack),
    decreases records.len(),
{
    let trace = written_trace(p.frames, tracing);
    if records.len() > 0 {
        let front = records.drop_last();
        let k: int = records.len() - 1;
        assert forall|i: int| 0 <= i < front.len() implies (#[trigger] front[i]).1
            == weights.drop_last()[i] && spelled_by(
            tracing.trie,
            front[i].0,
            stacks.drop_last()[i],
        ) by {
            assert(front[i] == records[i]);
        }
        lemma_resolve_back(p, tracing, front, stacks.drop_last(), weights.drop_last());
        let before = resolve_records(trace, front)->Ok_0;
        let stack = stacks[k];
        assert(records[k].1 == weights[k] && spelled_by(tracing.trie, records[k].0, stack));
        let node = choose|node: nat|
            records[k].0 == decimal(node) && #[trigger] spells(tracing.trie, node as int, stack);
        lemma_order_length(tracing.trie.len());
        lemma_spells_is_short(tracing.trie, node as int, stack);
        lemma_walk(p.frames, tracing, records[k].0, node as int, stack, 0);
        lemma_spelled_names(p.frames, tracing.trie, node as int, stack);
        let names = stack_names(p.frames, stack);
        let chain = names.reverse();
        let after = resolve_records(trace, records)->Ok_0;
        law_grown_all_keeps_places(before.table, chain);
        lemma_keyed_grows(before.table, chain, p.frames, tracing.trie);
        lemma_keyed_is_short(after.table, p.frames, tracing.trie);
        assert forall|i: int| 0 <= i < records.len() implies (
        #[trigger] after.samples[i]).values == seq![weights[i]] && table_names(
            after.table,
            after.samples[i].stack,
        ) == stack_names(p.frames, stacks[i]) && in_table(
            after.table,
            after.samples[i].stack,
        ) by {
            let s = after.samples[i].stack;
            if i < k {
                assert(after.samples[i] == before.samples[i]);
                assert(stacks.drop_last()[i] == stacks[i]);
                assert(in_table(before.table, s));
                assert forall|j: int| 0 <= j < s.len() implies after.table[(#[trigger] s[j]).0 as int]
                    == before.table[s[j].0 as int] by {
                    assert(after.table.take(before.table.len() as int)[s[j].0 as int]
                        == before.table[s[j].0 as int]);
                }
                assert(table_names(after.table, s) =~= table_names(before.table, s));
            } else {
                let list = ids(after.table, chain);
                assert(s == list.reverse());
                assert forall|j: int| 0 <= j < s.len() implies (#[trigger] s[j]).0
                    < after.table.len() && after.table[s[j].0 as int] == names[j] by {
                    let c: int = s.len() - 1 - j;
                    assert(s[j] == list[c]);
                    assert(chain[c] == names[j]);
                    assert(after.table.contains(chain[c]));
                    let at = place(after.table, chain[c]);
                    assert(0 <= at < after.table.len() && after.table[at] == chain[c]);
                }
                assert(table_names(after.table, s) =~= names);
            }
        }
    }
}

/// Whether every id of a stack points into a table.
spec fn in_table(table: Seq<NodeKeyView>, stack: Seq<FrameId>) -> bool {
    forall|j: int| 0 <= j < stack.len() ==> (#[trigger] stack[j]).0 < table.len()
}

proof fn lemma_keyed_grows(
    table: Seq<NodeKeyView>,
    chain: Seq<NodeKeyView>,
    frames: Seq<FrameView>,
    trie: Seq<TrieNode>,
)
    requires
        keyed(table, frames, trie),
        forall|i: int|
            0 <= i < chain.len() ==> trie_keys(frames, trie).contains(#[trigger] chain[i]),
    ensures
        keyed(grown_all(table, chain), frames, trie),
    decreases chain.len(),
{
    if chain.len() > 0 {
        let front = chain.drop_last();
        assert forall|i: int| 0 <= i < front.len() implies trie_keys(frames, trie).contains(
            #[trigger] front[i],
        ) by {
            assert(front[i] == chain[i]);
        }
        lemma_keyed_grows(table, front, frames, trie);
        let before = grown_all(table, front);
        let after = grown_all(table, chain);
        assert(trie_keys(frames, trie).contains(chain[chain.len() - 1]));
        assert forall|i: int| 0 <= i < after.len() implies trie_keys(frames, trie).contains(
            #[trigger] after[i],
        ) by {
            if i < before.len() {
                assert(after[i] == before[i]);
            }
        }
    }
}

proof fn lemma_told(p: ProfileView, n: nat)
    ensures
        told(p, n).len() == stacks_of(p, n).len(),
        told(p, n).len() == weights_of(p, n).len(),
        forall|i: int|
            0 <= i < told(p, n).len() ==> #[trigger] told(p, n)[i] == (
                stack_names(p.frames, stacks_of(p, n)[i]),
                weights_of(p, n)[i],
            ),
    decreases n,
{
    if n > 0 {
        lemma_told(p, (n - 1) as nat);
    }
}

/// Stacks, weights and categories survive a round trip: the trace that a
/// profile is written as is read back with one sample for each that has a
/// stack, in their order, with the same names and categories from the root to
/// the leaf and the first value as its weight. The tree has at most `u32::MAX`
/// nodes.
pub proof fn law_chrome_round_trips(p: ProfileView)
    requires
        trace_samples(p, p.samples.len()) is Ok,
        trace_samples(p, p.samples.len())->Ok_0.trie.len() <= u32::MAX,
    ensures
        value_meaning(trace_json(p.frames, trace_samples(p, p.samples.len())->Ok_0)) matches Ok(q)
            && read_told(q) == told(p, p.samples.len()),
{
    let n = p.samples.len();
    let tracing = trace_samples(p, n)->Ok_0;
    lemma_samples_written(p, n);
    lemma_trace_reads_back(p.frames, tracing);
    let trace = written_trace(p.frames, tracing);
    let records = back_records(tracing.samples);
    assert(event_records(trace.events) =~= Seq::empty());
    assert(trace.records() =~= records);
    lemma_resolve_back(p, tracing, records, stacks_of(p, n), weights_of(p, n));
    lemma_told(p, n);
    let resolved = resolve_records(trace, records)->Ok_0;
    let q = trace_profile(trace)->Ok_0;
    assert forall|i: int| 0 <= i < q.samples.len() implies read_told(q)[i] == told(p, n)[i] by {
        let s = resolved.samples[i].stack;
        assert(q.samples[i] == resolved.samples[i]);
        assert(read_names(q, i) =~= table_names(resolved.table, s)) by {
            assert forall|j: int| 0 <= j < s.len() implies read_names(q, i)[j] == table_names(
                resolved.table,
                s,
            )[j] by {
                assert(s[j].0 < resolved.table.len());
                assert(q.frames[s[j].0 as int] == node_frame(resolved.table[s[j].0 as int]));
            }
        }
    }
    assert(read_told(q) =~= told(p, n));
}

} // verus!

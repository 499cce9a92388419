//! What holds of the Chrome trace reader, told of the trace and the profile that
//! comes of it.

use vstd::prelude::*;

use crate::chrometrace::{
    chain_limit, chrome_meaning, cycle_message, event_records, resolve_records, sample_records,
    trace_of, trace_profile, unknown_message, walk, NodeKeyView, RecordView, TraceView,
};
use crate::chrometrace_laws::{ancestor, endless, law_cycles_are_told, met};
use crate::error::ErrorView;
use crate::intern::{
    grown_all, ids, law_grown_all_keeps_places, lemma_grown_all_concat, lemma_place, place,
};
use crate::json::json_parse;
use crate::model::{ProfileView, SampleView, ValueKindView};

verus! {

/// Whether an entry of the sample array has a stack.
pub open spec fn has_stack() -> spec_fn(RecordView) -> bool {
    |record: RecordView| record.sf is Some
}

/// Whether an event is a sample event with a stack.
pub open spec fn is_sample_event() -> spec_fn(RecordView) -> bool {
    |record: RecordView| record.ph == Some("P"@) && record.sf is Some
}

/// The leaf of a record, and its weight or one.
pub open spec fn leaf_with_weight() -> spec_fn(RecordView) -> (Seq<char>, i64) {
    |record: RecordView|
        (
            record.sf->0,
            if record.weight is Some {
                record.weight->0 as i64
            } else {
                1
            },
        )
}

proof fn lemma_sample_records(samples: Seq<RecordView>)
    ensures
        sample_records(samples) == samples.filter(has_stack()).map_values(leaf_with_weight()),
    decreases samples.len(),
{
    reveal(Seq::filter);
    if samples.len() > 0 {
        let front = samples.drop_last();
        lemma_sample_records(front);
        let kept = front.filter(has_stack());
        assert(kept.push(samples.last()).map_values(leaf_with_weight()) =~= kept.map_values(
            leaf_with_weight(),
        ).push(leaf_with_weight()(samples.last())));
    } else {
        assert(samples.map_values(leaf_with_weight()) =~= Seq::empty());
    }
}

proof fn lemma_event_records(events: Seq<RecordView>)
    ensures
        event_records(events) == events.filter(is_sample_event()).map_values(leaf_with_weight()),
    decreases events.len(),
{
    reveal(Seq::filter);
    if events.len() > 0 {
        let front = events.drop_last();
        lemma_event_records(front);
        let kept = front.filter(is_sample_event());
        assert(kept.push(events.last()).map_values(leaf_with_weight()) =~= kept.map_values(
            leaf_with_weight(),
        ).push(leaf_with_weight()(events.last())));
    } else {
        assert(events.map_values(leaf_with_weight()) =~= Seq::empty());
    }
}

/// Every entry of the sample array that has a stack, and behind them every `"P"`
/// event that has one, is a record, whether it has a weight or not: in order,
/// each once, with its weight or one. Nothing else is.
pub proof fn law_records_are_samples_and_events(trace: TraceView)
    ensures
        trace.records() == trace.samples.filter(has_stack()).map_values(leaf_with_weight())
            + trace.events.filter(is_sample_event()).map_values(leaf_with_weight()),
        trace.records().len() == trace.samples.filter(has_stack()).len() + trace.events.filter(
            is_sample_event(),
        ).len(),
{
    lemma_sample_records(trace.samples);
    lemma_event_records(trace.events);
}

/// A node is found under its id, where no other node has it, and nothing is
/// found under an id that no node has.
pub proof fn law_nodes_are_found_by_their_ids(trace: TraceView, k: int, id: Seq<char>)
    requires
        trace.ids.no_duplicates(),
        trace.ids.len() == trace.nodes.len(),
        0 <= k < trace.ids.len(),
    ensures
        trace.node(trace.ids[k]) == Some(trace.nodes[k]),
        trace.node(id) is None <==> (forall|i: int|
            0 <= i < trace.ids.len() ==> #[trigger] trace.ids[i] != id),
{
    lemma_place(trace.ids, k);
    assert(trace.ids.contains(trace.ids[k]));
}

/// Whether the `n`th ancestor of a leaf is a node of the given name and
/// category.
pub open spec fn named(trace: TraceView, leaf: Seq<char>, n: nat, key: NodeKeyView) -> bool {
    &&& ancestor(trace, leaf, n) matches Some(id)
    &&& trace.node(id) matches Some(node)
    &&& key == (node.name, node.category)
}

/// Whether the `n`th ancestor of a leaf is a node without a parent.
pub open spec fn root(trace: TraceView, leaf: Seq<char>, n: nat) -> bool {
    &&& ancestor(trace, leaf, n) matches Some(id)
    &&& trace.node(id) matches Some(node)
    &&& node.parent is None
}

/// Whether the `n`th ancestor of a leaf is an id that no node has.
pub open spec fn missing(trace: TraceView, leaf: Seq<char>, n: nat, id: Seq<char>) -> bool {
    ancestor(trace, leaf, n) == Some(id) && trace.node(id) is None
}

proof fn lemma_walk_follows(trace: TraceView, leaf: Seq<char>, id: Seq<char>, steps: nat)
    requires
        ancestor(trace, leaf, steps) == Some(id),
    ensures
        match walk(trace, leaf, id, steps) {
            Ok(chain) => {
                &&& chain.len() > 0
                &&& forall|i: int|
                    0 <= i < chain.len() ==> named(
                        trace,
                        leaf,
                        (steps + i) as nat,
                        #[trigger] chain[i],
                    )
                &&& root(trace, leaf, (steps + chain.len() - 1) as nat)
            },
            Err(error) => {
                ||| error == ErrorView::Decode(
                    cycle_message(leaf, chain_limit(trace.nodes.len())),
                )
                ||| exists|n: nat, x: Seq<char>| #[trigger]
                    missing(trace, leaf, n, x) && error == ErrorView::Decode(unknown_message(x))
            },
        },
    decreases chain_limit(trace.nodes.len()) + 1 - steps,
{
    let limit = chain_limit(trace.nodes.len());
    if steps <= limit {
        match trace.node(id) {
            None => {
                assert(missing(trace, leaf, steps, id));
            },
            Some(node) => match node.parent {
                None => {
                    let chain = walk(trace, leaf, id, steps)->Ok_0;
                    assert(root(trace, leaf, steps));
                    assert(named(trace, leaf, (steps + 0) as nat, chain[0]));
                },
                Some(parent) => {
                    assert(ancestor(trace, leaf, steps + 1) == Some(parent));
                    lemma_walk_follows(trace, leaf, parent, steps + 1);
                    if let Ok(chain) = walk(trace, leaf, id, steps) {
                        let rest = walk(trace, leaf, parent, steps + 1)->Ok_0;
                        assert forall|i: int| 0 <= i < chain.len() implies named(
                            trace,
                            leaf,
                            (steps + i) as nat,
                            #[trigger] chain[i],
                        ) by {
                            if i > 0 {
                                assert(chain[i] == rest[i - 1]);
                                assert(named(
                                    trace,
                                    leaf,
                                    (steps + 1 + (i - 1)) as nat,
                                    rest[i - 1],
                                ));
                            }
                        }
                        assert(root(trace, leaf, (steps + 1 + rest.len() - 1) as nat));
                    }
                },
            },
        }
    }
}

proof fn lemma_ancestors_end(trace: TraceView, leaf: Seq<char>, n: nat, m: nat)
    requires
        ancestor(trace, leaf, n) is None,
        n <= m,
    ensures
        ancestor(trace, leaf, m) is None,
    decreases m - n,
{
    if n < m {
        lemma_ancestors_end(trace, leaf, n, (m - 1) as nat);
    }
}

/// A stack is read by following parents: it has the names and the categories of
/// the leaf, of its parent, of that one's parent and so on, up to a node without
/// a parent.
pub proof fn law_stacks_follow_parents(trace: TraceView, leaf: Seq<char>)
    ensures
        walk(trace, leaf, leaf, 0) matches Ok(chain) ==> {
            &&& chain.len() > 0
            &&& forall|i: int|
                0 <= i < chain.len() ==> named(trace, leaf, i as nat, #[trigger] chain[i])
            &&& root(trace, leaf, (chain.len() - 1) as nat)
        },
{
    lemma_walk_follows(trace, leaf, leaf, 0);
    if let Ok(chain) = walk(trace, leaf, leaf, 0) {
        assert forall|i: int| 0 <= i < chain.len() implies named(
            trace,
            leaf,
            i as nat,
            #[trigger] chain[i],
        ) by {
            assert(named(trace, leaf, (0 + i) as nat, chain[i]));
        }
    }
}

/// A leaf has a stack exactly where its ancestors end at a node without a
/// parent. Where they end at an id that no node has, the error names that id.
/// Every node has one id of its own.
pub proof fn law_only_rooted_stacks_are_read(trace: TraceView, leaf: Seq<char>)
    requires
        trace.ids.no_duplicates(),
        trace.ids.len() == trace.nodes.len(),
        trace.nodes.len() <= usize::MAX,
    ensures
        walk(trace, leaf, leaf, 0) is Ok <==> exists|n: nat| #[trigger] root(trace, leaf, n),
        forall|n: nat, id: Seq<char>| #[trigger]
            missing(trace, leaf, n, id) ==> walk(trace, leaf, leaf, 0) == Err::<
                Seq<NodeKeyView>,
                ErrorView,
            >(ErrorView::Decode(unknown_message(id))),
{
    lemma_walk_follows(trace, leaf, leaf, 0);
    law_cycles_are_told(trace, leaf);
    let told = walk(trace, leaf, leaf, 0);
    assert forall|n: nat| #[trigger] root(trace, leaf, n) implies told is Ok by {
        assert(ancestor(trace, leaf, n + 1) is None);
        assert(!met(trace, leaf, n + 1));
        assert(!endless(trace, leaf));
        if told is Err {
            let (k, x) = choose|k: nat, x: Seq<char>| #[trigger]
                missing(trace, leaf, k, x) && told->Err_0 == ErrorView::Decode(unknown_message(x));
            assert(ancestor(trace, leaf, k + 1) is None);
            if k < n {
                lemma_ancestors_end(trace, leaf, k + 1, n);
            } else if n < k {
                lemma_ancestors_end(trace, leaf, n + 1, k);
            }
        }
    }
    assert forall|n: nat, id: Seq<char>| #[trigger] missing(trace, leaf, n, id) implies told
        == Err::<Seq<NodeKeyView>, ErrorView>(ErrorView::Decode(unknown_message(id))) by {
        assert(!met(trace, leaf, n));
        assert(!endless(trace, leaf));
        assert(ancestor(trace, leaf, n + 1) is None);
        if let Ok(chain) = told {
            let k = (chain.len() - 1) as nat;
            assert(root(trace, leaf, k));
            assert(ancestor(trace, leaf, k + 1) is None);
            if k < n {
                lemma_ancestors_end(trace, leaf, k + 1, n);
            } else if n < k {
                lemma_ancestors_end(trace, leaf, n + 1, k);
            }
        } else {
            let (k, x) = choose|k: nat, x: Seq<char>| #[trigger]
                missing(trace, leaf, k, x) && told->Err_0 == ErrorView::Decode(unknown_message(x));
            assert(ancestor(trace, leaf, k + 1) is None);
            if k < n {
                lemma_ancestors_end(trace, leaf, k + 1, n);
            } else if n < k {
                lemma_ancestors_end(trace, leaf, n + 1, k);
            }
        }
    }
}

/// Whether a sample is that of a chain of nodes, leaf first, and a weight.
spec fn resolved_from(
    table: Seq<NodeKeyView>,
    sample: SampleView,
    chain: Seq<NodeKeyView>,
    weight: i64,
) -> bool {
    &&& sample.values == seq![weight]
    &&& sample.stack.len() == chain.len()
    &&& forall|j: int|
        0 <= j < chain.len() ==> {
            &&& (#[trigger] sample.stack[j]).0 < table.len()
            &&& table[sample.stack[j].0 as int] == chain[chain.len() - 1 - j]
        }
}

proof fn lemma_resolved_grows(
    table: Seq<NodeKeyView>,
    larger: Seq<NodeKeyView>,
    sample: SampleView,
    chain: Seq<NodeKeyView>,
    weight: i64,
)
    requires
        resolved_from(table, sample, chain, weight),
        table.is_prefix_of(larger),
    ensures
        resolved_from(larger, sample, chain, weight),
{
    assert forall|j: int| 0 <= j < chain.len() implies {
        &&& (#[trigger] sample.stack[j]).0 < larger.len()
        &&& larger[sample.stack[j].0 as int] == chain[chain.len() - 1 - j]
    } by {
        let k = sample.stack[j].0 as int;
        assert(larger.take(table.len() as int)[k] == table[k]);
    }
}

proof fn lemma_resolve_records(trace: TraceView, records: Seq<(Seq<char>, i64)>)
    ensures
        resolve_records(trace, records) is Ok <==> (forall|i: int|
            0 <= i < records.len() ==> walk(
                trace,
                (#[trigger] records[i]).0,
                records[i].0,
                0,
            ) is Ok),
        resolve_records(trace, records) matches Ok(resolved) ==> {
            &&& resolved.table.no_duplicates()
            &&& resolved.samples.len() == records.len()
            &&& resolved.table.len() <= u32::MAX ==> forall|i: int|
                0 <= i < records.len() ==> resolved_from(
                    resolved.table,
                    #[trigger] resolved.samples[i],
                    walk(trace, records[i].0, records[i].0, 0)->Ok_0,
                    records[i].1,
                )
        },
    decreases records.len(),
{
    if records.len() > 0 {
        let front = records.drop_last();
        lemma_resolve_records(trace, front);
        let earlier = resolve_records(trace, front);
        let all = resolve_records(trace, records);
        let last = records.last();
        if all is Ok {
            let before = earlier->Ok_0;
            let after = all->Ok_0;
            let chain = walk(trace, last.0, last.0, 0)->Ok_0;
            law_grown_all_keeps_places(before.table, chain);
            assert forall|i: int| 0 <= i < records.len() implies walk(
                trace,
                (#[trigger] records[i]).0,
                records[i].0,
                0,
            ) is Ok by {
                if i < front.len() {
                    assert(front[i] == records[i]);
                }
            }
            if after.table.len() <= u32::MAX {
                assert(before.table.len() <= after.table.len());
                assert forall|i: int| 0 <= i < records.len() implies resolved_from(
                    after.table,
                    #[trigger] after.samples[i],
                    walk(trace, records[i].0, records[i].0, 0)->Ok_0,
                    records[i].1,
                ) by {
                    if i < front.len() {
                        assert(front[i] == records[i]);
                        assert(after.samples[i] == before.samples[i]);
                        lemma_resolved_grows(
                            before.table,
                            after.table,
                            before.samples[i],
                            walk(trace, records[i].0, records[i].0, 0)->Ok_0,
                            records[i].1,
                        );
                    } else {
                        let list = ids(after.table, chain);
                        let stack = after.samples[i].stack;
                        assert forall|j: int| 0 <= j < chain.len() implies {
                            &&& (#[trigger] stack[j]).0 < after.table.len()
                            &&& after.table[stack[j].0 as int] == chain[chain.len() - 1 - j]
                        } by {
                            let k = chain.len() - 1 - j;
                            assert(stack[j] == list[k]);
                            assert(after.table.contains(chain[k]));
                            let p = place(after.table, chain[k]);
                            assert(0 <= p < after.table.len() && after.table[p] == chain[k]);
                        }
                    }
                }
            }
        } else if earlier is Ok {
            assert(walk(trace, records[records.len() - 1].0, records[records.len() - 1].0, 0) is Err);
        } else {
            let i = choose|i: int|
                0 <= i < front.len() && walk(trace, (#[trigger] front[i]).0, front[i].0, 0) is Err;
            assert(records[i] == front[i]);
        }
    }
}

/// The profile that a trace says counts samples, and has one for each record, in
/// their order, with the weight of the record. Its stack, from the root to the
/// leaf, is the chain of the record's leaf backwards: each frame is labelled and,
/// where the name is not empty, named as its node, is of the module that is the
/// node's category, and has nothing else.
pub proof fn law_traces_are_read_as_they_stand(trace: TraceView)
    requires
        trace_profile(trace) is Ok,
        trace_profile(trace)->Ok_0.frames.len() <= u32::MAX,
    ensures
        ({
            let q = trace_profile(trace)->Ok_0;
            &&& q.value_kinds == seq![ValueKindView { kind: "samples"@, unit: "count"@ }]
            &&& q.samples.len() == trace.records().len()
            &&& forall|i: int|
                0 <= i < q.samples.len() ==> {
                    let (leaf, weight) = trace.records()[i];
                    &&& (#[trigger] q.samples[i]).values == seq![weight]
                    &&& walk(trace, leaf, leaf, 0) matches Ok(chain)
                        && q.samples[i].stack.len() == chain.len()
                }
            &&& forall|i: int, j: int|
                0 <= i < q.samples.len() && 0 <= j < q.samples[i].stack.len() ==> {
                    let leaf = trace.records()[i].0;
                    let chain = walk(trace, leaf, leaf, 0)->Ok_0;
                    let (name, category) = chain[chain.len() - 1 - j];
                    let frame = q.frames[(#[trigger] q.samples[i].stack[j]).0 as int];
                    &&& frame.raw == name
                    &&& frame.function == (if name.len() > 0 {
                        Some(name)
                    } else {
                        None
                    })
                    &&& frame.module == category
                    &&& frame.file is None
                    &&& frame.line is None
                    &&& frame.address is None
                }
        }),
{
    let records = trace.records();
    lemma_resolve_records(trace, records);
    let resolved = resolve_records(trace, records)->Ok_0;
    let q = trace_profile(trace)->Ok_0;
    assert forall|i: int| 0 <= i < q.samples.len() implies {
        let (leaf, weight) = records[i];
        &&& (#[trigger] q.samples[i]).values == seq![weight]
        &&& walk(trace, leaf, leaf, 0) matches Ok(chain) && q.samples[i].stack.len() == chain.len()
    } by {
        assert(resolved_from(
            resolved.table,
            resolved.samples[i],
            walk(trace, records[i].0, records[i].0, 0)->Ok_0,
            records[i].1,
        ));
    }
    assert forall|i: int, j: int|
        0 <= i < q.samples.len() && 0 <= j < q.samples[i].stack.len() implies ({
        let leaf = records[i].0;
        let chain = walk(trace, leaf, leaf, 0)->Ok_0;
        let (name, category) = chain[chain.len() - 1 - j];
        let frame = q.frames[(#[trigger] q.samples[i].stack[j]).0 as int];
        &&& frame.raw == name
        &&& frame.function == (if name.len() > 0 {
            Some(name)
        } else {
            None
        })
        &&& frame.module == category
        &&& frame.file is None
        &&& frame.line is None
        &&& frame.address is None
    }) by {
        assert(resolved_from(
            resolved.table,
            resolved.samples[i],
            walk(trace, records[i].0, records[i].0, 0)->Ok_0,
            records[i].1,
        ));
        assert(resolved.samples[i].stack[j] == q.samples[i].stack[j]);
    }
}

/// A trace is read where the leaf of every record has a stack, and refused
/// everywhere else.
pub proof fn law_traces_are_refused_for_their_stacks(trace: TraceView)
    ensures
        trace_profile(trace) is Ok <==> (forall|i: int|
            0 <= i < trace.records().len() ==> walk(
                trace,
                (#[trigger] trace.records()[i]).0,
                trace.records()[i].0,
                0,
            ) is Ok),
{
    lemma_resolve_records(trace, trace.records());
}

/// The nodes of all records, one record after the other, each from its leaf to
/// its root.
pub open spec fn all_nodes(trace: TraceView, records: Seq<(Seq<char>, i64)>) -> Seq<NodeKeyView> {
    Seq::new(records.len(), |i: int| walk(trace, records[i].0, records[i].0, 0)->Ok_0).flatten()
}

proof fn lemma_nodes_in_order(trace: TraceView, records: Seq<(Seq<char>, i64)>)
    ensures
        resolve_records(trace, records) matches Ok(resolved) ==> resolved.table == grown_all(
            Seq::empty(),
            all_nodes(trace, records),
        ),
    decreases records.len(),
{
    let lists = Seq::new(
        records.len(),
        |i: int| walk(trace, records[i].0, records[i].0, 0)->Ok_0,
    );
    lists.lemma_flatten_and_flatten_alt_are_equivalent();
    if records.len() > 0 {
        let front = records.drop_last();
        lemma_nodes_in_order(trace, front);
        let before = Seq::new(
            front.len(),
            |i: int| walk(trace, front[i].0, front[i].0, 0)->Ok_0,
        );
        assert(lists.drop_last() =~= before);
        before.lemma_flatten_and_flatten_alt_are_equivalent();
        let own = walk(trace, records.last().0, records.last().0, 0)->Ok_0;
        assert(all_nodes(trace, records) == all_nodes(trace, front) + own);
        lemma_grown_all_concat(Seq::<NodeKeyView>::empty(), all_nodes(trace, front), own);
    } else {
        assert(lists.flatten_alt() =~= Seq::empty());
    }
}

/// The frames of a trace are those of the nodes that its records meet, each name
/// and category once, in the order in which they are first met from leaf to root.
pub proof fn law_frames_come_in_the_order_of_their_nodes(trace: TraceView)
    ensures
        trace_profile(trace) matches Ok(q) ==> {
            let table = grown_all(Seq::empty(), all_nodes(trace, trace.records()));
            &&& q.frames.len() == table.len()
            &&& forall|k: int|
                0 <= k < table.len() ==> (#[trigger] q.frames[k]).raw == table[k].0
                    && q.frames[k].module == table[k].1
        },
{
    lemma_nodes_in_order(trace, trace.records());
}

/// A chain may have one node more than the tree before it is taken for a cycle.
pub proof fn law_chains_may_be_as_long_as_the_tree(count: nat)
    ensures
        count < usize::MAX ==> chain_limit(count) == count + 1,
        count >= usize::MAX ==> chain_limit(count) == usize::MAX,
{
}

/// Bytes that are no JSON are refused as such.
pub proof fn law_other_bytes_are_no_trace(input: Seq<u8>)
    ensures
        json_parse(input) is None ==> chrome_meaning(input) == Err::<ProfileView, ErrorView>(
            ErrorView::Json,
        ),
        json_parse(input) matches Some(value) ==> chrome_meaning(input) == (match trace_of(value) {
            Ok(trace) => trace_profile(trace),
            Err(error) => Err(error),
        }),
{
}

} // verus!

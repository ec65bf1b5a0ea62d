//! What holds of the trie as a whole: how its operations answer to each
//! other, stated over keys and over the trie as a mathematical value.

use vstd::prelude::*;
use crate::fold::{
    Run, VisitingAggregator, accepts_below, accepts_node, aggs_of, folds,
    lemma_closure_as_visitor, payload_of, runs_fit, visits,
};
use crate::segments::{
    DELIMITER, join, first_segment, is_segment, lemma_segments_from_last, lemma_segments_injective,
    lemma_single_segment, lemma_split_unsplit, lemma_visit_key, segments, segments_from_last,
    unsplit, visit_key,
};
use crate::view::{
    NodeView, lemma_child_values, lemma_delete_elsewhere, lemma_delete_lookup,
    lemma_delete_no_dead_weight, lemma_delete_wf, lemma_insert_elsewhere, lemma_insert_lookup,
    lemma_insert_makes_nodes, lemma_insert_no_dead_weight, lemma_insert_twice, lemma_insert_wf,
    lemma_valued_children_among_keys,
};

verus! {

/// A payload that is put under a key is found under that key, whatever the
/// trie held before; so it is in a trie that held nothing.
pub proof fn insert_then_lookup<V>(trie: NodeView<V>, key: Seq<char>, value: V)
    ensures
        trie.insert(segments(key), value).lookup(segments(key)) == Some(value),
        NodeView::<V>::empty().insert(segments(key), value).lookup(segments(key)) == Some(value),
{
    lemma_insert_lookup(trie, segments(key), value);
    lemma_insert_lookup(NodeView::<V>::empty(), segments(key), value);
}

/// When a key is used twice, the second `insert` hands back the payload of
/// the first, and afterwards the trie is as if the first had never been
/// put there: a lookup finds the second payload only.
pub proof fn insert_twice<V>(trie: NodeView<V>, key: Seq<char>, first: V, second: V)
    ensures
        trie.insert(segments(key), first).lookup(segments(key)) == Some(first),
        trie.insert(segments(key), first).insert(segments(key), second) == trie.insert(
            segments(key),
            second,
        ),
        trie.insert(segments(key), first).insert(segments(key), second).lookup(segments(key))
            == Some(second),
{
    lemma_insert_lookup(trie, segments(key), first);
    lemma_insert_twice(trie, segments(key), first, second);
    lemma_insert_lookup(trie, segments(key), second);
}

/// A payload that is put under one key changes what is found under no other
/// key.
pub proof fn insert_leaves_other_keys<V>(
    trie: NodeView<V>,
    key: Seq<char>,
    value: V,
    other: Seq<char>,
)
    requires
        other != key,
    ensures
        trie.insert(segments(key), value).lookup(segments(other)) == trie.lookup(segments(other)),
{
    if segments(other) == segments(key) {
        lemma_segments_injective(other, key);
    }
    lemma_insert_elsewhere(trie, segments(key), value, segments(other));
}

/// A key is made of its segments: none of them holds a delimiter, and with
/// one delimiter between each two of them they are the key again. So two keys
/// with the same segments are one key.
pub proof fn key_is_made_of_its_segments(key: Seq<char>)
    ensures
        forall|i: int|
            0 <= i < segments(key).len() ==> !(#[trigger] segments(key)[i]).contains(DELIMITER),
        unsplit(segments(key)) == key,
        forall|other: Seq<char>| #[trigger] segments(other) == segments(key) ==> other == key,
{
    lemma_split_unsplit(key);
    if key.len() == 0 {
        assert(unsplit(segments(key)) =~= key);
    }
    assert forall|other: Seq<char>| #[trigger] segments(other) == segments(key) implies other
        == key by {
        lemma_segments_injective(other, key);
    }
}

/// The fold visits a node under a key that names the segments on the way to
/// it from the node up to the root; its first segment is the segment of the
/// node itself. This holds where each of the segments can stand in a key on
/// its own.
pub proof fn visit_key_starts_with_own_segment(path: Seq<Seq<char>>)
    requires
        forall|i: int| 0 <= i < path.len() ==> is_segment(#[trigger] path[i]),
    ensures
        segments(visit_key(path)) == path.reverse(),
        path.len() > 0 ==> first_segment(visit_key(path)) == Some(path.last()),
{
    lemma_visit_key(path);
}

/// A trie carries no dead weight: below its root there is no node without
/// payload and without children. The trie that holds nothing has none, and
/// `insert` and `delete` leave none behind: `insert` adds nodes only on the
/// way to a payload, and `delete` removes every node that it leaves with
/// nothing. The root always stays.
pub proof fn no_dead_weight_stays<V>(trie: NodeView<V>, path: Seq<Seq<char>>, value: V)
    requires
        trie.no_dead_weight(),
    ensures
        NodeView::<V>::empty().no_dead_weight(),
        trie.insert(path, value).no_dead_weight(),
        trie.delete(path).no_dead_weight(),
{
    lemma_insert_no_dead_weight(trie, path, value);
    lemma_delete_no_dead_weight(trie, path);
}

/// `insert` and `delete` keep a trie well-formed: no segment leads to two
/// children of one node afterwards if none did before.
pub proof fn well_formed_stays<V>(trie: NodeView<V>, path: Seq<Seq<char>>, value: V)
    requires
        trie.wf(),
    ensures
        trie.insert(path, value).wf(),
        trie.delete(path).wf(),
{
    lemma_insert_wf(trie, path, value);
    lemma_delete_wf(trie, path);
}

/// A node that is there only because a payload was put further down has no
/// payload of its own: where `above` is a proper start of the path of `key`
/// and nothing was found under `above` before, there is a node under `above`
/// afterwards, and still nothing is found there.
pub proof fn node_on_the_way_has_no_payload<V>(
    trie: NodeView<V>,
    key: Seq<char>,
    value: V,
    above: Seq<Seq<char>>,
)
    requires
        above.len() < segments(key).len(),
        above == segments(key).take(above.len() as int),
        trie.lookup(above) is None,
    ensures
        trie.insert(segments(key), value).node_at(above) is Some,
        trie.insert(segments(key), value).lookup(above) is None,
{
    lemma_insert_makes_nodes(trie, segments(key), value, above.len() as int);
    lemma_insert_elsewhere(trie, segments(key), value, above);
}

/// Every segment that `children` names, `child_keys` names too; and
/// `child_keys` may name more, for it names the children without payload as
/// well. The payloads that `child_values` lists are those that `children`
/// lists, in the same order.
pub proof fn children_are_among_child_keys<V>(node: NodeView<V>)
    ensures
        forall|i: int|
            0 <= i < node.valued_children().len() ==> node.child_keys().contains(
                (#[trigger] node.valued_children()[i]).0,
            ),
        node.valued_children().len() <= node.child_keys().len(),
        node.child_values() == node.valued_children().map_values(|pair: (Seq<char>, V)| pair.1),
{
    lemma_valued_children_among_keys(node);
    lemma_child_values(node);
}

/// What `delete` takes off one path changes what is found under no other
/// path; the nodes that it removes hold nothing.
pub proof fn delete_leaves_other_paths<V>(
    trie: NodeView<V>,
    path: Seq<Seq<char>>,
    other: Seq<Seq<char>>,
)
    requires
        trie.wf(),
        other != path,
    ensures
        trie.delete(path).lookup(other) == trie.lookup(other),
{
    lemma_delete_elsewhere(trie, path, other);
}

/// The fold of a whole trie is the fold below its root and one visit more:
/// that of the root, with its payload, under the key of the root and with
/// the aggregates that the fold below the root gave.
pub proof fn whole_fold_is_fold_below_and_one_visit<V, Agg, F: VisitingAggregator<V, Agg>>(
    start: F,
    before: NodeView<V>,
    key: Seq<char>,
    end: F,
    after: NodeView<V>,
    agg: Agg,
)
    requires
        visits(start, before, key, end, after, agg),
    ensures
        after.value is Some <==> before.value is Some,
        exists|mid: F, memo: Seq<Agg>|
            {
                &&& #[trigger] folds(
                    start,
                    before,
                    key,
                    mid,
                    NodeView { value: before.value, children: after.children },
                    memo,
                )
                &&& mid.yields(before.value, key, memo, end, after.value, agg)
            },
{
    let run = choose|run: Run<Agg, F>|
        {
            &&& run.start() == start
            &&& #[trigger] run.fits(before, key, after)
            &&& run.end == end
            &&& run.agg == agg
        };
    let mid = run.states[run.below.len() as int];
    let memo = aggs_of(run.below);
    let below = NodeView { value: before.value, children: after.children };
    assert(runs_fit(run.states, run.below, before, key, below));
    assert(folds(start, before, key, mid, below, memo));
}

/// The fold of a trie that holds nothing is one visit: that of the root,
/// without payload, under the empty key and with no aggregate of a child.
/// The trie holds nothing afterwards either.
pub proof fn fold_of_empty_trie<V, Agg, F: VisitingAggregator<V, Agg>>(
    start: F,
    end: F,
    after: NodeView<V>,
    agg: Agg,
)
    requires
        visits(start, NodeView::<V>::empty(), Seq::empty(), end, after, agg),
    ensures
        start.yields(None, Seq::empty(), Seq::empty(), end, None, agg),
        after == NodeView::<V>::empty(),
{
    let run = choose|run: Run<Agg, F>|
        {
            &&& run.start() == start
            &&& #[trigger] run.fits(NodeView::<V>::empty(), Seq::empty(), after)
            &&& run.end == end
            &&& run.agg == agg
        };
    assert(aggs_of(run.below) =~= Seq::empty());
    assert(after.children =~= Seq::empty());
}

/// A visitor that accepts whatever it is handed can fold every trie, from
/// the root or from below it.
pub proof fn visitor_without_demands_is_accepted<V, Agg, F: VisitingAggregator<V, Agg>>(
    visitor: F,
    node: NodeView<V>,
    key: Seq<char>,
)
    requires
        forall|v: Option<V>, k: Seq<char>, m: Seq<Agg>| #[trigger] visitor.accepts(v, k, m),
    ensures
        accepts_node(visitor, node, key),
        accepts_below(visitor, node, key),
    decreases node,
{
    assert forall|i: int| 0 <= i < node.children.len() implies accepts_node(
        visitor,
        (#[trigger] node.children[i]).1,
        join(key, node.children[i].0),
    ) by {
        visitor_without_demands_is_accepted(
            visitor,
            node.children[i].1,
            join(key, node.children[i].0),
        );
    }
}

/// When a closure folds a trie that holds nothing, the result is one that the
/// closure can give when it is called without payload, with the empty key and
/// without aggregates; and the closure is as it was.
pub proof fn closure_fold_of_empty_trie<V, Agg, F: Fn(Option<&mut V>, String, Vec<Agg>) -> Agg>(
    start: F,
    end: F,
    after: NodeView<V>,
    agg: Agg,
)
    requires
        visits(start, NodeView::<V>::empty(), Seq::empty(), end, after, agg),
    ensures
        end == start,
        after == NodeView::<V>::empty(),
        exists|payload: Option<&mut V>, key: String, memo: Vec<Agg>|
            payload is None && key@ == Seq::<char>::empty() && memo@ == Seq::<Agg>::empty()
                && #[trigger] call_ensures(start, (payload, key, memo), agg),
{
    fold_of_empty_trie(start, end, after, agg);
    lemma_closure_as_visitor(start, None, Seq::empty(), Seq::empty(), end, None, agg);
    let (payload, key, memo) = choose|payload: Option<&mut V>, key: String, memo: Vec<Agg>|
        payload_of(payload) == None::<V> && key@ == Seq::<char>::empty() && memo@ == Seq::<
            Agg,
        >::empty() && #[trigger] call_ensures(start, (payload, key, memo), agg);
    assert(payload is None);
}

/// The fold below the root of a trie that holds nothing visits no node:
/// it gives no aggregate and leaves the visitor and the trie as they were.
pub proof fn fold_below_empty_root<V, Agg, F: VisitingAggregator<V, Agg>>(
    start: F,
    end: F,
    after: NodeView<V>,
    aggs: Seq<Agg>,
)
    requires
        folds(start, NodeView::<V>::empty(), Seq::empty(), end, after, aggs),
    ensures
        aggs == Seq::<Agg>::empty(),
        end == start,
        after == NodeView::<V>::empty(),
{
    let (states, runs) = choose|states: Seq<F>, runs: Seq<Run<Agg, F>>|
        {
            &&& #[trigger] runs_fit(states, runs, NodeView::<V>::empty(), Seq::empty(), after)
            &&& states[0] == start
            &&& states[runs.len() as int] == end
            &&& aggs_of(runs) == aggs
        };
    assert(aggs =~= Seq::empty());
    assert(after.children =~= Seq::empty());
}

/// After `delete` nothing is found under the key, where the key is one that
/// `delete` and `lookup` read alike: one whose segments are the same from
/// the last to the first as from the first to the last.
pub proof fn delete_then_lookup<V>(trie: NodeView<V>, key: Seq<char>)
    requires
        trie.wf(),
        trie.node_at(segments_from_last(key)) is Some,
        segments_from_last(key) == segments(key),
    ensures
        trie.delete(segments_from_last(key)).lookup(segments(key)) is None,
{
    lemma_delete_lookup(trie, segments(key));
}

/// `delete` and `lookup` read a key alike where it has no delimiter; and
/// where it does not start with one, `delete` reads the segments that
/// `lookup` reads, in reverse order.
pub proof fn delete_reads_from_the_last(key: Seq<char>)
    ensures
        !key.contains(DELIMITER) ==> segments_from_last(key) == segments(key),
        key.len() == 0 || key[0] != DELIMITER ==> segments_from_last(key) == segments(
            key,
        ).reverse(),
{
    if key.len() == 0 || key[0] != DELIMITER {
        lemma_segments_from_last(key);
    }
    if !key.contains(DELIMITER) {
        if key.len() > 0 {
            lemma_single_segment(key);
        } else {
            assert(segments_from_last(key) =~= segments(key));
        }
    }
}

} // verus!

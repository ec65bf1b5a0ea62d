//! The trie itself: one root node, and the operations that a key or a
//! visitor is handed to.

use vstd::prelude::*;
use crate::fold::{
    VisitingAggregator, accepts_below, accepts_node, folds, lemma_folds_same_shape,
    lemma_visits_same_shape, runs_fit, visits,
};
use crate::node::TrieNode;
use crate::segments::{segments, segments_from_last};
use crate::trie_key::TrieKey;
use crate::view::{
    NodeView, lemma_clone_same_shape, lemma_delete_no_dead_weight, lemma_insert_no_dead_weight,
    lemma_same_shape_no_dead_weight, lemma_same_shape_wf,
};

verus! {

/// What a list of segments and payloads, as the trie hands it out, holds.
pub open spec fn pairs_view<V>(pairs: Seq<(&str, &V)>) -> Seq<(Seq<char>, V)> {
    pairs.map_values(|pair: (&str, &V)| (pair.0@, *pair.1))
}

/// What a list of keys and payloads, as the trie takes it, holds.
pub open spec fn entries_view<V>(entries: Seq<(String, V)>) -> Seq<(Seq<char>, V)> {
    entries.map_values(|entry: (String, V)| (entry.0@, entry.1))
}

/// What a list of segments, as the trie hands it out, holds.
pub open spec fn keys_view(keys: Seq<&str>) -> Seq<Seq<char>> {
    keys.map_values(|key: &str| key@)
}

/// What a list of payloads, as the trie hands it out, holds.
pub open spec fn values_view<V>(values: Seq<&V>) -> Seq<V> {
    values.map_values(|value: &V| *value)
}

/// A trie of payloads of type `V` under keys made of segments. Its root is the
/// node that the empty key leads to.
///
/// A trie that was made by `new` and changed by its own operations only is
/// well-formed, and it carries no dead weight: below its root there is no
/// node without payload and without children.
#[derive(Debug)]
pub struct Trie<V> {
    root: TrieNode<V>,
}

impl<V> View for Trie<V> {
    type V = NodeView<V>;

    /// The trie as a mathematical value: its root with everything below it.
    closed spec fn view(&self) -> NodeView<V> {
        self.root@
    }
}

impl<V: Clone> Clone for Trie<V> {
    fn clone(&self) -> (copy: Self)
        ensures
            self@.cloned_as(copy@),
            self@.wf() ==> copy@.wf(),
            self@.no_dead_weight() ==> copy@.no_dead_weight(),
    {
        let copy = Trie { root: self.root.clone() };
        proof {
            lemma_clone_same_shape(self@, copy@);
            if self@.wf() {
                lemma_same_shape_wf(self@, copy@);
            }
            if self@.no_dead_weight() {
                lemma_same_shape_no_dead_weight(self@, copy@);
            }
        }
        copy
    }
}

impl<V> Default for Trie<V> {
    fn default() -> (trie: Self)
        ensures
            trie@ == NodeView::<V>::empty(),
            trie@.wf(),
            trie@.no_dead_weight(),
    {
        Trie::new()
    }
}

impl<V> Trie<V> {
    /// The trie that holds nothing.
    pub fn new() -> (trie: Self)
        ensures
            trie@ == NodeView::<V>::empty(),
            trie@.wf(),
            trie@.no_dead_weight(),
    {
        let root = TrieNode::default();
        assert(NodeView::<V>::empty().child_keys() =~= Seq::empty());
        Trie { root }
    }

    /// The payload under `key`, if the key leads to a node and the node has
    /// one.
    pub fn lookup(&self, key: &str) -> (found: Option<&V>)
        ensures
            match found {
                Some(value) => self@.lookup(segments(key@)) == Some(*value),
                None => self@.lookup(segments(key@)) is None,
            },
    {
        match self.root.descend(key) {
            Some(node) => {
                proof {
                    node.lemma_view();
                }
                node.value.as_ref()
            },
            None => None,
        }
    }

    /// The payload under the empty key.
    pub fn root_value(&self) -> (found: Option<&V>)
        ensures
            match found {
                Some(value) => self@.value == Some(*value),
                None => self@.value is None,
            },
    {
        proof {
            self.root.lemma_view();
        }
        self.root.value.as_ref()
    }

    /// Puts `value` under `key` and hands back the payload that was there.
    pub fn insert(&mut self, key: impl TrieKey, value: V) -> (previous: Option<V>)
        ensures
            final(self)@ == old(self)@.insert(segments(key.text()), value),
            previous == old(self)@.lookup(segments(key.text())),
            old(self)@.wf() ==> final(self)@.wf(),
            old(self)@.no_dead_weight() ==> final(self)@.no_dead_weight(),
    {
        proof {
            if self@.no_dead_weight() {
                lemma_insert_no_dead_weight(self@, segments(key.text()), value);
            }
        }
        let mut walk = key.iter_keys();
        self.root.insert(&mut walk, value)
    }

    /// Puts every payload of `entries` under its key, one after the other
    /// from the first to the last.
    pub fn extend(&mut self, entries: Vec<(String, V)>)
        ensures
            final(self)@ == old(self)@.insert_all(entries_view(entries@)),
            old(self)@.wf() ==> final(self)@.wf(),
            old(self)@.no_dead_weight() ==> final(self)@.no_dead_weight(),
    {
        let ghost all = entries_view(entries@);
        assert(all.take(0) =~= Seq::empty());
        for entry in walk: entries
            invariant
                walk.seq() == entries@,
                all == entries_view(entries@),
                self@ == old(self)@.insert_all(all.take(walk.index() as int)),
                old(self)@.wf() ==> self@.wf(),
                old(self)@.no_dead_weight() ==> self@.no_dead_weight(),
        {
            let ghost done = walk.index() as int;
            assert(all.take(done + 1).drop_last() =~= all.take(done));
            assert(all.take(done + 1).last() == (entry.0@, entry.1));
            self.insert(entry.0, entry.1);
        }
        assert(all.take(entries@.len() as int) =~= all);
    }

    /// The children of the node under `key` that have a payload, each as its
    /// segment and that payload; `None` where the key leads to no node.
    pub fn children(&self, key: &str) -> (found: Option<Vec<(&str, &V)>>)
        ensures
            match found {
                Some(pairs) => self@.node_at(segments(key@)) matches Some(node) && pairs_view(
                    pairs@,
                ) == node.valued_children(),
                None => self@.node_at(segments(key@)) is None,
            },
    {
        match self.root.descend(key) {
            Some(node) => Some(node.valued_children()),
            None => None,
        }
    }

    /// The payloads of the children of the node under `key`; `None` where the
    /// key leads to no node.
    pub fn child_values(&self, key: &str) -> (found: Option<Vec<&V>>)
        ensures
            match found {
                Some(values) => self@.node_at(segments(key@)) matches Some(node) && values_view(
                    values@,
                ) == node.child_values(),
                None => self@.node_at(segments(key@)) is None,
            },
    {
        match self.root.descend(key) {
            Some(node) => Some(node.child_values()),
            None => None,
        }
    }

    /// The segments of all children of the node under `key`, with or without
    /// payload; `None` where the key leads to no node.
    pub fn child_keys(&self, key: &str) -> (found: Option<Vec<&str>>)
        ensures
            match found {
                Some(keys) => self@.node_at(segments(key@)) matches Some(node) && keys_view(keys@)
                    == node.child_keys(),
                None => self@.node_at(segments(key@)) is None,
            },
    {
        match self.root.descend(key) {
            Some(node) => Some(node.child_keys()),
            None => None,
        }
    }

    /// Folds the trie from its leaves up to the children of the root, and
    /// hands back the aggregates of those children, in their order.
    ///
    /// Every node but the root is visited once, after all the nodes below it.
    /// The visitor is handed the payload of the node, the key of the node and
    /// the aggregates of the node's children. The key of a child is its
    /// segment joined to the key of its parent, and the key of the root is
    /// empty.
    pub fn aggregate_depth_first<Agg, F: VisitingAggregator<V, Agg>>(
        &mut self,
        visitor: &mut F,
    ) -> (results: Vec<Agg>)
        requires
            accepts_below(*old(visitor), old(self)@, Seq::empty()),
        ensures
            folds(
                *old(visitor),
                old(self)@,
                Seq::empty(),
                *final(visitor),
                final(self)@,
                results@,
            ),
            old(self)@.same_shape(final(self)@),
            old(self)@.wf() ==> final(self)@.wf(),
            old(self)@.no_dead_weight() ==> final(self)@.no_dead_weight(),
            forall|v: Option<V>, k: Seq<char>, m: Seq<Agg>|
                old(visitor).accepts(v, k, m) ==> #[trigger] final(visitor).accepts(v, k, m),
    {
        let root_key = "";
        proof {
            reveal_strlit("");
            assert(root_key@ =~= Seq::empty());
        }
        let (results, Ghost(visited)) = self.root.visit_depth_recurse(root_key, visitor);
        proof {
            assert(runs_fit(visited.0, visited.1, old(self)@, Seq::empty(), self@));
            lemma_folds_same_shape(
                *old(visitor),
                old(self)@,
                Seq::empty(),
                *visitor,
                self@,
                results@,
            );
            if old(self)@.wf() {
                lemma_same_shape_wf(old(self)@, self@);
            }
            if old(self)@.no_dead_weight() {
                lemma_same_shape_no_dead_weight(old(self)@, self@);
            }
        }
        results
    }

    /// Folds the whole trie into one aggregate: that of the root, which is
    /// visited last, under the empty key and with the aggregates of its
    /// children.
    pub fn aggregate_depth_first_root<Agg, F>(&mut self, visitor: &mut F) -> (result: Agg) where
        F: Fn(Option<&mut V>, String, Vec<Agg>) -> Agg,

        requires
            accepts_node(*old(visitor), old(self)@, Seq::empty()),
        ensures
            visits(
                *old(visitor),
                old(self)@,
                Seq::empty(),
                *final(visitor),
                final(self)@,
                result,
            ),
            old(self)@.same_shape(final(self)@),
            old(self)@.wf() ==> final(self)@.wf(),
            old(self)@.no_dead_weight() ==> final(self)@.no_dead_weight(),
    {
        let root_key = String::new();
        let (agg, Ghost(run)) = self.root.visit_node(root_key, visitor);
        proof {
            assert(run.fits(old(self)@, Seq::empty(), self@));
            lemma_visits_same_shape(
                *old(visitor),
                old(self)@,
                Seq::empty(),
                *visitor,
                self@,
                agg,
            );
            if old(self)@.wf() {
                lemma_same_shape_wf(old(self)@, self@);
            }
            if old(self)@.no_dead_weight() {
                lemma_same_shape_no_dead_weight(old(self)@, self@);
            }
        }
        agg
    }

    /// Takes the payload off the node that `key` leads to, and removes the
    /// nodes on the way to it that hold nothing afterwards. The root stays.
    ///
    /// The key is read from its last segment backwards, so it leads to the
    /// node that `insert` and `lookup` reach under the same segments in
    /// reverse order. That node has to be there.
    pub fn delete(&mut self, key: &str)
        requires
            old(self)@.node_at(segments_from_last(key@)) is Some,
        ensures
            final(self)@ == old(self)@.delete(segments_from_last(key@)),
            old(self)@.wf() ==> final(self)@.wf(),
            old(self)@.no_dead_weight() ==> final(self)@.no_dead_weight(),
    {
        proof {
            if self@.no_dead_weight() {
                lemma_delete_no_dead_weight(self@, segments_from_last(key@));
            }
        }
        self.root.delete_recurse(key);
    }
}

} // verus!

//! The nodes of the trie: each owns its children, and everything that walks
//! the trie from a node downwards is done here.

use vstd::prelude::*;
use vstd::string::StringExecFns;
use crate::fold::{
    Run, VisitingAggregator, accepts_below, accepts_node, aggs_of, lemma_accepts_more, runs_fit,
};
use crate::segments::{join, lemma_split_last, segments, segments_from_last};
use crate::trie::{keys_view, pairs_view, values_view};
use crate::trie_key::{MaybeEmptyIter, TrieKey, same_text};
use crate::view::{
    NodeView, lemma_lookup_in_empty, lemma_position_of_new, lemma_remove_keeps_distinct,
};

verus! {

/// A node of the trie: its payload, if it has one, and its children, each
/// under the segment that leads to it.
#[derive(Debug)]
pub struct TrieNode<V> {
    pub(crate) children: Vec<(String, TrieNode<V>)>,
    pub(crate) value: Option<V>,
}

impl<V> View for TrieNode<V> {
    type V = NodeView<V>;

    /// The node as a mathematical value.
    closed spec fn view(&self) -> NodeView<V>
        decreases self,
    {
        NodeView { value: self.value, children: Self::children_view(self.children@) }
    }
}

impl<V> Default for TrieNode<V> {
    fn default() -> (node: Self)
        ensures
            node@ == NodeView::<V>::empty(),
    {
        let node = TrieNode { children: Vec::new(), value: None };
        proof {
            node.lemma_view();
            assert(node@.children =~= Seq::empty());
        }
        node
    }
}

impl<V: Clone> Clone for TrieNode<V> {
    fn clone(&self) -> (copy: Self)
        ensures
            self@.cloned_as(copy@),
        decreases self,
    {
        let mut children: Vec<(String, TrieNode<V>)> = Vec::new();
        let mut at: usize = 0;
        while at < self.children.len()
            invariant
                at <= self.children@.len(),
                children@.len() == at,
                forall|i: int|
                    0 <= i < at ==> {
                        &&& (#[trigger] children@[i]).0@ == self.children@[i].0@
                        &&& self.children@[i].1@.cloned_as(children@[i].1@)
                    },
            decreases self.children@.len() - at,
        {
            let entry = &self.children[at];
            children.push((entry.0.clone(), entry.1.clone()));
            at += 1;
        }
        let copy = TrieNode { children, value: self.value.clone() };
        proof {
            self.lemma_view();
            copy.lemma_view();
            assert forall|i: int|
                #![trigger self@.children[i]]
                #![trigger copy@.children[i]]
                0 <= i < self@.children.len() implies {
                &&& self@.children[i].0 == copy@.children[i].0
                &&& self@.children[i].1.cloned_as(copy@.children[i].1)
            } by {
                assert(copy.children@[i].0@ == self.children@[i].0@);
            }
        }
        copy
    }
}

impl<V> TrieNode<V> {
    /// The views of the children `entries`, one by one.
    spec fn children_view(entries: Seq<(String, TrieNode<V>)>) -> Seq<(Seq<char>, NodeView<V>)>
        decreases entries,
    {
        if entries.len() == 0 {
            Seq::empty()
        } else {
            Self::children_view(entries.drop_last()).push((entries.last().0@, entries.last().1@))
        }
    }

    /// The views of children are as many as the children, and each shows the
    /// segment and the node of the child in its place.
    proof fn lemma_children_view(entries: Seq<(String, TrieNode<V>)>)
        ensures
            Self::children_view(entries).len() == entries.len(),
            forall|i: int|
                0 <= i < entries.len() ==> #[trigger] Self::children_view(entries)[i] == (
                    entries[i].0@,
                    entries[i].1@,
                ),
        decreases entries.len(),
    {
        if entries.len() > 0 {
            Self::lemma_children_view(entries.drop_last());
            assert(Self::children_view(entries) == Self::children_view(entries.drop_last()).push(
                (entries.last().0@, entries.last().1@),
            ));
        } else {
            assert(Self::children_view(entries) == Seq::<(Seq<char>, NodeView<V>)>::empty());
        }
    }

    /// The view of a node shows its payload and, child by child, the segment
    /// and the view of the node below.
    pub(crate) proof fn lemma_view(&self)
        ensures
            self@.value == self.value,
            self@.children.len() == self.children@.len(),
            self@.child_keys().len() == self.children@.len(),
            forall|i: int|
                0 <= i < self.children@.len() ==> #[trigger] self@.children[i] == (
                    self.children@[i].0@,
                    self.children@[i].1@,
                ),
            forall|i: int|
                0 <= i < self.children@.len() ==> #[trigger] self@.child_keys()[i]
                    == self.children@[i].0@,
    {
        Self::lemma_children_view(self.children@);
    }


    /// Where the child under `segment` stands among the children.
    fn find_child(&self, segment: &str) -> (found: Option<usize>)
        ensures
            match found {
                Some(at) => {
                    &&& self@.position(segment@) == Some(at as int)
                    &&& at < self.children@.len()
                },
                None => self@.position(segment@) is None,
            },
    {
        proof {
            self.lemma_view();
        }
        let mut at: usize = 0;
        while at < self.children.len()
            invariant
                at <= self.children@.len(),
                self@.child_keys().len() == self.children@.len(),
                forall|i: int|
                    0 <= i < self.children@.len() ==> #[trigger] self@.child_keys()[i]
                        == self.children@[i].0@,
                forall|j: int| 0 <= j < at ==> self@.child_keys()[j] != segment@,
            decreases self.children@.len() - at,
        {
            if same_text(self.children[at].0.as_str(), segment) {
                proof {
                    assert(self@.child_keys()[at as int] == segment@);
                    self@.child_keys().index_of_first_ensures(segment@);
                }
                return Some(at);
            }
            at += 1;
        }
        proof {
            self@.child_keys().index_of_first_ensures(segment@);
        }
        None
    }

    /// The node that `key` leads to from here.
    pub(crate) fn descend(&self, key: &str) -> (found: Option<&TrieNode<V>>)
        ensures
            match found {
                Some(node) => self@.node_at(segments(key@)) == Some(node@),
                None => self@.node_at(segments(key@)) is None,
            },
    {
        let mut current = self;
        let mut walk = MaybeEmptyIter::new(key);
        loop
            invariant
                current@.node_at(walk@) == self@.node_at(segments(key@)),
            ensures
                self@.node_at(segments(key@)) == Some(current@),
            decreases walk@.len(),
        {
            match walk.next() {
                None => {
                    break ;
                },
                Some(part) => {
                    match current.find_child(part) {
                        None => {
                            return None;
                        },
                        Some(at) => {
                            proof {
                                current.lemma_view();
                            }
                            current = &current.children[at].1;
                        },
                    }
                },
            }
        }
        Some(current)
    }
}

impl<V> TrieNode<V> {
    /// Puts `value` at the end of the path that `walk` still has to go, and
    /// hands back what was there.
    pub(crate) fn insert(&mut self, walk: &mut MaybeEmptyIter<'_>, value: V) -> (previous: Option<
        V,
    >)
        ensures
            final(self)@ == old(self)@.insert(old(walk)@, value),
            old(self)@.wf() ==> final(self)@.wf(),
            previous == old(self)@.lookup(old(walk)@),
        decreases old(walk)@.len(),
    {
        proof {
            self.lemma_view();
        }
        match walk.next() {
            None => {
                let previous = self.value.take();
                self.value = Some(value);
                proof {
                    self.lemma_view();
                    assert(self@.children =~= old(self)@.children);
                }
                previous
            },
            Some(part) => {
                let found = self.find_child(part);
                let at = match found {
                    Some(at) => at,
                    None => {
                        self.children.push((String::from_str(part), TrieNode::default()));
                        proof {
                            self.lemma_view();
                            assert(self@.children =~= old(self)@.children.push(
                                (part@, NodeView::empty()),
                            ));
                            assert(self@.child_keys() =~= old(self)@.child_keys().push(part@));
                            lemma_position_of_new(old(self)@.child_keys(), part@);
                            assert(NodeView::<V>::empty().child_keys() =~= Seq::empty());
                            if old(self)@.wf() {
                                assert forall|i: int| 0 <= i < self@.children.len() implies (
                                #[trigger] self@.children[i]).1.wf() by {
                                    if i < old(self)@.children.len() {
                                        assert(old(self)@.children[i].1.wf());
                                    }
                                }
                            }
                        }
                        self.children.len() - 1
                    },
                };
                let ghost before = self@;
                let ghost entries = self.children@;
                proof {
                    self.lemma_view();
                    before.child_keys().index_of_first_ensures(part@);
                }
                let previous = self.children[at].1.insert(walk, value);
                proof {
                    self.lemma_view();
                    let below = old(walk)@.drop_first();
                    let grown = before.children[at as int].1.insert(below, value);
                    assert(self.children@[at as int].1@ == grown);
                    assert(self@.children =~= before.children.update(at as int, (part@, grown)));
                    assert(self@.child_keys() =~= before.child_keys());
                    assert(old(walk)@[0] == part@);
                    if found is Some {
                        assert(before.children =~= old(self)@.children);
                    } else {
                        lemma_lookup_in_empty::<V>(below);
                        assert(self@.children =~= old(self)@.children.push(
                            (part@, NodeView::empty().insert(below, value)),
                        ));
                    }
                    assert(self@.children == old(self)@.insert(old(walk)@, value).children);
                    if old(self)@.wf() {
                        assert(before.children[at as int].1.wf());
                        assert forall|i: int| 0 <= i < self@.children.len() implies (
                        #[trigger] self@.children[i]).1.wf() by {
                            if i != at {
                                assert(before.children[i].1.wf());
                            }
                        }
                    }
                }
                previous
            },
        }
    }
}

impl<V> TrieNode<V> {
    /// Takes the payload off the node that `key` leads to when it is read from
    /// its last segment backwards, and removes the nodes on the way that hold
    /// nothing afterwards. Says whether this node holds nothing now.
    pub(crate) fn delete_recurse(&mut self, key: &str) -> (bare: bool)
        requires
            old(self)@.node_at(segments_from_last(key@)) is Some,
        ensures
            final(self)@ == old(self)@.delete(segments_from_last(key@)),
            old(self)@.wf() ==> final(self)@.wf(),
            bare == final(self)@.is_bare(),
        decreases key@.len(),
    {
        proof {
            self.lemma_view();
            lemma_split_last(key@);
        }
        match key.key_rest() {
            None => {
                self.value = None;
                proof {
                    self.lemma_view();
                    assert(self@.children =~= old(self)@.children);
                }
                self.children.is_empty()
            },
            Some((last, rest)) => {
                let found = self.find_child(last);
                let at = found.unwrap();
                let ghost before = self@;
                proof {
                    before.child_keys().index_of_first_ensures(last@);
                }
                let child_bare = self.children[at].1.delete_recurse(rest);
                proof {
                    self.lemma_view();
                    lemma_split_last(rest@);
                }
                let ghost below = before.children[at as int].1.delete(segments_from_last(rest@));
                assert(self@.children =~= before.children.update(at as int, (last@, below)));
                if child_bare {
                    let ghost between = self@;
                    self.children.remove(at);
                    proof {
                        self.lemma_view();
                        assert(self@.children =~= before.children.remove(at as int));
                        assert(self@.child_keys() =~= before.child_keys().remove(at as int));
                        if before.wf() {
                            lemma_remove_keeps_distinct(before.child_keys(), at as int);
                            assert forall|i: int| 0 <= i < self@.children.len() implies (
                            #[trigger] self@.children[i]).1.wf() by {
                                if i < at {
                                    assert(before.children[i].1.wf());
                                } else {
                                    assert(before.children[i + 1].1.wf());
                                }
                            }
                        }
                    }
                    self.value.is_none() && self.children.is_empty()
                } else {
                    proof {
                        assert(self@.child_keys() =~= before.child_keys());
                        if before.wf() {
                            assert(before.children[at as int].1.wf());
                            assert forall|i: int| 0 <= i < self@.children.len() implies (
                            #[trigger] self@.children[i]).1.wf() by {
                                if i != at {
                                    assert(before.children[i].1.wf());
                                }
                            }
                        }
                    }
                    false
                }
            },
        }
    }
}

impl<V> TrieNode<V> {
    /// The children that have a payload, each with its segment.
    #[verifier::loop_isolation(false)]
    pub(crate) fn valued_children(&self) -> (pairs: Vec<(&str, &V)>)
        ensures
            pairs_view(pairs@) == self@.valued_children(),
    {
        proof {
            self.lemma_view();
        }
        let ghost pick = |child: (Seq<char>, NodeView<V>)|
            match child.1.value {
                Some(value) => Some((child.0, value)),
                None => None,
            };
        let mut pairs: Vec<(&str, &V)> = Vec::new();
        let mut at: usize = 0;
        assert(self@.children.take(0) =~= Seq::empty());
        assert(pairs_view(pairs@) =~= Seq::empty());
        while at < self.children.len()
            invariant
                at <= self.children@.len(),
                self@.children.len() == self.children@.len(),
                forall|i: int|
                    0 <= i < self.children@.len() ==> #[trigger] self@.children[i] == (
                        self.children@[i].0@,
                        self.children@[i].1@,
                    ),
                pairs_view(pairs@) == self@.children.take(at as int).filter_map(pick),
            decreases self.children@.len() - at,
        {
            let entry = &self.children[at];
            proof {
                entry.1.lemma_view();
                self@.children.lemma_filter_map_take_succ(pick, at as int);
            }
            let ghost so_far = pairs@;
            match entry.1.value.as_ref() {
                Some(value) => {
                    pairs.push((entry.0.as_str(), value));
                    assert(pairs_view(pairs@) =~= pairs_view(so_far).push((entry.0@, *value)));
                    assert(pick(self@.children[at as int]) == Some((entry.0@, *value)));
                },
                None => {
                    assert(pick(self@.children[at as int]) is None);
                },
            }
            assert(pairs_view(pairs@) =~= self@.children.take(at + 1).filter_map(pick));
            at += 1;
        }
        assert(self@.children.take(at as int) =~= self@.children);
        pairs
    }

    /// The payloads of the children that have one.
    #[verifier::loop_isolation(false)]
    pub(crate) fn child_values(&self) -> (values: Vec<&V>)
        ensures
            values_view(values@) == self@.child_values(),
    {
        proof {
            self.lemma_view();
        }
        let ghost pick = |child: (Seq<char>, NodeView<V>)| child.1.value;
        let mut values: Vec<&V> = Vec::new();
        let mut at: usize = 0;
        assert(self@.children.take(0) =~= Seq::empty());
        assert(values_view(values@) =~= Seq::empty());
        while at < self.children.len()
            invariant
                at <= self.children@.len(),
                self@.children.len() == self.children@.len(),
                forall|i: int|
                    0 <= i < self.children@.len() ==> #[trigger] self@.children[i] == (
                        self.children@[i].0@,
                        self.children@[i].1@,
                    ),
                values_view(values@) == self@.children.take(at as int).filter_map(pick),
            decreases self.children@.len() - at,
        {
            let entry = &self.children[at];
            proof {
                entry.1.lemma_view();
                self@.children.lemma_filter_map_take_succ(pick, at as int);
            }
            let ghost so_far = values@;
            match entry.1.value.as_ref() {
                Some(value) => {
                    values.push(value);
                    assert(values_view(values@) =~= values_view(so_far).push(*value));
                    assert(pick(self@.children[at as int]) == Some(*value));
                },
                None => {
                    assert(pick(self@.children[at as int]) is None);
                },
            }
            assert(values_view(values@) =~= self@.children.take(at + 1).filter_map(pick));
            at += 1;
        }
        assert(self@.children.take(at as int) =~= self@.children);
        values
    }

    /// The segments of all children.
    pub(crate) fn child_keys(&self) -> (keys: Vec<&str>)
        ensures
            keys_view(keys@) == self@.child_keys(),
    {
        proof {
            self.lemma_view();
        }
        let mut keys: Vec<&str> = Vec::new();
        let mut at: usize = 0;
        while at < self.children.len()
            invariant
                at <= self.children@.len(),
                self@.child_keys().len() == self.children@.len(),
                forall|i: int|
                    0 <= i < self.children@.len() ==> #[trigger] self@.child_keys()[i]
                        == self.children@[i].0@,
                keys@.len() == at,
                forall|i: int| 0 <= i < at ==> (#[trigger] keys@[i])@ == self@.child_keys()[i],
            decreases self.children@.len() - at,
        {
            keys.push(self.children[at].0.as_str());
            at += 1;
        }
        assert(keys_view(keys@) =~= self@.child_keys());
        keys
    }
}

impl<V> TrieNode<V> {
    /// Visits every node below this one, children before their parent, and
    /// hands back the aggregates of the children of this node.
    pub(crate) fn visit_depth_recurse<Agg, F: VisitingAggregator<V, Agg>>(
        &mut self,
        path: &str,
        visitor: &mut F,
    ) -> (out: (Vec<Agg>, Ghost<(Seq<F>, Seq<Run<Agg, F>>)>))
        requires
            accepts_below(*old(visitor), old(self)@, path@),
        ensures
            runs_fit(out.1@.0, out.1@.1, old(self)@, path@, final(self)@),
            out.1@.0[0] == *old(visitor),
            out.1@.0[out.1@.1.len() as int] == *final(visitor),
            aggs_of(out.1@.1) == out.0@,
            forall|v: Option<V>, k: Seq<char>, m: Seq<Agg>|
                old(visitor).accepts(v, k, m) ==> #[trigger] final(visitor).accepts(v, k, m),
        decreases old(self)@, 0nat,
    {
        let ghost pre = self@;
        let ghost start = *visitor;
        let ghost mut states: Seq<F> = seq![start];
        let ghost mut runs: Seq<Run<Agg, F>> = Seq::empty();
        let mut results: Vec<Agg> = Vec::new();
        let mut at: usize = 0;
        proof {
            self.lemma_view();
        }
        while at < self.children.len()
            invariant
                pre == old(self)@,
                at <= self.children@.len() == pre.children.len(),
                self@.value == pre.value,
                self@.children.len() == pre.children.len(),
                results@.len() == at,
                runs.len() == at,
                states.len() == at + 1,
                states[0] == start,
                states[at as int] == *visitor,
                aggs_of(runs) == results@,
                accepts_below(start, pre, path@),
                forall|v: Option<V>, k: Seq<char>, m: Seq<Agg>|
                    start.accepts(v, k, m) ==> #[trigger] visitor.accepts(v, k, m),
                forall|j: int|
                    #![trigger runs[j]]
                    #![trigger self@.children[j]]
                    0 <= j < at ==> {
                        &&& self@.children[j].0 == pre.children[j].0
                        &&& runs[j].start() == states[j]
                        &&& runs[j].end == states[j + 1]
                        &&& runs[j].fits(
                            pre.children[j].1,
                            join(path@, pre.children[j].0),
                            self@.children[j].1,
                        )
                    },
                forall|j: int|
                    at <= j < pre.children.len() ==> #[trigger] self@.children[j]
                        == pre.children[j],
            decreases self.children@.len() - at,
        {
            proof {
                self.lemma_view();
            }
            let ghost entered = self@;
            let ghost visitor_entered = *visitor;
            let ghost entries = self.children@;
            let ghost runs_entered = runs;
            assert(entered.children[at as int] == pre.children[at as int]);
            let new_key = path.join(self.children[at].0.as_str());
            let child = &mut self.children[at].1;
            proof {
                assert(child@ == pre.children[at as int].1);
                assert(new_key@ == join(path@, pre.children[at as int].0));
                assert(accepts_node(start, child@, new_key@));
                lemma_accepts_more(start, visitor_entered, child@, new_key@);
            }
            let (agg, Ghost(run)) = child.visit_node(new_key, visitor);
            results.push(agg);
            proof {
                self.lemma_view();
                runs = runs.push(run);
                states = states.push(*visitor);
                assert forall|j: int| 0 <= j < entries.len() && j != at implies (
                #[trigger] self@.children[j]) == entered.children[j] by {
                    assert(self.children@[j] == entries[j]);
                }
                assert forall|j: int|
                    #![trigger runs[j]]
                    #![trigger self@.children[j]]
                    0 <= j < at + 1 implies {
                    &&& self@.children[j].0 == pre.children[j].0
                    &&& runs[j].start() == states[j]
                    &&& runs[j].end == states[j + 1]
                    &&& runs[j].fits(
                        pre.children[j].1,
                        join(path@, pre.children[j].0),
                        self@.children[j].1,
                    )
                } by {
                    if j < at {
                        assert(runs[j] == runs_entered[j]);
                    }
                }
                assert(aggs_of(runs) =~= aggs_of(runs_entered).push(agg));
            }
            at += 1;
        }
        (results, Ghost((states, runs)))
    }

    /// Visits every node below this one and then the node itself, under
    /// `key`, and hands back its aggregate.
    pub(crate) fn visit_node<Agg, F: VisitingAggregator<V, Agg>>(
        &mut self,
        key: String,
        visitor: &mut F,
    ) -> (out: (Agg, Ghost<Run<Agg, F>>))
        requires
            accepts_node(*old(visitor), old(self)@, key@),
        ensures
            out.1@.start() == *old(visitor),
            out.1@.fits(old(self)@, key@, final(self)@),
            out.1@.end == *final(visitor),
            out.1@.agg == out.0,
            forall|v: Option<V>, k: Seq<char>, m: Seq<Agg>|
                old(visitor).accepts(v, k, m) ==> #[trigger] final(visitor).accepts(v, k, m),
        decreases old(self)@, 1nat,
    {
        let (memo, Ghost(below)) = self.visit_depth_recurse(key.as_str(), visitor);
        let ghost between = self@;
        let ghost mid = *visitor;
        proof {
            self.lemma_view();
            assert(mid.accepts(between.value, key@, memo@));
        }
        let agg = visitor.visit(self.value.as_mut(), key, memo);
        let ghost run = Run { states: below.0, below: below.1, end: *visitor, agg };
        proof {
            self.lemma_view();
            assert(self@.children == between.children);
            assert forall|i: int|
                #![trigger run.below[i]]
                #![trigger self@.children[i]]
                0 <= i < run.below.len() implies {
                &&& self@.children[i].0 == old(self)@.children[i].0
                &&& run.below[i].start() == run.states[i]
                &&& run.below[i].end == run.states[i + 1]
                &&& run.below[i].fits(
                    old(self)@.children[i].1,
                    join(key@, old(self)@.children[i].0),
                    self@.children[i].1,
                )
            } by {
                assert(below.1[i] == run.below[i]);
                assert(between.children[i] == self@.children[i]);
            }
        }
        (agg, Ghost(run))
    }
}

} // verus!

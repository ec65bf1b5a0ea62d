//! The trie as a mathematical value: a node is an optional payload and a list
//! of named children, each of them a node again.

use vstd::prelude::*;
use crate::segments::segments;

verus! {

/// A node of the trie together with everything below it.
///
/// The children stand in the order in which the trie enumerates them. No two
/// children of a well-formed node bear the same segment.
pub struct NodeView<V> {
    /// The payload of the node, if it has one.
    pub value: Option<V>,
    /// The children, each as the segment that leads to it and the node that
    /// it is.
    pub children: Seq<(Seq<char>, NodeView<V>)>,
}

impl<V> NodeView<V> {
    /// The node without payload and without children.
    pub open spec fn empty() -> Self {
        NodeView { value: None, children: Seq::empty() }
    }

    /// The segments that lead to the children, in their order.
    pub open spec fn child_keys(self) -> Seq<Seq<char>> {
        Seq::new(self.children.len(), |i: int| self.children[i].0)
    }

    /// The children that have a payload of their own, each as its segment
    /// and that payload, in the order of the children.
    pub open spec fn valued_children(self) -> Seq<(Seq<char>, V)> {
        self.children.filter_map(
            |child: (Seq<char>, NodeView<V>)|
                match child.1.value {
                    Some(value) => Some((child.0, value)),
                    None => None,
                },
        )
    }

    /// The payloads of the children that have one, in the order of the
    /// children.
    pub open spec fn child_values(self) -> Seq<V> {
        self.children.filter_map(|child: (Seq<char>, NodeView<V>)| child.1.value)
    }

    /// No segment leads to two children, here or anywhere below.
    pub open spec fn wf(self) -> bool
        decreases self,
    {
        &&& self.child_keys().no_duplicates()
        &&& forall|i: int| 0 <= i < self.children.len() ==> (#[trigger] self.children[i]).1.wf()
    }

    /// Where the child that `segment` leads to stands among the children.
    pub open spec fn position(self, segment: Seq<char>) -> Option<int> {
        self.child_keys().index_of_first(segment)
    }

    /// The node that `path` leads to from here, one segment after the other.
    pub open spec fn node_at(self, path: Seq<Seq<char>>) -> Option<NodeView<V>>
        decreases path.len(),
    {
        if path.len() == 0 {
            Some(self)
        } else {
            match self.position(path[0]) {
                Some(at) => self.children[at].1.node_at(path.drop_first()),
                None => None,
            }
        }
    }

    /// The payload of the node that `path` leads to. A path that leads nowhere
    /// and a path to a node without payload give the same answer.
    pub open spec fn lookup(self, path: Seq<Seq<char>>) -> Option<V> {
        match self.node_at(path) {
            Some(node) => node.value,
            None => None,
        }
    }

    /// This node with `value` as the payload at the end of `path`. Nodes that
    /// the path needs and that are not there are added, each as the last child
    /// of its parent and without payload.
    pub open spec fn insert(self, path: Seq<Seq<char>>, value: V) -> NodeView<V>
        decreases path.len(),
    {
        if path.len() == 0 {
            NodeView { value: Some(value), children: self.children }
        } else {
            match self.position(path[0]) {
                Some(at) => NodeView {
                    value: self.value,
                    children: self.children.update(
                        at,
                        (path[0], self.children[at].1.insert(path.drop_first(), value)),
                    ),
                },
                None => NodeView {
                    value: self.value,
                    children: self.children.push(
                        (path[0], Self::empty().insert(path.drop_first(), value)),
                    ),
                },
            }
        }
    }

    /// The node holds nothing: no payload and no children.
    pub open spec fn is_bare(self) -> bool {
        self.value is None && self.children.len() == 0
    }

    /// This node without the payload at the end of `path`, and without the
    /// nodes on the path that hold nothing once it is gone. The node itself
    /// always stays. A path that leads nowhere changes nothing.
    pub open spec fn delete(self, path: Seq<Seq<char>>) -> NodeView<V>
        decreases path.len(),
    {
        if path.len() == 0 {
            NodeView { value: None, children: self.children }
        } else {
            match self.position(path[0]) {
                Some(at) => {
                    let below = self.children[at].1.delete(path.drop_first());
                    if below.is_bare() {
                        NodeView { value: self.value, children: self.children.remove(at) }
                    } else {
                        NodeView {
                            value: self.value,
                            children: self.children.update(at, (path[0], below)),
                        }
                    }
                },
                None => self,
            }
        }
    }

    /// No node below this one holds nothing: each has a payload, or a node
    /// below it that has one.
    pub open spec fn no_dead_weight(self) -> bool
        decreases self,
    {
        forall|i: int|
            0 <= i < self.children.len() ==> {
                &&& !(#[trigger] self.children[i]).1.is_bare()
                &&& self.children[i].1.no_dead_weight()
            }
    }

    /// `other` has the nodes and the payloads of this node in the same
    /// places, whatever the payloads are.
    pub open spec fn same_shape(self, other: NodeView<V>) -> bool
        decreases self,
    {
        &&& self.value is Some <==> other.value is Some
        &&& self.children.len() == other.children.len()
        &&& forall|i: int|
            #![trigger self.children[i]]
            #![trigger other.children[i]]
            0 <= i < self.children.len() ==> {
                &&& self.children[i].0 == other.children[i].0
                &&& self.children[i].1.same_shape(other.children[i].1)
            }
    }

    /// `copy` can be a clone of this node: it has the same nodes under the
    /// same segments, and a payload wherever this node has one, made from
    /// that one by `clone`.
    pub open spec fn cloned_as(self, copy: NodeView<V>) -> bool where V: Clone
        decreases self,
    {
        &&& match (self.value, copy.value) {
            (Some(payload), Some(made)) => cloned::<V>(payload, made),
            (None, None) => true,
            _ => false,
        }
        &&& self.children.len() == copy.children.len()
        &&& forall|i: int|
            #![trigger self.children[i]]
            #![trigger copy.children[i]]
            0 <= i < self.children.len() ==> {
                &&& self.children[i].0 == copy.children[i].0
                &&& self.children[i].1.cloned_as(copy.children[i].1)
            }
    }

    /// This node with every payload of `entries` put under its key, one after
    /// the other from the first to the last.
    pub open spec fn insert_all(self, entries: Seq<(Seq<char>, V)>) -> NodeView<V>
        decreases entries.len(),
    {
        if entries.len() == 0 {
            self
        } else {
            self.insert_all(entries.drop_last()).insert(
                segments(entries.last().0),
                entries.last().1,
            )
        }
    }
}

/// A segment that is not among `keys` stands last once it is added to them,
/// and distinct keys stay distinct.
pub proof fn lemma_position_of_new(keys: Seq<Seq<char>>, segment: Seq<char>)
    requires
        keys.index_of_first(segment) is None,
    ensures
        keys.push(segment).index_of_first(segment) == Some(keys.len() as int),
        keys.no_duplicates() ==> keys.push(segment).no_duplicates(),
{
    keys.index_of_first_ensures(segment);
    let longer = keys.push(segment);
    longer.index_of_first_ensures(segment);
    assert(longer[keys.len() as int] == segment);
    assert forall|j: int| 0 <= j < keys.len() implies longer[j] != segment by {
        assert(keys[j] == longer[j]);
    }
}

/// Distinct keys stay distinct when one of them is taken away, and the one
/// taken away is then not among them.
pub proof fn lemma_remove_keeps_distinct(keys: Seq<Seq<char>>, at: int)
    requires
        keys.no_duplicates(),
        0 <= at < keys.len(),
    ensures
        keys.remove(at).no_duplicates(),
        keys.remove(at).index_of_first(keys[at]) is None,
{
    let fewer = keys.remove(at);
    assert forall|i: int, j: int|
        0 <= i < fewer.len() && 0 <= j < fewer.len() && i != j implies fewer[i] != fewer[j] by {
        let from_i = if i < at { i } else { i + 1 };
        let from_j = if j < at { j } else { j + 1 };
        assert(fewer[i] == keys[from_i]);
        assert(fewer[j] == keys[from_j]);
    }
    assert forall|i: int| 0 <= i < fewer.len() implies fewer[i] != keys[at] by {
        let from_i = if i < at { i } else { i + 1 };
        assert(fewer[i] == keys[from_i]);
    }
    fewer.index_of_first_ensures(keys[at]);
}

/// A key that was among `keys` before another one was added behind them is
/// found where it was, and one that was not is not found, unless it is the
/// one added.
pub proof fn lemma_position_of_old(keys: Seq<Seq<char>>, added: Seq<char>, segment: Seq<char>)
    requires
        segment != added,
    ensures
        keys.push(added).index_of_first(segment) == keys.index_of_first(segment),
{
    let longer = keys.push(added);
    keys.index_of_first_ensures(segment);
    longer.index_of_first_ensures(segment);
    match keys.index_of_first(segment) {
        Some(at) => {
            assert(longer[at] == segment);
            if longer.index_of_first(segment) != Some(at) {
                let other = longer.index_of_first(segment).unwrap();
                if other < at {
                    assert(keys[other] == longer[other]);
                }
            }
        },
        None => {
            if longer.index_of_first(segment) is Some {
                let other = longer.index_of_first(segment).unwrap();
                assert(keys[other] == longer[other]);
            }
        },
    }
}

/// Nothing is found below a node that has no children.
pub proof fn lemma_lookup_in_empty<V>(path: Seq<Seq<char>>)
    ensures
        NodeView::<V>::empty().lookup(path) is None,
        path.len() > 0 ==> NodeView::<V>::empty().node_at(path) is None,
{
    let node = NodeView::<V>::empty();
    if path.len() > 0 {
        assert(node.child_keys() =~= Seq::empty());
        node.child_keys().index_of_first_ensures(path[0]);
    }
}

/// What is put under a path is found there.
pub proof fn lemma_insert_lookup<V>(node: NodeView<V>, path: Seq<Seq<char>>, value: V)
    ensures
        node.insert(path, value).lookup(path) == Some(value),
    decreases path.len(),
{
    if path.len() > 0 {
        let grown = node.insert(path, value);
        let rest = path.drop_first();
        node.child_keys().index_of_first_ensures(path[0]);
        match node.position(path[0]) {
            Some(at) => {
                assert(grown.child_keys() =~= node.child_keys());
                lemma_insert_lookup(node.children[at].1, rest, value);
            },
            None => {
                assert(grown.child_keys() =~= node.child_keys().push(path[0]));
                lemma_position_of_new(node.child_keys(), path[0]);
                lemma_insert_lookup(NodeView::<V>::empty(), rest, value);
            },
        }
    }
}

/// What is put under a path changes nothing under any other path.
pub proof fn lemma_insert_elsewhere<V>(
    node: NodeView<V>,
    path: Seq<Seq<char>>,
    value: V,
    other: Seq<Seq<char>>,
)
    requires
        other != path,
    ensures
        node.insert(path, value).lookup(other) == node.lookup(other),
    decreases path.len(),
{
    let grown = node.insert(path, value);
    if other.len() == 0 {
        assert(path.len() > 0) by {
            if path.len() == 0 {
                assert(other =~= path);
            }
        }
    } else if path.len() == 0 {
        assert(grown.child_keys() =~= node.child_keys());
    } else {
        let rest = path.drop_first();
        let other_rest = other.drop_first();
        node.child_keys().index_of_first_ensures(path[0]);
        node.child_keys().index_of_first_ensures(other[0]);
        if other[0] == path[0] {
            assert(other_rest != rest) by {
                if other_rest == rest {
                    assert(other =~= seq![other[0]] + other_rest);
                    assert(path =~= seq![path[0]] + rest);
                }
            }
            match node.position(path[0]) {
                Some(at) => {
                    assert(grown.child_keys() =~= node.child_keys());
                    lemma_insert_elsewhere(node.children[at].1, rest, value, other_rest);
                },
                None => {
                    assert(grown.child_keys() =~= node.child_keys().push(path[0]));
                    lemma_position_of_new(node.child_keys(), path[0]);
                    lemma_insert_elsewhere(NodeView::<V>::empty(), rest, value, other_rest);
                    lemma_lookup_in_empty::<V>(other_rest);
                    if other_rest.len() == 0 {
                        assert(rest.len() > 0);
                    }
                },
            }
        } else {
            match node.position(path[0]) {
                Some(at) => {
                    assert(grown.child_keys() =~= node.child_keys());
                },
                None => {
                    assert(grown.child_keys() =~= node.child_keys().push(path[0]));
                    lemma_position_of_old(node.child_keys(), path[0], other[0]);
                },
            }
        }
    }
}

/// Of two payloads put under one path, one after the other, only the second
/// is left.
pub proof fn lemma_insert_twice<V>(node: NodeView<V>, path: Seq<Seq<char>>, first: V, second: V)
    ensures
        node.insert(path, first).insert(path, second) == node.insert(path, second),
    decreases path.len(),
{
    let once = node.insert(path, first);
    let twice = once.insert(path, second);
    let only = node.insert(path, second);
    if path.len() > 0 {
        let rest = path.drop_first();
        node.child_keys().index_of_first_ensures(path[0]);
        match node.position(path[0]) {
            Some(at) => {
                assert(once.child_keys() =~= node.child_keys());
                lemma_insert_twice(node.children[at].1, rest, first, second);
                assert(twice.children =~= only.children);
            },
            None => {
                assert(once.child_keys() =~= node.child_keys().push(path[0]));
                lemma_position_of_new(node.child_keys(), path[0]);
                lemma_insert_twice(NodeView::<V>::empty(), rest, first, second);
                assert(twice.children =~= only.children);
            },
        }
    }
}

/// Once a payload is put under a path, there is a node at every point of
/// the path.
pub proof fn lemma_insert_makes_nodes<V>(
    node: NodeView<V>,
    path: Seq<Seq<char>>,
    value: V,
    length: int,
)
    requires
        0 <= length <= path.len(),
    ensures
        node.insert(path, value).node_at(path.take(length)) is Some,
    decreases path.len(),
{
    let grown = node.insert(path, value);
    if length > 0 {
        let rest = path.drop_first();
        assert(path.take(length).drop_first() =~= rest.take(length - 1));
        assert(path.take(length)[0] == path[0]);
        node.child_keys().index_of_first_ensures(path[0]);
        match node.position(path[0]) {
            Some(at) => {
                assert(grown.child_keys() =~= node.child_keys());
                lemma_insert_makes_nodes(node.children[at].1, rest, value, length - 1);
            },
            None => {
                assert(grown.child_keys() =~= node.child_keys().push(path[0]));
                lemma_position_of_new(node.child_keys(), path[0]);
                lemma_insert_makes_nodes(NodeView::<V>::empty(), rest, value, length - 1);
            },
        }
    } else {
        assert(path.take(0) =~= Seq::empty());
    }
}

/// Putting a payload under a path keeps a well-formed node well-formed.
pub proof fn lemma_insert_wf<V>(node: NodeView<V>, path: Seq<Seq<char>>, value: V)
    requires
        node.wf(),
    ensures
        node.insert(path, value).wf(),
    decreases path.len(),
{
    let grown = node.insert(path, value);
    if path.len() == 0 {
        assert(grown.child_keys() =~= node.child_keys());
        assert forall|i: int| 0 <= i < grown.children.len() implies (
        #[trigger] grown.children[i]).1.wf() by {
            assert(node.children[i].1.wf());
        }
    } else {
        let rest = path.drop_first();
        node.child_keys().index_of_first_ensures(path[0]);
        match node.position(path[0]) {
            Some(at) => {
                assert(grown.child_keys() =~= node.child_keys());
                assert(node.children[at].1.wf());
                lemma_insert_wf(node.children[at].1, rest, value);
                assert forall|i: int| 0 <= i < grown.children.len() implies (
                #[trigger] grown.children[i]).1.wf() by {
                    if i != at {
                        assert(node.children[i].1.wf());
                    }
                }
            },
            None => {
                assert(grown.child_keys() =~= node.child_keys().push(path[0]));
                lemma_position_of_new(node.child_keys(), path[0]);
                assert(NodeView::<V>::empty().child_keys() =~= Seq::empty());
                lemma_insert_wf(NodeView::<V>::empty(), rest, value);
                assert forall|i: int| 0 <= i < grown.children.len() implies (
                #[trigger] grown.children[i]).1.wf() by {
                    if i < node.children.len() {
                        assert(node.children[i].1.wf());
                    }
                }
            },
        }
    }
}

/// What was taken off a path is not found there any more.
pub proof fn lemma_delete_lookup<V>(node: NodeView<V>, path: Seq<Seq<char>>)
    requires
        node.wf(),
        node.node_at(path) is Some,
    ensures
        node.delete(path).lookup(path) is None,
    decreases path.len(),
{
    if path.len() > 0 {
        let pruned = node.delete(path);
        let rest = path.drop_first();
        node.child_keys().index_of_first_ensures(path[0]);
        let at = node.position(path[0]).unwrap();
        let below = node.children[at].1.delete(rest);
        assert(node.children[at].1.wf());
        lemma_delete_lookup(node.children[at].1, rest);
        if below.is_bare() {
            assert(pruned.child_keys() =~= node.child_keys().remove(at));
            lemma_remove_keeps_distinct(node.child_keys(), at);
        } else {
            assert(pruned.child_keys() =~= node.child_keys());
        }
    }
}

/// Taking a payload off one path changes nothing that is found under another
/// path: the nodes that go with it hold nothing.
pub proof fn lemma_delete_elsewhere<V>(
    node: NodeView<V>,
    path: Seq<Seq<char>>,
    other: Seq<Seq<char>>,
)
    requires
        node.wf(),
        other != path,
    ensures
        node.delete(path).lookup(other) == node.lookup(other),
    decreases path.len(),
{
    let pruned = node.delete(path);
    if other.len() == 0 {
        assert(path.len() > 0) by {
            if path.len() == 0 {
                assert(other =~= path);
            }
        }
    } else if path.len() == 0 {
        assert(pruned.child_keys() =~= node.child_keys());
    } else {
        let rest = path.drop_first();
        let other_rest = other.drop_first();
        node.child_keys().index_of_first_ensures(path[0]);
        node.child_keys().index_of_first_ensures(other[0]);
        match node.position(path[0]) {
            Some(at) => {
                let child = node.children[at].1;
                let below = child.delete(rest);
                assert(child.wf());
                if other[0] == path[0] {
                    assert(other_rest != rest) by {
                        if other_rest == rest {
                            assert(other =~= seq![other[0]] + other_rest);
                            assert(path =~= seq![path[0]] + rest);
                        }
                    }
                    lemma_delete_elsewhere(child, rest, other_rest);
                    if below.is_bare() {
                        assert(pruned.child_keys() =~= node.child_keys().remove(at));
                        lemma_remove_keeps_distinct(node.child_keys(), at);
                        lemma_lookup_in_bare(below, other_rest);
                    } else {
                        assert(pruned.child_keys() =~= node.child_keys());
                    }
                } else {
                    if below.is_bare() {
                        assert(pruned.child_keys() =~= node.child_keys().remove(at));
                        lemma_position_after_remove(node.child_keys(), at, other[0]);
                        match node.position(other[0]) {
                            Some(found) => {
                                let moved = if found < at {
                                    found
                                } else {
                                    found - 1
                                };
                                assert(pruned.children[moved] == node.children[found]);
                            },
                            None => {},
                        }
                    } else {
                        assert(pruned.child_keys() =~= node.child_keys());
                    }
                }
            },
            None => {},
        }
    }
}

/// Nothing is found at or below a node that holds nothing.
pub proof fn lemma_lookup_in_bare<V>(node: NodeView<V>, path: Seq<Seq<char>>)
    requires
        node.is_bare(),
    ensures
        node.lookup(path) is None,
{
    if path.len() > 0 {
        assert(node.child_keys() =~= Seq::empty());
        node.child_keys().index_of_first_ensures(path[0]);
    }
}

/// When one of some distinct keys is taken away, each of the others is found
/// among those that are left, one place further to the front if it stood
/// behind the one taken away.
pub proof fn lemma_position_after_remove(keys: Seq<Seq<char>>, at: int, segment: Seq<char>)
    requires
        keys.no_duplicates(),
        0 <= at < keys.len(),
        segment != keys[at],
    ensures
        match keys.index_of_first(segment) {
            Some(found) => keys.remove(at).index_of_first(segment) == Some(
                if found < at {
                    found
                } else {
                    found - 1
                },
            ),
            None => keys.remove(at).index_of_first(segment) is None,
        },
{
    let fewer = keys.remove(at);
    keys.index_of_first_ensures(segment);
    fewer.index_of_first_ensures(segment);
    lemma_remove_keeps_distinct(keys, at);
    match keys.index_of_first(segment) {
        Some(found) => {
            let moved = if found < at {
                found
            } else {
                found - 1
            };
            assert(fewer[moved] == segment);
            let seen = fewer.index_of_first(segment).unwrap();
            assert(seen == moved);
        },
        None => {
            if fewer.index_of_first(segment) is Some {
                let seen = fewer.index_of_first(segment).unwrap();
                let from = if seen < at {
                    seen
                } else {
                    seen + 1
                };
                assert(keys[from] == fewer[seen]);
            }
        },
    }
}

/// The payloads that `child_values` lists are those that `valued_children`
/// lists, in the same order.
pub proof fn lemma_child_values<V>(node: NodeView<V>)
    ensures
        node.child_values() == node.valued_children().map_values(|pair: (Seq<char>, V)| pair.1),
{
    lemma_values_of_valued(node.children, node.children.len() as int);
    assert(node.children.take(node.children.len() as int) =~= node.children);
}

/// Among the first `count` of `children`, the payloads are those of the
/// entries with a payload, in the same order.
proof fn lemma_values_of_valued<V>(children: Seq<(Seq<char>, NodeView<V>)>, count: int)
    requires
        0 <= count <= children.len(),
    ensures
        children.take(count).filter_map(|child: (Seq<char>, NodeView<V>)| child.1.value)
            == children.take(count).filter_map(
            |child: (Seq<char>, NodeView<V>)|
                match child.1.value {
                    Some(value) => Some((child.0, value)),
                    None => None,
                },
        ).map_values(|pair: (Seq<char>, V)| pair.1),
    decreases count,
{
    let value = |child: (Seq<char>, NodeView<V>)| child.1.value;
    let pick = |child: (Seq<char>, NodeView<V>)|
        match child.1.value {
            Some(value) => Some((child.0, value)),
            None => None,
        };
    let second = |pair: (Seq<char>, V)| pair.1;
    if count == 0 {
        assert(children.take(0) =~= Seq::empty());
        assert(children.take(0).filter_map(value) =~= children.take(0).filter_map(
            pick,
        ).map_values(second));
    } else {
        lemma_values_of_valued(children, count - 1);
        children.lemma_filter_map_take_succ(value, count - 1);
        children.lemma_filter_map_take_succ(pick, count - 1);
        assert(children.take(count).filter_map(value) =~= children.take(count).filter_map(
            pick,
        ).map_values(second));
    }
}

/// Putting a payload under a path leaves no node that holds nothing.
pub proof fn lemma_insert_no_dead_weight<V>(node: NodeView<V>, path: Seq<Seq<char>>, value: V)
    requires
        node.no_dead_weight(),
    ensures
        node.insert(path, value).no_dead_weight(),
        !node.insert(path, value).is_bare(),
    decreases path.len(),
{
    let grown = node.insert(path, value);
    if path.len() == 0 {
        assert forall|i: int| 0 <= i < grown.children.len() implies {
            &&& !(#[trigger] grown.children[i]).1.is_bare()
            &&& grown.children[i].1.no_dead_weight()
        } by {
            assert(grown.children[i] == node.children[i]);
        }
    } else {
        let rest = path.drop_first();
        node.child_keys().index_of_first_ensures(path[0]);
        match node.position(path[0]) {
            Some(at) => {
                assert(node.children[at].1.no_dead_weight());
                lemma_insert_no_dead_weight(node.children[at].1, rest, value);
                assert forall|i: int| 0 <= i < grown.children.len() implies {
                    &&& !(#[trigger] grown.children[i]).1.is_bare()
                    &&& grown.children[i].1.no_dead_weight()
                } by {
                    if i != at {
                        assert(grown.children[i] == node.children[i]);
                    }
                }
            },
            None => {
                lemma_insert_no_dead_weight(NodeView::<V>::empty(), rest, value);
                assert forall|i: int| 0 <= i < grown.children.len() implies {
                    &&& !(#[trigger] grown.children[i]).1.is_bare()
                    &&& grown.children[i].1.no_dead_weight()
                } by {
                    if i < node.children.len() {
                        assert(grown.children[i] == node.children[i]);
                    }
                }
            },
        }
    }
}

/// Taking a payload off a path leaves no node that holds nothing, the node
/// that it starts from aside.
pub proof fn lemma_delete_no_dead_weight<V>(node: NodeView<V>, path: Seq<Seq<char>>)
    requires
        node.no_dead_weight(),
    ensures
        node.delete(path).no_dead_weight(),
    decreases path.len(),
{
    let pruned = node.delete(path);
    if path.len() == 0 {
        assert forall|i: int| 0 <= i < pruned.children.len() implies {
            &&& !(#[trigger] pruned.children[i]).1.is_bare()
            &&& pruned.children[i].1.no_dead_weight()
        } by {
            assert(pruned.children[i] == node.children[i]);
        }
    } else {
        let rest = path.drop_first();
        node.child_keys().index_of_first_ensures(path[0]);
        match node.position(path[0]) {
            Some(at) => {
                let below = node.children[at].1.delete(rest);
                assert(node.children[at].1.no_dead_weight());
                lemma_delete_no_dead_weight(node.children[at].1, rest);
                assert forall|i: int| 0 <= i < pruned.children.len() implies {
                    &&& !(#[trigger] pruned.children[i]).1.is_bare()
                    &&& pruned.children[i].1.no_dead_weight()
                } by {
                    if below.is_bare() {
                        if i < at {
                            assert(pruned.children[i] == node.children[i]);
                        } else {
                            assert(pruned.children[i] == node.children[i + 1]);
                        }
                    } else {
                        if i != at {
                            assert(pruned.children[i] == node.children[i]);
                        }
                    }
                }
            },
            None => {},
        }
    }
}

/// Taking a payload off a path keeps a well-formed node well-formed.
pub proof fn lemma_delete_wf<V>(node: NodeView<V>, path: Seq<Seq<char>>)
    requires
        node.wf(),
    ensures
        node.delete(path).wf(),
    decreases path.len(),
{
    let pruned = node.delete(path);
    if path.len() == 0 {
        assert(pruned.child_keys() =~= node.child_keys());
        assert forall|i: int| 0 <= i < pruned.children.len() implies (
        #[trigger] pruned.children[i]).1.wf() by {
            assert(node.children[i].1.wf());
        }
    } else {
        let rest = path.drop_first();
        node.child_keys().index_of_first_ensures(path[0]);
        match node.position(path[0]) {
            Some(at) => {
                let below = node.children[at].1.delete(rest);
                assert(node.children[at].1.wf());
                lemma_delete_wf(node.children[at].1, rest);
                if below.is_bare() {
                    assert(pruned.child_keys() =~= node.child_keys().remove(at));
                    lemma_remove_keeps_distinct(node.child_keys(), at);
                    assert forall|i: int| 0 <= i < pruned.children.len() implies (
                    #[trigger] pruned.children[i]).1.wf() by {
                        if i < at {
                            assert(node.children[i].1.wf());
                        } else {
                            assert(node.children[i + 1].1.wf());
                        }
                    }
                } else {
                    assert(pruned.child_keys() =~= node.child_keys());
                    assert forall|i: int| 0 <= i < pruned.children.len() implies (
                    #[trigger] pruned.children[i]).1.wf() by {
                        if i != at {
                            assert(node.children[i].1.wf());
                        }
                    }
                }
            },
            None => {},
        }
    }
}

/// A child that has a payload is among the children: every segment that
/// `valued_children` names, `child_keys` names too.
pub proof fn lemma_valued_children_among_keys<V>(node: NodeView<V>)
    ensures
        forall|i: int|
            0 <= i < node.valued_children().len() ==> node.child_keys().contains(
                (#[trigger] node.valued_children()[i]).0,
            ),
        node.valued_children().len() <= node.child_keys().len(),
{
    lemma_valued_among(node.children, node.children.len() as int);
    assert(node.children.take(node.children.len() as int) =~= node.children);
    assert forall|i: int| 0 <= i < node.valued_children().len() implies node.child_keys().contains(
        (#[trigger] node.valued_children()[i]).0,
    ) by {
        let j = choose|j: int|
            0 <= j < node.children.len() && node.children[j].0 == node.valued_children()[i].0;
        assert(node.child_keys()[j] == node.valued_children()[i].0);
    }
}

/// The payload-bearing entries among the first `count` of `children` are
/// entries of `children`.
proof fn lemma_valued_among<V>(children: Seq<(Seq<char>, NodeView<V>)>, count: int)
    requires
        0 <= count <= children.len(),
    ensures
        ({
            let pick = |child: (Seq<char>, NodeView<V>)|
                match child.1.value {
                    Some(value) => Some((child.0, value)),
                    None => None,
                };
            let valued = children.take(count).filter_map(pick);
            &&& valued.len() <= count
            &&& forall|i: int|
                0 <= i < valued.len() ==> exists|j: int|
                    0 <= j < count && children[j].0 == (#[trigger] valued[i]).0
        }),
    decreases count,
{
    let pick = |child: (Seq<char>, NodeView<V>)|
        match child.1.value {
            Some(value) => Some((child.0, value)),
            None => None,
        };
    if count == 0 {
        assert(children.take(0) =~= Seq::empty());
    } else {
        lemma_valued_among(children, count - 1);
        children.lemma_filter_map_take_succ(pick, count - 1);
        let shorter = children.take(count - 1).filter_map(pick);
        let valued = children.take(count).filter_map(pick);
        assert forall|i: int| 0 <= i < valued.len() implies exists|j: int|
            0 <= j < count && children[j].0 == (#[trigger] valued[i]).0 by {
            if i < shorter.len() {
                assert(valued[i] == shorter[i]);
                let j = choose|j: int| 0 <= j < count - 1 && children[j].0 == shorter[i].0;
                assert(0 <= j < count && children[j].0 == valued[i].0);
            } else {
                assert(children[count - 1].0 == valued[i].0);
            }
        }
    }
}

/// A clone has the shape of what it was made from.
pub proof fn lemma_clone_same_shape<V: Clone>(node: NodeView<V>, copy: NodeView<V>)
    requires
        node.cloned_as(copy),
    ensures
        node.same_shape(copy),
    decreases node,
{
    assert forall|i: int|
        #![trigger node.children[i]]
        #![trigger copy.children[i]]
        0 <= i < node.children.len() implies {
        &&& node.children[i].0 == copy.children[i].0
        &&& node.children[i].1.same_shape(copy.children[i].1)
    } by {
        lemma_clone_same_shape(node.children[i].1, copy.children[i].1);
    }
}

/// A node of the shape of a node without dead weight has none.
pub proof fn lemma_same_shape_no_dead_weight<V>(node: NodeView<V>, other: NodeView<V>)
    requires
        node.same_shape(other),
        node.no_dead_weight(),
    ensures
        other.no_dead_weight(),
    decreases node,
{
    assert forall|i: int| 0 <= i < other.children.len() implies {
        &&& !(#[trigger] other.children[i]).1.is_bare()
        &&& other.children[i].1.no_dead_weight()
    } by {
        assert(!node.children[i].1.is_bare());
        lemma_same_shape_no_dead_weight(node.children[i].1, other.children[i].1);
    }
}

/// A node of the shape of a well-formed node is well-formed.
pub proof fn lemma_same_shape_wf<V>(node: NodeView<V>, other: NodeView<V>)
    requires
        node.same_shape(other),
        node.wf(),
    ensures
        other.wf(),
    decreases node,
{
    assert(other.child_keys() =~= node.child_keys());
    assert forall|i: int| 0 <= i < other.children.len() implies (
    #[trigger] other.children[i]).1.wf() by {
        assert(node.children[i].1.wf());
        lemma_same_shape_wf(node.children[i].1, other.children[i].1);
    }
}

} // verus!

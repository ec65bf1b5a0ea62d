//! Folding a trie from its leaves towards its root: every node is visited
//! once, after all the nodes below it, and each visit gets what the visits of
//! the node's children gave.

use vstd::prelude::*;
use crate::segments::join;
use crate::view::NodeView;

verus! {

/// What a visitor is handed as the payload of a node.
pub open spec fn payload_of<V>(value: Option<&mut V>) -> Option<V> {
    match value {
        Some(payload) => Some(*payload),
        None => None,
    }
}

/// Makes one aggregate for a node out of its payload, its key and the
/// aggregates of its children.
pub trait VisitingAggregator<V, Agg>: Sized {
    /// The visitor can be handed a node with this payload and this key,
    /// together with these aggregates of its children. A visitor that does
    /// not say otherwise can be handed any node.
    open spec fn accepts(&self, value: Option<V>, key: Seq<char>, memo: Seq<Agg>) -> bool {
        true
    }

    /// A visit of such a node can leave the visitor as `after` and the payload
    /// as `value_after`, and give `agg`. Of a visitor that does not say
    /// otherwise nothing is known.
    open spec fn yields(
        &self,
        value: Option<V>,
        key: Seq<char>,
        memo: Seq<Agg>,
        after: Self,
        value_after: Option<V>,
        agg: Agg,
    ) -> bool {
        true
    }

    /// Visits one node. What the visitor accepts before a visit it accepts
    /// after it too.
    fn visit(&mut self, value: Option<&mut V>, key: String, memo: Vec<Agg>) -> (agg: Agg)
        requires
            old(self).accepts(payload_of(value), key@, memo@),
        ensures
            old(self).yields(
                payload_of(value),
                key@,
                memo@,
                *final(self),
                (match value {
                    Some(payload) => Some(*final(payload)),
                    None => None,
                }),
                agg,
            ),
            forall|v: Option<V>, k: Seq<char>, m: Seq<Agg>|
                old(self).accepts(v, k, m) ==> #[trigger] final(self).accepts(v, k, m),
    ;
}

impl<V, Agg, F> VisitingAggregator<V, Agg> for F where
    F: Fn(Option<&mut V>, String, Vec<Agg>) -> Agg,
 {
    open spec fn accepts(&self, value: Option<V>, key: Seq<char>, memo: Seq<Agg>) -> bool {
        forall|payload: Option<&mut V>, k: String, m: Vec<Agg>|
            payload_of(payload) == value && k@ == key && m@ == memo ==> #[trigger] call_requires(
                *self,
                (payload, k, m),
            )
    }

    open spec fn yields(
        &self,
        value: Option<V>,
        key: Seq<char>,
        memo: Seq<Agg>,
        after: Self,
        value_after: Option<V>,
        agg: Agg,
    ) -> bool {
        &&& after == *self
        &&& exists|payload: Option<&mut V>, k: String, m: Vec<Agg>|
            payload_of(payload) == value && k@ == key && m@ == memo && #[trigger] call_ensures(
                *self,
                (payload, k, m),
                agg,
            )
    }

    fn visit(&mut self, value: Option<&mut V>, key: String, memo: Vec<Agg>) -> (agg: Agg) {
        self(value, key, memo)
    }
}

/// The visitor accepts the node `node` under `key` whatever its children
/// gave, and every node below it under the key that it is visited with.
pub open spec fn accepts_node<V, Agg, F: VisitingAggregator<V, Agg>>(
    visitor: F,
    node: NodeView<V>,
    key: Seq<char>,
) -> bool
    decreases node, 1nat,
{
    &&& forall|memo: Seq<Agg>| #[trigger] visitor.accepts(node.value, key, memo)
    &&& accepts_below(visitor, node, key)
}

/// The visitor accepts every node below `node`, which itself stands under
/// `key`, under the key that it is visited with.
pub open spec fn accepts_below<V, Agg, F: VisitingAggregator<V, Agg>>(
    visitor: F,
    node: NodeView<V>,
    key: Seq<char>,
) -> bool
    decreases node, 0nat,
{
    forall|i: int|
        0 <= i < node.children.len() ==> accepts_node(
            visitor,
            (#[trigger] node.children[i]).1,
            join(key, node.children[i].0),
        )
}

/// What happened at one node in the course of a fold, and at every node
/// below it.
pub struct Run<Agg, F> {
    /// The visitor before the first child was entered and after each child
    /// was left: one state more than there are children.
    pub states: Seq<F>,
    /// What happened at the children, in their order.
    pub below: Seq<Run<Agg, F>>,
    /// The visitor after the visit of this node.
    pub end: F,
    /// What the visit of this node gave.
    pub agg: Agg,
}

/// What the visits of the children gave, in their order.
pub open spec fn aggs_of<Agg, F>(runs: Seq<Run<Agg, F>>) -> Seq<Agg> {
    Seq::new(runs.len(), |i: int| runs[i].agg)
}

impl<Agg, F> Run<Agg, F> {
    /// The visitor before anything at or below this node was visited.
    pub open spec fn start(self) -> F {
        self.states[0]
    }

    /// The node `before` was visited under `key` after everything below it,
    /// with the aggregates of its children, and `after` is the node as that
    /// has left it.
    ///
    /// The children were visited one after the other in their order, each
    /// under its own segment joined to `key`, and each with the visitor as
    /// the one before had left it. A visit cannot add or remove a payload or
    /// a node, so `after` has the shape of `before`.
    pub open spec fn fits<V>(
        self,
        before: NodeView<V>,
        key: Seq<char>,
        after: NodeView<V>,
    ) -> bool where F: VisitingAggregator<V, Agg>

        decreases self,
    {
        &&& self.below.len() == before.children.len()
        &&& self.states.len() == before.children.len() + 1
        &&& after.children.len() == before.children.len()
        &&& forall|i: int|
            #![trigger self.below[i]]
            #![trigger after.children[i]]
            0 <= i < self.below.len() ==> {
                &&& after.children[i].0 == before.children[i].0
                &&& self.below[i].start() == self.states[i]
                &&& self.below[i].end == self.states[i + 1]
                &&& self.below[i].fits(
                    before.children[i].1,
                    join(key, before.children[i].0),
                    after.children[i].1,
                )
            }
        &&& after.value is Some <==> before.value is Some
        &&& self.states[self.below.len() as int].yields(
            before.value,
            key,
            aggs_of(self.below),
            self.end,
            after.value,
            self.agg,
        )
    }
}

/// The children of `before`, which itself stands under `key`, were visited
/// as `runs` say, one after the other in their order and each after
/// everything below it; `states` are the visitor before the first child and
/// after each of them, and `after` is the node as the visits have left it.
pub open spec fn runs_fit<V, Agg, F: VisitingAggregator<V, Agg>>(
    states: Seq<F>,
    runs: Seq<Run<Agg, F>>,
    before: NodeView<V>,
    key: Seq<char>,
    after: NodeView<V>,
) -> bool {
    &&& runs.len() == before.children.len()
    &&& states.len() == before.children.len() + 1
    &&& after.children.len() == before.children.len()
    &&& after.value == before.value
    &&& forall|i: int|
        #![trigger runs[i]]
        #![trigger after.children[i]]
        0 <= i < runs.len() ==> {
            &&& after.children[i].0 == before.children[i].0
            &&& runs[i].start() == states[i]
            &&& runs[i].end == states[i + 1]
            &&& runs[i].fits(
                before.children[i].1,
                join(key, before.children[i].0),
                after.children[i].1,
            )
        }
}

/// Visiting the nodes below `before`, which itself stands under `key`, can
/// take the visitor from `start` to `end`, leave the node as `after` and give
/// `aggs`, one aggregate for each child of `before`, in their order.
pub open spec fn folds<V, Agg, F: VisitingAggregator<V, Agg>>(
    start: F,
    before: NodeView<V>,
    key: Seq<char>,
    end: F,
    after: NodeView<V>,
    aggs: Seq<Agg>,
) -> bool {
    exists|states: Seq<F>, runs: Seq<Run<Agg, F>>|
        {
            &&& #[trigger] runs_fit(states, runs, before, key, after)
            &&& states[0] == start
            &&& states[runs.len() as int] == end
            &&& aggs_of(runs) == aggs
        }
}

/// Visiting the nodes below `before` and then `before` itself, under `key`,
/// can take the visitor from `start` to `end`, leave the node as `after` and
/// give `agg`.
pub open spec fn visits<V, Agg, F: VisitingAggregator<V, Agg>>(
    start: F,
    before: NodeView<V>,
    key: Seq<char>,
    end: F,
    after: NodeView<V>,
    agg: Agg,
) -> bool {
    exists|run: Run<Agg, F>|
        {
            &&& run.start() == start
            &&& #[trigger] run.fits(before, key, after)
            &&& run.end == end
            &&& run.agg == agg
        }
}

/// What a closure accepts and yields as a visitor is what it requires and
/// ensures as a function, of arguments with the payload, the key and the
/// aggregates in question; and a visit leaves the closure as it is.
pub proof fn lemma_closure_as_visitor<V, Agg, F: Fn(Option<&mut V>, String, Vec<Agg>) -> Agg>(
    closure: F,
    value: Option<V>,
    key: Seq<char>,
    memo: Seq<Agg>,
    after: F,
    value_after: Option<V>,
    agg: Agg,
)
    ensures
        closure.accepts(value, key, memo) <==> forall|
            payload: Option<&mut V>,
            k: String,
            m: Vec<Agg>,
        |
            payload_of(payload) == value && k@ == key && m@ == memo ==> #[trigger] call_requires(
                closure,
                (payload, k, m),
            ),
        closure.yields(value, key, memo, after, value_after, agg) <==> after == closure
            && exists|payload: Option<&mut V>, k: String, m: Vec<Agg>|
            payload_of(payload) == value && k@ == key && m@ == memo && #[trigger] call_ensures(
                closure,
                (payload, k, m),
                agg,
            ),
{
}

/// What one visitor accepts at and below a node, a visitor that accepts at
/// least as much accepts too.
pub proof fn lemma_accepts_more<V, Agg, F: VisitingAggregator<V, Agg>>(
    less: F,
    more: F,
    node: NodeView<V>,
    key: Seq<char>,
)
    requires
        forall|v: Option<V>, k: Seq<char>, m: Seq<Agg>|
            less.accepts(v, k, m) ==> #[trigger] more.accepts(v, k, m),
        accepts_node(less, node, key),
    ensures
        accepts_node(more, node, key),
    decreases node,
{
    assert forall|i: int| 0 <= i < node.children.len() implies accepts_node(
        more,
        (#[trigger] node.children[i]).1,
        join(key, node.children[i].0),
    ) by {
        lemma_accepts_more(less, more, node.children[i].1, join(key, node.children[i].0));
    }
    assert forall|memo: Seq<Agg>| #[trigger] more.accepts(node.value, key, memo) by {
        assert(less.accepts(node.value, key, memo));
    }
}

/// A visit leaves every node and every payload in its place.
pub proof fn lemma_fits_same_shape<V, Agg, F: VisitingAggregator<V, Agg>>(
    run: Run<Agg, F>,
    before: NodeView<V>,
    key: Seq<char>,
    after: NodeView<V>,
)
    requires
        run.fits(before, key, after),
    ensures
        before.same_shape(after),
    decreases run,
{
    assert forall|i: int|
        #![trigger before.children[i]]
        #![trigger after.children[i]]
        0 <= i < before.children.len() implies {
        &&& before.children[i].0 == after.children[i].0
        &&& before.children[i].1.same_shape(after.children[i].1)
    } by {
        lemma_fits_same_shape(
            run.below[i],
            before.children[i].1,
            join(key, before.children[i].0),
            after.children[i].1,
        );
    }
}

/// A fold leaves every node and every payload in its place, and the payload
/// of the node that it starts from as it is.
pub proof fn lemma_folds_same_shape<V, Agg, F: VisitingAggregator<V, Agg>>(
    start: F,
    before: NodeView<V>,
    key: Seq<char>,
    end: F,
    after: NodeView<V>,
    aggs: Seq<Agg>,
)
    requires
        folds(start, before, key, end, after, aggs),
    ensures
        before.same_shape(after),
        after.value == before.value,
        aggs.len() == before.children.len(),
{
    let (states, runs) = choose|states: Seq<F>, runs: Seq<Run<Agg, F>>|
        {
            &&& #[trigger] runs_fit(states, runs, before, key, after)
            &&& states[0] == start
            &&& states[runs.len() as int] == end
            &&& aggs_of(runs) == aggs
        };
    assert forall|i: int|
        #![trigger before.children[i]]
        #![trigger after.children[i]]
        0 <= i < before.children.len() implies {
        &&& before.children[i].0 == after.children[i].0
        &&& before.children[i].1.same_shape(after.children[i].1)
    } by {
        lemma_fits_same_shape(
            runs[i],
            before.children[i].1,
            join(key, before.children[i].0),
            after.children[i].1,
        );
    }
}

/// The visit of a node and of everything below it leaves every node and
/// every payload in its place.
pub proof fn lemma_visits_same_shape<V, Agg, F: VisitingAggregator<V, Agg>>(
    start: F,
    before: NodeView<V>,
    key: Seq<char>,
    end: F,
    after: NodeView<V>,
    agg: Agg,
)
    requires
        visits(start, before, key, end, after, agg),
    ensures
        before.same_shape(after),
{
    let run = choose|run: Run<Agg, F>|
        {
            &&& run.start() == start
            &&& #[trigger] run.fits(before, key, after)
            &&& run.end == end
            &&& run.agg == agg
        };
    lemma_fits_same_shape(run, before, key, after);
}

} // verus!

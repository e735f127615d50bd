//! What graph a batch of samples is typed as.
//!
//! A record is expanded field by field, last field first. The values of a
//! field fall into runs of one kind; a run becomes one node, or the nodes of
//! the string classifier. The elements of the arrays of a run are typed
//! under the array node, last run first. The records that a field holds are
//! expanded once all the fields of the record around them stand in the
//! graph, the last one found first.
use crate::casing::pascal_case;
use crate::classify::{classified, texts_of};
use crate::items::{fields_of, grouped, pairs_of, values_of, ItemEntryView};
use crate::typing::TypingNodeView;
use crate::value::{Kind, ValueView};
use vstd::prelude::*;

verus! {

/// The nodes and the edges of a typing graph.
pub struct GraphView {
    /// The shapes, by node index.
    pub nodes: Seq<TypingNodeView>,
    /// The edges as (source, target), in the order they were added.
    pub edges: Seq<(usize, usize)>,
}

/// Values that wait to be typed under a node.
pub struct Pending {
    pub parent: usize,
    pub values: Seq<ValueView>,
}

impl GraphView {
    /// The graph with one more node under `parent`.
    pub open spec fn attach(self, parent: usize, node: TypingNodeView) -> GraphView {
        GraphView { nodes: self.nodes.push(node), edges: self.edges.push((parent, self.nodes.len() as usize)) }
    }

    /// The graph with `nodes` under `parent`, in order.
    pub open spec fn attach_all(self, parent: usize, nodes: Seq<TypingNodeView>) -> GraphView
        decreases nodes.len(),
    {
        if nodes.len() == 0 {
            self
        } else {
            self.attach_all(parent, nodes.drop_last()).attach(parent, nodes.last())
        }
    }

    /// The record that an array or a field slot belongs to.
    pub open spec fn owner(node: TypingNodeView) -> Option<usize> {
        match node {
            TypingNodeView::Array { object_node, .. } => Some(object_node),
            TypingNodeView::ObjectEntry { object_node, .. } => Some(object_node),
            _ => None,
        }
    }

    /// The node that has the edge to `node`.
    pub open spec fn parent(self, node: int) -> int {
        self.edges[node - 1].0 as int
    }

    /// Node `b` is of a kind that may stand under its parent: a field slot
    /// under the record that it names as its owner; anything else under a
    /// field slot or an array, an array with the owner of that parent.
    pub open spec fn fits(self, b: int) -> bool {
        let a = self.parent(b);
        match self.nodes[b] {
            TypingNodeView::ObjectEntry { object_node, .. } => object_node == a && self.nodes[a] is Object,
            TypingNodeView::Array { object_node, .. } => {
                &&& self.nodes[a] is ObjectEntry || self.nodes[a] is Array
                &&& Self::owner(self.nodes[a]) == Some(object_node)
                &&& object_node < b
                &&& self.nodes[object_node as int] is Object
            },
            _ => self.nodes[a] is ObjectEntry || self.nodes[a] is Array,
        }
    }

    /// The graph is a tree rooted in the record at node 0: every other
    /// node has one edge to it, added right after the node and coming from
    /// an earlier node of a kind that it fits under.
    pub open spec fn wf(self) -> bool {
        &&& 1 <= self.nodes.len()
        &&& self.nodes[0] is Object
        &&& self.edges.len() == self.nodes.len() - 1
        &&& forall|i: int|
            0 <= i < self.edges.len() ==> (#[trigger] self.edges[i]).1 == i + 1 && self.edges[i].0 <= i
        &&& forall|b: int| 1 <= b < self.nodes.len() ==> #[trigger] self.fits(b)
    }
}

/// `node` is of a kind that may be attached under `parent`.
pub open spec fn can_hold(g: GraphView, parent: usize, node: TypingNodeView) -> bool {
    match node {
        TypingNodeView::ObjectEntry { object_node, .. } => object_node == parent && g.nodes[parent as int] is Object,
        TypingNodeView::Array { object_node, .. } => {
            &&& g.nodes[parent as int] is ObjectEntry || g.nodes[parent as int] is Array
            &&& GraphView::owner(g.nodes[parent as int]) == Some(object_node)
            &&& object_node < g.nodes.len()
            &&& g.nodes[object_node as int] is Object
        },
        _ => g.nodes[parent as int] is ObjectEntry || g.nodes[parent as int] is Array,
    }
}

/// `after` holds the nodes of `before`, and maybe more behind them.
pub open spec fn extends(before: GraphView, after: GraphView) -> bool {
    &&& before.nodes.len() <= after.nodes.len()
    &&& forall|i: int| 0 <= i < before.nodes.len() ==> after.nodes[i] == #[trigger] before.nodes[i]
}

/// Every record that waits in `stack` is a record node of `g`.
pub open spec fn objects_valid(g: GraphView, stack: Seq<Pending>) -> bool {
    forall|i: int|
        0 <= i < stack.len() ==> (#[trigger] stack[i]).parent < g.nodes.len() && g.nodes[stack[i].parent as int]
            is Object
}

/// Every run that waits in `stack` waits under a field slot or an array of
/// the record `owner`.
pub open spec fn runs_valid(g: GraphView, stack: Seq<Pending>, owner: usize) -> bool {
    forall|i: int|
        0 <= i < stack.len() ==> {
            let parent = (#[trigger] stack[i]).parent;
            &&& parent < g.nodes.len()
            &&& g.nodes[parent as int] is ObjectEntry || g.nodes[parent as int] is Array
            &&& GraphView::owner(g.nodes[parent as int]) == Some(owner)
        }
}

/// A well-formed graph stays well-formed when a node is attached under a
/// node that can hold it.
pub proof fn lemma_attach_wf(g: GraphView, parent: usize, node: TypingNodeView)
    requires
        g.wf(),
        parent < g.nodes.len(),
        g.nodes.len() <= usize::MAX,
        can_hold(g, parent, node),
    ensures
        g.attach(parent, node).wf(),
        extends(g, g.attach(parent, node)),
{
    let after = g.attach(parent, node);
    assert(after.nodes[0] == g.nodes[0]);

    assert forall|i: int| 0 <= i < after.edges.len() implies (#[trigger] after.edges[i]).1 == i + 1
        && after.edges[i].0 <= i by {
        if i < g.edges.len() {
            assert(after.edges[i] == g.edges[i]);
        }
    }
    assert forall|b: int| 1 <= b < after.nodes.len() implies #[trigger] after.fits(b) by {
        if b < g.nodes.len() {
            assert(g.fits(b));
            assert(after.edges[b - 1] == g.edges[b - 1]);
            assert(g.edges[b - 1].0 <= b - 1);
            let a = g.parent(b);
            assert(after.parent(b) == a);
            assert(after.nodes[a] == g.nodes[a]);
            assert(after.nodes[b] == g.nodes[b]);
            match g.nodes[b] {
                TypingNodeView::Array { object_node, .. } => {
                    assert(after.nodes[object_node as int] == g.nodes[object_node as int]);
                },
                _ => {},
            }
        } else {
            assert(after.edges[b - 1] == (parent, g.nodes.len() as usize));
            assert(after.parent(b) == parent);
            assert(after.nodes[parent as int] == g.nodes[parent as int]);
            assert(after.nodes[b] == node);
            match node {
                TypingNodeView::Array { object_node, .. } => {
                    assert(after.nodes[object_node as int] == g.nodes[object_node as int]);
                },
                _ => {},
            }
        }
    }
}

/// How deep `value` nests: one for a value that holds no other.
pub open spec fn depth(value: ValueView) -> nat
    decreases value, 0nat,
{
    match value {
        ValueView::Array(elements) => 1 + depth_upto(elements, elements.len()),
        ValueView::Object(fields) => 1 + field_depth_upto(fields, fields.len()),
        _ => 1,
    }
}

/// The largest depth among the first `n` of `values`.
pub open spec fn depth_upto(values: Seq<ValueView>, n: nat) -> nat
    decreases values, n,
{
    if n == 0 || n > values.len() {
        0
    } else if depth(values[n - 1]) > depth_upto(values, (n - 1) as nat) {
        depth(values[n - 1])
    } else {
        depth_upto(values, (n - 1) as nat)
    }
}

/// The largest depth among the values of the first `n` of `fields`.
pub open spec fn field_depth_upto(fields: Seq<(Seq<char>, ValueView)>, n: nat) -> nat
    decreases fields, n,
{
    if n == 0 || n > fields.len() {
        0
    } else if depth(fields[n - 1].1) > field_depth_upto(fields, (n - 1) as nat) {
        depth(fields[n - 1].1)
    } else {
        field_depth_upto(fields, (n - 1) as nat)
    }
}

/// The largest depth among `values`, zero when there is none.
pub open spec fn depth_all(values: Seq<ValueView>) -> nat {
    depth_upto(values, values.len())
}

/// The largest depth among the values that wait in `stack`.
pub open spec fn stack_depth(stack: Seq<Pending>) -> nat
    decreases stack.len(),
{
    if stack.len() == 0 {
        0
    } else if depth_all(stack.last().values) > stack_depth(stack.drop_last()) {
        depth_all(stack.last().values)
    } else {
        stack_depth(stack.drop_last())
    }
}

/// None of `values` is deeper than `bound`.
pub open spec fn within(values: Seq<ValueView>, bound: int) -> bool {
    forall|i: int| 0 <= i < values.len() ==> depth(#[trigger] values[i]) <= bound
}

/// None of the values that wait in `stack` is deeper than `bound`.
pub open spec fn stack_within(stack: Seq<Pending>, bound: int) -> bool {
    forall|i: int| 0 <= i < stack.len() ==> within((#[trigger] stack[i]).values, bound)
}

/// The maximal runs of values of one kind, in order.
pub open spec fn runs(values: Seq<ValueView>) -> Seq<Seq<ValueView>>
    decreases values.len(),
{
    if values.len() == 0 {
        Seq::empty()
    } else {
        let before = runs(values.drop_last());
        if before.len() > 0 && before.last().len() > 0 && before.last().last().kind() == values.last().kind() {
            before.drop_last().push(before.last().push(values.last()))
        } else {
            before.push(seq![values.last()])
        }
    }
}

/// The elements of the arrays among `values`, in order.
pub open spec fn elements_of(values: Seq<ValueView>) -> Seq<ValueView>
    decreases values.len(),
{
    if values.len() == 0 {
        Seq::empty()
    } else {
        elements_of(values.drop_last()) + match values.last() {
            ValueView::Array(elements) => elements,
            _ => Seq::empty(),
        }
    }
}

/// Each of `groups` waiting under `parent`.
pub open spec fn pendings(parent: usize, groups: Seq<Seq<ValueView>>) -> Seq<Pending> {
    groups.map_values(|values: Seq<ValueView>| Pending { parent, values })
}

proof fn lemma_depth_upto(values: Seq<ValueView>, n: nat)
    requires
        n <= values.len(),
    ensures
        forall|i: int| 0 <= i < n ==> depth(#[trigger] values[i]) <= depth_upto(values, n),
        n > 0 ==> exists|i: int| 0 <= i < n && depth(values[i]) == depth_upto(values, n),
    decreases n,
{
    if n > 0 {
        lemma_depth_upto(values, (n - 1) as nat);
        if n > 1 && depth(values[n - 1]) <= depth_upto(values, (n - 1) as nat) {
            let i = choose|i: int| 0 <= i < n - 1 && depth(values[i]) == depth_upto(values, (n - 1) as nat);
            assert(depth(values[i]) == depth_upto(values, n));
        } else {
            assert(depth(values[n - 1]) == depth_upto(values, n));
        }
    }
}

proof fn lemma_field_depth_upto(fields: Seq<(Seq<char>, ValueView)>, n: nat)
    requires
        n <= fields.len(),
    ensures
        forall|i: int| 0 <= i < n ==> depth((#[trigger] fields[i]).1) <= field_depth_upto(fields, n),
    decreases n,
{
    if n > 0 {
        lemma_field_depth_upto(fields, (n - 1) as nat);
    }
}

/// No value is deeper than the deepest, and a bound on all of them bounds
/// the deepest.
pub proof fn lemma_depth_all(values: Seq<ValueView>)
    ensures
        within(values, depth_all(values) as int),
        forall|bound: int| 0 <= bound && #[trigger] within(values, bound) ==> depth_all(values) <= bound,
{
    lemma_depth_upto(values, values.len());
}

/// A bound on all the waiting values bounds the depth of the stack.
pub proof fn lemma_stack_depth(stack: Seq<Pending>, bound: int)
    requires
        0 <= bound,
        stack_within(stack, bound),
    ensures
        stack_depth(stack) <= bound,
    decreases stack.len(),
{
    if stack.len() > 0 {
        assert(stack_within(stack.drop_last(), bound)) by {
            assert forall|i: int| 0 <= i < stack.drop_last().len() implies within(
                (#[trigger] stack.drop_last()[i]).values,
                bound,
            ) by {
                assert(within(stack[i].values, bound));
            }
        }
        lemma_stack_depth(stack.drop_last(), bound);
        assert(within(stack[stack.len() - 1].values, bound));
        lemma_depth_all(stack.last().values);
    }
}

/// The runs hold nothing deeper than the values.
pub proof fn lemma_runs_within(values: Seq<ValueView>, bound: int)
    requires
        within(values, bound),
    ensures
        forall|r: int| 0 <= r < runs(values).len() ==> within(#[trigger] runs(values)[r], bound),
    decreases values.len(),
{
    if values.len() > 0 {
        let front = values.drop_last();
        let before = runs(front);
        assert(within(front, bound)) by {
            assert forall|i: int| 0 <= i < front.len() implies depth(#[trigger] front[i]) <= bound by {
                assert(depth(values[i]) <= bound);
            }
        }
        lemma_runs_within(front, bound);
        assert(depth(values[values.len() - 1]) <= bound);
        assert forall|r: int| 0 <= r < runs(values).len() implies within(#[trigger] runs(values)[r], bound) by {
            if r < runs(values).len() - 1 {
                assert(runs(values)[r] == before[r]);
            } else if before.len() > 0 && before.last().len() > 0 && before.last().last().kind()
                == values.last().kind() {
                let grown = before.last().push(values.last());
                assert(within(before[before.len() - 1], bound));
                assert forall|i: int| 0 <= i < grown.len() implies depth(#[trigger] grown[i]) <= bound by {
                    if i < grown.len() - 1 {
                        assert(depth(before.last()[i]) <= bound);
                    }
                }
            } else {
            }
        }
    }
}

/// The elements of arrays are less deep than the arrays.
pub proof fn lemma_elements_within(values: Seq<ValueView>, bound: int)
    requires
        within(values, bound),
    ensures
        within(elements_of(values), bound - 1),
    decreases values.len(),
{
    if values.len() > 0 {
        let front = values.drop_last();
        assert(within(front, bound)) by {
            assert forall|i: int| 0 <= i < front.len() implies depth(#[trigger] front[i]) <= bound by {
                assert(depth(values[i]) <= bound);
            }
        }
        lemma_elements_within(front, bound);
        assert(depth(values[values.len() - 1]) <= bound);
        let tail = match values.last() {
            ValueView::Array(elements) => elements,
            _ => Seq::empty(),
        };
        if values.last() is Array {
            lemma_depth_upto(tail, tail.len());
        }
        let out = elements_of(values);
        assert forall|i: int| 0 <= i < out.len() implies depth(#[trigger] out[i]) <= bound - 1 by {
            if i < elements_of(front).len() {
                assert(depth(elements_of(front)[i]) <= bound - 1);
            } else {
                assert(out[i] == tail[i - elements_of(front).len()]);
            }
        }
    }
}

/// The runs of the elements of a run wait less deep than the run is.
pub proof fn lemma_elements_shallower(parent: usize, run: Seq<ValueView>)
    requires
        run.len() > 0,
    ensures
        stack_depth(pendings(parent, runs(elements_of(run)))) < depth_all(run),
{
    let bound = depth_all(run) as int;
    lemma_depth_all(run);
    assert(depth(run[0]) <= bound);
    lemma_elements_within(run, bound);
    lemma_runs_within(elements_of(run), bound - 1);
    lemma_stack_depth(pendings(parent, runs(elements_of(run))), bound - 1);
}

proof fn lemma_pairs_within(samples: Seq<ValueView>, bound: int)
    requires
        within(samples, bound),
    ensures
        forall|i: int| 0 <= i < pairs_of(samples).len() ==> depth((#[trigger] pairs_of(samples)[i]).1) <= bound - 1,
    decreases samples.len(),
{
    if samples.len() > 0 {
        let front = samples.drop_last();
        assert(within(front, bound)) by {
            assert forall|i: int| 0 <= i < front.len() implies depth(#[trigger] front[i]) <= bound by {
                assert(depth(samples[i]) <= bound);
            }
        }
        lemma_pairs_within(front, bound);
        assert(depth(samples[samples.len() - 1]) <= bound);
        let tail = fields_of(samples.last());
        if samples.last() is Object {
            lemma_field_depth_upto(tail, tail.len());
        }
        let out = pairs_of(samples);
        assert forall|i: int| 0 <= i < out.len() implies depth((#[trigger] out[i]).1) <= bound - 1 by {
            if i < pairs_of(front).len() {
                assert(depth(pairs_of(front)[i].1) <= bound - 1);
            } else {
                assert(out[i] == tail[i - pairs_of(front).len()]);
            }
        }
    }
}

proof fn lemma_values_within(pairs: Seq<(Seq<char>, ValueView)>, key: Seq<char>, bound: int)
    requires
        forall|i: int| 0 <= i < pairs.len() ==> depth((#[trigger] pairs[i]).1) <= bound,
    ensures
        within(values_of(pairs, key), bound),
    decreases pairs.len(),
{
    if pairs.len() > 0 {
        let front = pairs.drop_last();
        assert forall|i: int| 0 <= i < front.len() implies depth((#[trigger] front[i]).1) <= bound by {
            assert(depth(pairs[i].1) <= bound);
        }
        lemma_values_within(front, key, bound);
        assert(depth(pairs[pairs.len() - 1].1) <= bound);
    }
}

/// The values of the fields of samples are less deep than the samples.
pub proof fn lemma_grouped_within(samples: Seq<ValueView>, bound: int)
    requires
        within(samples, bound),
    ensures
        forall|k: int| 0 <= k < grouped(samples).len() ==> within((#[trigger] grouped(samples)[k]).values, bound - 1),
{
    lemma_pairs_within(samples, bound);
    assert forall|k: int| 0 <= k < grouped(samples).len() implies within(
        (#[trigger] grouped(samples)[k]).values,
        bound - 1,
    ) by {
        lemma_values_within(pairs_of(samples), grouped(samples)[k].key, bound - 1);
    }
}

/// What a run adds to the graph under `parent`, and the records that it
/// leaves waiting. `owner` is the record around the run and `key` the field
/// that holds it.
pub open spec fn expand_run(
    g: GraphView,
    owner: usize,
    key: Seq<char>,
    parent: usize,
    run: Seq<ValueView>,
    pattern: Seq<char>,
) -> (GraphView, Seq<Pending>)
    decreases depth_all(run), 0nat,
{
    if run.len() == 0 {
        (g, Seq::empty())
    } else {
        match run[0].kind() {
            Kind::Null => (g.attach(parent, TypingNodeView::Null), Seq::empty()),
            Kind::Bool => (g.attach(parent, TypingNodeView::Boolean), Seq::empty()),
            Kind::Number => (g.attach(parent, TypingNodeView::Number), Seq::empty()),
            Kind::String => (g.attach_all(parent, classified(texts_of(run), pattern)), Seq::empty()),
            Kind::Array => {
                proof {
                    lemma_elements_shallower(g.nodes.len() as usize, run);
                }
                drain_runs(
                    g.attach(parent, TypingNodeView::Array { object_node: owner, key }),
                    owner,
                    key,
                    pendings(g.nodes.len() as usize, runs(elements_of(run))),
                    pattern,
                )
            },
            Kind::Object => (
                g.attach(parent, TypingNodeView::Object(pascal_case(key))),
                seq![Pending { parent: g.nodes.len() as usize, values: run }],
            ),
        }
    }
}

/// What the runs of a stack add to the graph, the last one first, and the
/// records that they leave waiting, in the order they were found.
pub open spec fn drain_runs(g: GraphView, owner: usize, key: Seq<char>, stack: Seq<Pending>, pattern: Seq<char>) -> (
    GraphView,
    Seq<Pending>,
)
    decreases stack_depth(stack), 1 + stack.len(),
{
    if stack.len() == 0 {
        (g, Seq::empty())
    } else {
        let first = expand_run(g, owner, key, stack.last().parent, stack.last().values, pattern);
        let rest = drain_runs(first.0, owner, key, stack.drop_last(), pattern);
        (rest.0, first.1 + rest.1)
    }
}

/// What one field of the record `owner` adds to the graph: its slot, then
/// what the runs of its values add.
pub open spec fn expand_entry(g: GraphView, owner: usize, entry: ItemEntryView, pattern: Seq<char>) -> (
    GraphView,
    Seq<Pending>,
) {
    drain_runs(
        g.attach(
            owner,
            TypingNodeView::ObjectEntry { key: entry.key, optional: entry.optional, object_node: owner },
        ),
        owner,
        entry.key,
        pendings(g.nodes.len() as usize, runs(entry.values)),
        pattern,
    )
}

/// What the fields of the record `owner` add to the graph, the last field
/// first.
pub open spec fn expand_entries(g: GraphView, owner: usize, entries: Seq<ItemEntryView>, pattern: Seq<char>) -> (
    GraphView,
    Seq<Pending>,
)
    decreases entries.len(),
{
    if entries.len() == 0 {
        (g, Seq::empty())
    } else {
        let first = expand_entry(g, owner, entries.last(), pattern);
        let rest = expand_entries(first.0, owner, entries.drop_last(), pattern);
        (rest.0, first.1 + rest.1)
    }
}

/// The graph grows, and the records left waiting are no deeper than the
/// runs they were found in.
pub proof fn lemma_expand_run(
    g: GraphView,
    owner: usize,
    key: Seq<char>,
    parent: usize,
    run: Seq<ValueView>,
    pattern: Seq<char>,
    bound: int,
)
    requires
        within(run, bound),
    ensures
        expand_run(g, owner, key, parent, run, pattern).0.nodes.len() >= g.nodes.len(),
        stack_within(expand_run(g, owner, key, parent, run, pattern).1, bound),
    decreases depth_all(run), 0nat,
{
    if run.len() > 0 {
        match run[0].kind() {
            Kind::String => {
                lemma_attach_all_len(g, parent, classified(texts_of(run), pattern));
            },
            Kind::Array => {
                lemma_elements_shallower(g.nodes.len() as usize, run);
                lemma_elements_within(run, bound);
                lemma_runs_within(elements_of(run), bound - 1);
                let stack = pendings(g.nodes.len() as usize, runs(elements_of(run)));
                assert(stack_within(stack, bound));
                lemma_drain_runs(
                    g.attach(parent, TypingNodeView::Array { object_node: owner, key }),
                    owner,
                    key,
                    stack,
                    pattern,
                    bound,
                );
            },
            _ => {},
        }
    }
}

/// The graph grows, and the records left waiting are no deeper than the
/// stack.
pub proof fn lemma_drain_runs(
    g: GraphView,
    owner: usize,
    key: Seq<char>,
    stack: Seq<Pending>,
    pattern: Seq<char>,
    bound: int,
)
    requires
        stack_within(stack, bound),
    ensures
        drain_runs(g, owner, key, stack, pattern).0.nodes.len() >= g.nodes.len(),
        stack_within(drain_runs(g, owner, key, stack, pattern).1, bound),
    decreases stack_depth(stack), 1 + stack.len(),
{
    if stack.len() > 0 {
        let first = expand_run(g, owner, key, stack.last().parent, stack.last().values, pattern);
        assert(within(stack[stack.len() - 1].values, bound));
        lemma_expand_run(g, owner, key, stack.last().parent, stack.last().values, pattern, bound);
        assert(stack_within(stack.drop_last(), bound)) by {
            assert forall|i: int| 0 <= i < stack.drop_last().len() implies within(
                (#[trigger] stack.drop_last()[i]).values,
                bound,
            ) by {
                assert(within(stack[i].values, bound));
            }
        }
        lemma_drain_runs(first.0, owner, key, stack.drop_last(), pattern, bound);
        let rest = drain_runs(first.0, owner, key, stack.drop_last(), pattern);
        let found = first.1 + rest.1;
        assert forall|i: int| 0 <= i < found.len() implies within((#[trigger] found[i]).values, bound) by {
            if i < first.1.len() {
                assert(within(first.1[i].values, bound));
            } else {
                assert(within(rest.1[i - first.1.len()].values, bound));
            }
        }
    }
}

/// Attaching nodes adds as many nodes and as many edges.
pub proof fn lemma_attach_all_len(g: GraphView, parent: usize, nodes: Seq<TypingNodeView>)
    ensures
        g.attach_all(parent, nodes).nodes.len() == g.nodes.len() + nodes.len(),
        g.attach_all(parent, nodes).edges.len() == g.edges.len() + nodes.len(),
    decreases nodes.len(),
{
    if nodes.len() > 0 {
        lemma_attach_all_len(g, parent, nodes.drop_last());
    }
}

/// The graph grows, and the records left waiting are no deeper than the
/// values of the fields.
pub proof fn lemma_expand_entries(
    g: GraphView,
    owner: usize,
    entries: Seq<ItemEntryView>,
    pattern: Seq<char>,
    bound: int,
)
    requires
        forall|k: int| 0 <= k < entries.len() ==> within((#[trigger] entries[k]).values, bound),
    ensures
        expand_entries(g, owner, entries, pattern).0.nodes.len() >= g.nodes.len(),
        stack_within(expand_entries(g, owner, entries, pattern).1, bound),
    decreases entries.len(),
{
    if entries.len() > 0 {
        let entry = entries.last();
        assert(within(entries[entries.len() - 1].values, bound));
        lemma_runs_within(entry.values, bound);
        let slot = g.attach(
            owner,
            TypingNodeView::ObjectEntry { key: entry.key, optional: entry.optional, object_node: owner },
        );
        let stack = pendings(g.nodes.len() as usize, runs(entry.values));
        assert(stack_within(stack, bound));
        lemma_drain_runs(slot, owner, entry.key, stack, pattern, bound);
        let first = expand_entry(g, owner, entry, pattern);
        assert forall|k: int| 0 <= k < entries.drop_last().len() implies within(
            (#[trigger] entries.drop_last()[k]).values,
            bound,
        ) by {
            assert(within(entries[k].values, bound));
        }
        lemma_expand_entries(first.0, owner, entries.drop_last(), pattern, bound);
        let rest = expand_entries(first.0, owner, entries.drop_last(), pattern);
        let found = first.1 + rest.1;
        assert forall|i: int| 0 <= i < found.len() implies within((#[trigger] found[i]).values, bound) by {
            if i < first.1.len() {
                assert(within(first.1[i].values, bound));
            } else {
                assert(within(rest.1[i - first.1.len()].values, bound));
            }
        }
    }
}

/// The records that the fields of samples hold are less deep than the
/// samples.
pub proof fn lemma_nested_shallower(g: GraphView, node: usize, samples: Seq<ValueView>, pattern: Seq<char>)
    requires
        expand_entries(g, node, grouped(samples), pattern).1.len() > 0,
    ensures
        stack_depth(expand_entries(g, node, grouped(samples), pattern).1) < depth_all(samples),
{
    let bound = depth_all(samples) as int;
    lemma_depth_all(samples);
    lemma_grouped_within(samples, bound);
    lemma_expand_entries(g, node, grouped(samples), pattern, bound - 1);
    let found = expand_entries(g, node, grouped(samples), pattern).1;
    assert(within(found[0].values, bound - 1));
    if bound == 0 {
        assert(grouped(samples).len() > 0);
        assert(pairs_of(samples).len() > 0) by {
            if pairs_of(samples).len() == 0 {
                assert(grouped(samples).len() == 0);
            }
        }
        lemma_pairs_within(samples, bound);
        assert(depth(pairs_of(samples)[0].1) <= -1);
    }
    lemma_stack_depth(found, bound - 1);
}

/// The graph once the record `node` with these samples is expanded: its
/// fields first, then the records that those hold.
pub open spec fn expand_object(g: GraphView, node: usize, samples: Seq<ValueView>, pattern: Seq<char>) -> GraphView
    decreases depth_all(samples), 0nat,
{
    let expanded = expand_entries(g, node, grouped(samples), pattern);
    if expanded.1.len() == 0 {
        expanded.0
    } else {
        proof {
            lemma_nested_shallower(g, node, samples, pattern);
        }
        drain_objects(expanded.0, expanded.1, pattern)
    }
}

/// The graph once the records of a stack are expanded, the last one first.
pub open spec fn drain_objects(g: GraphView, stack: Seq<Pending>, pattern: Seq<char>) -> GraphView
    decreases stack_depth(stack), 1 + stack.len(),
{
    if stack.len() == 0 {
        g
    } else {
        drain_objects(
            expand_object(g, stack.last().parent, stack.last().values, pattern),
            stack.drop_last(),
            pattern,
        )
    }
}

/// Runs stacked on other runs are drained before them.
pub proof fn lemma_drain_runs_concat(
    g: GraphView,
    owner: usize,
    key: Seq<char>,
    below: Seq<Pending>,
    above: Seq<Pending>,
    pattern: Seq<char>,
)
    ensures
        drain_runs(g, owner, key, below + above, pattern) == ({
            let second = drain_runs(g, owner, key, above, pattern);
            let first = drain_runs(second.0, owner, key, below, pattern);
            (first.0, second.1 + first.1)
        }),
    decreases above.len(),
{
    let second = drain_runs(g, owner, key, above, pattern);
    let first = drain_runs(second.0, owner, key, below, pattern);
    if above.len() == 0 {
        assert(below + above =~= below);
        assert(second.1 + first.1 =~= first.1);
    } else {
        let whole = below + above;
        assert(whole.last() == above.last());
        assert(whole.drop_last() =~= below + above.drop_last());
        let top = expand_run(g, owner, key, above.last().parent, above.last().values, pattern);
        lemma_drain_runs_concat(top.0, owner, key, below, above.drop_last(), pattern);
        let inner = drain_runs(top.0, owner, key, above.drop_last(), pattern);
        assert(top.1 + (inner.1 + first.1) =~= (top.1 + inner.1) + first.1);
    }
}

/// Records stacked on other records are expanded before them.
pub proof fn lemma_drain_objects_concat(g: GraphView, below: Seq<Pending>, above: Seq<Pending>, pattern: Seq<char>)
    ensures
        drain_objects(g, below + above, pattern) == drain_objects(drain_objects(g, above, pattern), below, pattern),
    decreases above.len(),
{
    if above.len() == 0 {
        assert(below + above =~= below);
    } else {
        let whole = below + above;
        assert(whole.last() == above.last());
        assert(whole.drop_last() =~= below + above.drop_last());
        lemma_drain_objects_concat(
            expand_object(g, above.last().parent, above.last().values, pattern),
            below,
            above.drop_last(),
            pattern,
        );
    }
}

/// Typing a run never takes a node away.
pub proof fn lemma_expand_run_grows(
    g: GraphView,
    owner: usize,
    key: Seq<char>,
    parent: usize,
    run: Seq<ValueView>,
    pattern: Seq<char>,
)
    ensures
        expand_run(g, owner, key, parent, run, pattern).0.nodes.len() >= g.nodes.len(),
{
    lemma_depth_all(run);
    lemma_expand_run(g, owner, key, parent, run, pattern, depth_all(run) as int);
}

/// Draining runs never takes a node away.
pub proof fn lemma_drain_runs_grows(g: GraphView, owner: usize, key: Seq<char>, stack: Seq<Pending>, pattern: Seq<char>)
    ensures
        drain_runs(g, owner, key, stack, pattern).0.nodes.len() >= g.nodes.len(),
    decreases stack.len(),
{
    if stack.len() > 0 {
        lemma_expand_run_grows(g, owner, key, stack.last().parent, stack.last().values, pattern);
        let first = expand_run(g, owner, key, stack.last().parent, stack.last().values, pattern);
        lemma_drain_runs_grows(first.0, owner, key, stack.drop_last(), pattern);
    }
}

/// Typing fields never takes a node away.
pub proof fn lemma_expand_entries_grows(g: GraphView, owner: usize, entries: Seq<ItemEntryView>, pattern: Seq<char>)
    ensures
        expand_entries(g, owner, entries, pattern).0.nodes.len() >= g.nodes.len(),
    decreases entries.len(),
{
    if entries.len() > 0 {
        let entry = entries.last();
        let slot = g.attach(
            owner,
            TypingNodeView::ObjectEntry { key: entry.key, optional: entry.optional, object_node: owner },
        );
        lemma_drain_runs_grows(slot, owner, entry.key, pendings(g.nodes.len() as usize, runs(entry.values)), pattern);
        lemma_expand_entries_grows(expand_entry(g, owner, entry, pattern).0, owner, entries.drop_last(), pattern);
    }
}

/// Expanding a record never takes a node away.
pub proof fn lemma_expand_object_grows(g: GraphView, node: usize, samples: Seq<ValueView>, pattern: Seq<char>)
    ensures
        expand_object(g, node, samples, pattern).nodes.len() >= g.nodes.len(),
    decreases depth_all(samples), 0nat,
{
    let expanded = expand_entries(g, node, grouped(samples), pattern);
    lemma_expand_entries_grows(g, node, grouped(samples), pattern);
    if expanded.1.len() > 0 {
        lemma_nested_shallower(g, node, samples, pattern);
        lemma_drain_objects_grows(expanded.0, expanded.1, pattern);
    }
}

/// Expanding records never takes a node away.
pub proof fn lemma_drain_objects_grows(g: GraphView, stack: Seq<Pending>, pattern: Seq<char>)
    ensures
        drain_objects(g, stack, pattern).nodes.len() >= g.nodes.len(),
    decreases stack_depth(stack), 1 + stack.len(),
{
    if stack.len() > 0 {
        lemma_expand_object_grows(g, stack.last().parent, stack.last().values, pattern);
        lemma_drain_objects_grows(
            expand_object(g, stack.last().parent, stack.last().values, pattern),
            stack.drop_last(),
            pattern,
        );
    }
}

/// The graph that samples are typed as under the root record `name`.
pub open spec fn built(name: Seq<char>, samples: Seq<ValueView>, pattern: Seq<char>) -> GraphView {
    expand_object(
        GraphView { nodes: seq![TypingNodeView::Object(name)], edges: Seq::empty() },
        0,
        samples,
        pattern,
    )
}

} // verus!

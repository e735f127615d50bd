//! The typing graph: its nodes, and the builder that infers it from samples.
use crate::casing::to_pascal;
use crate::classify::{classified, classify_strings, lemma_classified_kinds, node_views, texts_of};
use crate::graph::{add_edge, add_node, graph_edges, graph_nodes, new_graph};
use crate::inference::{
    built, can_hold, drain_objects, drain_runs, elements_of, expand_entries, expand_entry, expand_object,
    expand_run, extends, lemma_attach_wf, lemma_drain_objects_concat, lemma_drain_objects_grows,
    lemma_drain_runs_concat, lemma_drain_runs_grows, objects_valid, pendings, runs, runs_valid, GraphView,
    Pending,
};
use crate::items::{grouped, item_views, ItemEntry, Items};
use crate::literal::{Literal, LiteralView};
use crate::regex::{compiles, number, number_pattern, NumberPattern};
use crate::settings::Settings;
use crate::strategy::Strategy;
use crate::tree::declarations;
use crate::value::{lemma_array_view, value_views, Kind, Value, ValueView};
use petgraph::graph::Graph;
use petgraph::Directed;
use vstd::prelude::*;
use vstd::string::StringExecFns;

verus! {

/// The graph of a typing: shapes as nodes, "is a possible occupant of" as
/// edges.
pub type TypingGraph = Graph<TypingNode, (), Directed, usize>;

/// One shape that a position takes.
#[derive(Debug, PartialEq, Eq, Clone)]
pub enum TypingNode {
    Null,
    Boolean,
    Number,
    String,
    /// An array position; `object_node` is the nearest enclosing record.
    Array { object_node: usize, key: String },
    Literal(Literal),
    /// A named record.
    Object(String),
    /// A field slot of the record `object_node`.
    ObjectEntry { key: String, optional: bool, object_node: usize },
}

/// The mathematical content of a [`TypingNode`].
pub enum TypingNodeView {
    Null,
    Boolean,
    Number,
    String,
    Array { object_node: usize, key: Seq<char> },
    Literal(LiteralView),
    Object(Seq<char>),
    ObjectEntry { key: Seq<char>, optional: bool, object_node: usize },
}

impl View for TypingNode {
    type V = TypingNodeView;

    open spec fn view(&self) -> TypingNodeView {
        match self {
            TypingNode::Null => TypingNodeView::Null,
            TypingNode::Boolean => TypingNodeView::Boolean,
            TypingNode::Number => TypingNodeView::Number,
            TypingNode::String => TypingNodeView::String,
            TypingNode::Array { object_node, key } => TypingNodeView::Array { object_node: *object_node, key: key@ },
            TypingNode::Literal(l) => TypingNodeView::Literal(l@),
            TypingNode::Object(name) => TypingNodeView::Object(name@),
            TypingNode::ObjectEntry { key, optional, object_node } => TypingNodeView::ObjectEntry {
                key: key@,
                optional: *optional,
                object_node: *object_node,
            },
        }
    }
}

/// A typing: the name of its root record and the graph of its shapes.
///
/// The graph of a typing is always well-formed: a tree of shapes under the
/// root record.
#[derive(Debug)]
pub struct Typing {
    pub(crate) name: String,
    pub(crate) graph: TypingGraph,
}

/// What went wrong.
#[derive(Debug, Hash, PartialEq, Eq, Clone, Copy, Structural)]
pub enum TypingError {
    /// The pattern of numeric tokens did not compile.
    Pattern,
    /// The strategy is not available.
    NotImplemented,
}

/// The nodes and the edges of `graph`.
pub open spec fn graph_view(graph: TypingGraph) -> GraphView {
    GraphView { nodes: graph_nodes(graph), edges: graph_edges(graph) }
}

impl View for Typing {
    type V = GraphView;

    closed spec fn view(&self) -> GraphView {
        graph_view(self.graph)
    }
}

/// The views of the groups of `groups`, in order.
pub open spec fn group_views(groups: Seq<Vec<Value>>) -> Seq<Seq<ValueView>> {
    Seq::new(groups.len(), |i: int| value_views(groups[i]@))
}

/// The views of the waiting values of `stack`, in order.
pub open spec fn pending_views(stack: Seq<(usize, Vec<Value>)>) -> Seq<Pending> {
    Seq::new(stack.len(), |i: int| Pending { parent: stack[i].0, values: value_views(stack[i].1@) })
}

/// Adds `node` to the graph with an edge from `parent`.
fn attach(graph: &mut TypingGraph, parent: usize, node: TypingNode) -> (index: usize)
    requires
        graph_view(*old(graph)).wf(),
        parent < graph_view(*old(graph)).nodes.len(),
        can_hold(graph_view(*old(graph)), parent, node@),
    ensures
        index == graph_view(*old(graph)).nodes.len(),
        graph_view(*final(graph)) == graph_view(*old(graph)).attach(parent, node@),
        graph_view(*final(graph)).wf(),
        extends(graph_view(*old(graph)), graph_view(*final(graph))),
{
    let ghost before = graph_view(*graph);
    let ghost shape = node@;
    let index = add_node(graph, node);
    add_edge(graph, parent, index);
    proof {
        lemma_attach_wf(before, parent, shape);
    }
    index
}

/// Splits values into maximal runs of one kind.
fn runs_of(values: Vec<Value>) -> (groups: Vec<Vec<Value>>)
    ensures
        group_views(groups@) == runs(value_views(values@)),
{
    let ghost raw = values@;
    let ghost all = value_views(values@);
    let mut groups: Vec<Vec<Value>> = Vec::new();
    let mut previous: Option<Kind> = None;
    assert(all.take(0) =~= Seq::<ValueView>::empty());
    assert(group_views(groups@) =~= runs(all.take(0)));
    for value in it: values
        invariant
            it.seq() == raw,
            all == value_views(raw),
            group_views(groups@) == runs(all.take(it.index())),
            match previous {
                None => groups.len() == 0,
                Some(kind) => groups.len() > 0 && group_views(groups@).last().len() > 0 && group_views(
                    groups@,
                ).last().last().kind() == kind,
            },
    {
        let ghost i = it.index();
        let ghost before = group_views(groups@);
        assert(all.take(i + 1).drop_last() == all.take(i));
        assert(all.take(i + 1).last() == value@);
        let kind = value.kind();
        let same = match previous {
            Some(earlier) => earlier == kind,
            None => false,
        };
        if same {
            let mut last = groups.pop().unwrap();
            assert(value_views(last@) == before.last());
            last.push(value);
            assert(value_views(last@) =~= before.last().push(value@));
            groups.push(last);
            assert(group_views(groups@) =~= before.drop_last().push(before.last().push(value@)));
        } else {
            let mut group: Vec<Value> = Vec::new();
            group.push(value);
            assert(value_views(group@) =~= seq![value@]);
            groups.push(group);
            assert(group_views(groups@) =~= before.push(seq![value@]));
        }
        previous = Some(kind);
    }
    assert(all.take(all.len() as int) == all);
    groups
}

/// Collects the elements of the arrays among values.
fn elements_in(values: Vec<Value>) -> (elements: Vec<Value>)
    ensures
        value_views(elements@) == elements_of(value_views(values@)),
{
    let ghost raw = values@;
    let ghost all = value_views(values@);
    let mut elements: Vec<Value> = Vec::new();
    assert(all.take(0) =~= Seq::<ValueView>::empty());
    assert(value_views(elements@) =~= elements_of(all.take(0)));
    for value in it: values
        invariant
            it.seq() == raw,
            all == value_views(raw),
            value_views(elements@) == elements_of(all.take(it.index())),
    {
        let ghost i = it.index();
        let ghost base = value_views(elements@);
        assert(all.take(i + 1).drop_last() == all.take(i));
        assert(all.take(i + 1).last() == value@);
        match value {
            Value::Array(inner) => {
                proof {
                    lemma_array_view(inner);
                }
                let ghost inner_raw = inner@;
                assert(value_views(inner_raw).take(0) =~= Seq::<ValueView>::empty());
                assert(value_views(elements@) =~= base + value_views(inner_raw).take(0));
                for element in et: inner
                    invariant
                        et.seq() == inner_raw,
                        value_views(elements@) == base + value_views(inner_raw).take(et.index()),
                {
                    let ghost before = value_views(elements@);
                    elements.push(element);
                    assert(value_views(elements@) =~= before.push(element@));
                    assert(value_views(inner_raw).take(et.index() + 1) =~= value_views(inner_raw).take(
                        et.index(),
                    ).push(element@));
                }
                assert(value_views(inner_raw).take(inner_raw.len() as int) == value_views(inner_raw));
            },
            _ => {
                assert(value_views(elements@) =~= base + Seq::<ValueView>::empty());
            },
        }
    }
    assert(all.take(all.len() as int) == all);
    elements
}

/// Stacks each of `groups` to wait under `parent`.
fn pend(stack: &mut Vec<(usize, Vec<Value>)>, parent: usize, groups: Vec<Vec<Value>>)
    ensures
        pending_views(final(stack)@) == pending_views(old(stack)@) + pendings(parent, group_views(groups@)),
{
    let ghost raw = groups@;
    let ghost base = pending_views(stack@);
    let ghost target = pendings(parent, group_views(groups@));
    assert(pending_views(stack@) =~= base + target.take(0));
    for group in it: groups
        invariant
            it.seq() == raw,
            target == pendings(parent, group_views(raw)),
            pending_views(stack@) == base + target.take(it.index()),
    {
        let ghost before = pending_views(stack@);
        let ghost waiting = Pending { parent, values: value_views(group@) };
        assert(target[it.index()] == waiting);
        stack.push((parent, group));
        assert(pending_views(stack@) =~= before.push(waiting));
        assert(target.take(it.index() + 1) =~= target.take(it.index()).push(waiting));
    }
    assert(target.take(target.len() as int) == target);
}

/// Types one field of the record `owner`: adds its slot and what the runs
/// of its values come to, and leaves the records that it holds to wait on
/// `node_items`.
fn expand_entry_into(
    graph: &mut TypingGraph,
    node_items: &mut Vec<(usize, Vec<Value>)>,
    owner: usize,
    entry: ItemEntry,
    number: &NumberPattern,
)
    requires
        graph_view(*old(graph)).wf(),
        owner < graph_view(*old(graph)).nodes.len(),
        graph_view(*old(graph)).nodes[owner as int] is Object,
        objects_valid(graph_view(*old(graph)), pending_views(old(node_items)@)),
    ensures
        graph_view(*final(graph)) == expand_entry(graph_view(*old(graph)), owner, entry@, number.source()).0,
        pending_views(final(node_items)@) == pending_views(old(node_items)@) + expand_entry(
            graph_view(*old(graph)),
            owner,
            entry@,
            number.source(),
        ).1,
        graph_view(*final(graph)).wf(),
        extends(graph_view(*old(graph)), graph_view(*final(graph))),
        objects_valid(graph_view(*final(graph)), pending_views(final(node_items)@)),
        graph_view(*final(graph)).nodes.len() > graph_view(*old(graph)).nodes.len(),
        final(node_items).len() - old(node_items).len() < graph_view(*final(graph)).nodes.len() - graph_view(
            *old(graph),
        ).nodes.len(),
{
    let ghost pattern = number.source();
    let ghost start = graph_view(*graph);
    let ghost waiting = pending_views(node_items@);
    let ghost goal = expand_entry(start, owner, entry@, pattern);
    let ghost items_before = node_items.len();
    let ItemEntry { key, values, optional } = entry;
    let slot = attach(graph, owner, TypingNode::ObjectEntry { key: key.clone(), optional, object_node: owner });
    let groups = runs_of(values);
    let mut stack: Vec<(usize, Vec<Value>)> = Vec::new();
    pend(&mut stack, slot, groups);
    assert(pending_views(stack@) =~= pendings(slot, runs(entry@.values)));
    assert(pending_views(node_items@) + goal.1 =~= waiting + goal.1);
    proof {
        lemma_drain_runs_grows(graph_view(*graph), owner, key@, pending_views(stack@), pattern);
    }
    while stack.len() > 0
        invariant
            pattern == number.source(),
            graph_view(*graph).wf(),
            extends(start, graph_view(*graph)),
            graph_view(*graph).nodes.len() > start.nodes.len(),
            owner < start.nodes.len(),
            start.nodes[owner as int] is Object,
            runs_valid(graph_view(*graph), pending_views(stack@), owner),
            objects_valid(graph_view(*graph), pending_views(node_items@)),
            drain_runs(graph_view(*graph), owner, key@, pending_views(stack@), pattern).0 == goal.0,
            pending_views(node_items@) + drain_runs(
                graph_view(*graph),
                owner,
                key@,
                pending_views(stack@),
                pattern,
            ).1 == waiting + goal.1,
            node_items.len() - items_before < graph_view(*graph).nodes.len() - start.nodes.len(),
            goal.0.nodes.len() >= graph_view(*graph).nodes.len(),
        decreases goal.0.nodes.len() - graph_view(*graph).nodes.len(), stack.len(),
    {
        let ghost current = graph_view(*graph);
        let ghost stacked = pending_views(stack@);
        let ghost listed = pending_views(node_items@);
        let (parent, run) = stack.pop().unwrap();
        let ghost run_view = value_views(run@);
        let ghost below = pending_views(stack@);
        assert(below =~= stacked.drop_last());
        assert(stacked.last() == (Pending { parent, values: run_view }));
        let ghost top = expand_run(current, owner, key@, parent, run_view, pattern);
        let ghost rest = drain_runs(top.0, owner, key@, below, pattern);
        assert(drain_runs(current, owner, key@, stacked, pattern) == (rest.0, top.1 + rest.1));
        assert(runs_valid(current, below, owner)) by {
            assert forall|i: int| 0 <= i < below.len() implies {
                let parent = (#[trigger] below[i]).parent;
                &&& parent < current.nodes.len()
                &&& current.nodes[parent as int] is ObjectEntry || current.nodes[parent as int] is Array
                &&& GraphView::owner(current.nodes[parent as int]) == Some(owner)
            } by {
                assert(below[i] == stacked[i]);
            }
        }
        assert(stacked[stacked.len() - 1].parent == parent);
        assert(current.nodes[owner as int] == start.nodes[owner as int]);
        if run.len() == 0 {
            assert(top.1 + rest.1 =~= rest.1);
        } else {
            assert(run_view[0] == run@[0]@);
            match run[0].kind() {
                Kind::Null => {
                    attach(graph, parent, TypingNode::Null);
                    assert(top.1 + rest.1 =~= rest.1);
                },
                Kind::Bool => {
                    attach(graph, parent, TypingNode::Boolean);
                    assert(top.1 + rest.1 =~= rest.1);
                },
                Kind::Number => {
                    attach(graph, parent, TypingNode::Number);
                    assert(top.1 + rest.1 =~= rest.1);
                },
                Kind::String => {
                    let nodes = classify_strings(&run, number);
                    let ghost shapes = node_views(nodes@);
                    let ghost raw = nodes@;
                    assert(shapes.take(0) =~= Seq::<TypingNodeView>::empty());
                    for node in it: nodes
                        invariant
                            it.seq() == raw,
                            shapes == node_views(raw),
                            shapes == classified(texts_of(run_view), pattern),
                            graph_view(*graph).wf(),
                            extends(current, graph_view(*graph)),
                            parent < current.nodes.len(),
                            current.nodes[parent as int] is ObjectEntry || current.nodes[parent as int] is Array,
                            graph_view(*graph) == current.attach_all(parent, shapes.take(it.index())),
                            graph_view(*graph).nodes.len() == current.nodes.len() + it.index(),
                    {
                        let ghost grown = graph_view(*graph);
                        assert(shapes.take(it.index() + 1).drop_last() == shapes.take(it.index()));
                        assert(shapes.take(it.index() + 1).last() == node@);
                        assert(node@ is Literal || node@ is String) by {
                            assert(node@ == shapes[it.index()]);
                            lemma_classified_kinds(texts_of(run_view), pattern, it.index());
                        }
                        assert(grown.nodes[parent as int] == current.nodes[parent as int]);
                        attach(graph, parent, node);
                    }
                    assert(shapes.take(shapes.len() as int) == shapes);
                    assert(raw.len() > 0);
                    assert(top.1 + rest.1 =~= rest.1);
                },
                Kind::Array => {
                    let array = attach(graph, parent, TypingNode::Array { object_node: owner, key: key.clone() });
                    let elements = elements_in(run);
                    let groups = runs_of(elements);
                    pend(&mut stack, array, groups);
                    proof {
                        let above = pendings(array, runs(elements_of(run_view)));
                        lemma_drain_runs_concat(graph_view(*graph), owner, key@, below, above, pattern);
                        assert(pending_views(stack@) == below + above);
                        assert(top == drain_runs(graph_view(*graph), owner, key@, above, pattern));
                    }
                },
                Kind::Object => {
                    let object = attach(graph, parent, TypingNode::Object(to_pascal(key.as_str())));
                    node_items.push((object, run));
                    assert(pending_views(node_items@) =~= listed.push(Pending { parent: object, values: run_view }));
                    assert(top.1 == seq![Pending { parent: object, values: run_view }]);
                    assert(listed.push(Pending { parent: object, values: run_view }) + rest.1 =~= listed + (top.1
                        + rest.1));
                },
            }
        }
        proof {
            let grown = graph_view(*graph);
            assert(extends(start, grown));
            assert(runs_valid(grown, pending_views(stack@), owner)) by {
                assert forall|i: int| 0 <= i < pending_views(stack@).len() implies {
                    let parent = (#[trigger] pending_views(stack@)[i]).parent;
                    &&& parent < grown.nodes.len()
                    &&& grown.nodes[parent as int] is ObjectEntry || grown.nodes[parent as int] is Array
                    &&& GraphView::owner(grown.nodes[parent as int]) == Some(owner)
                } by {
                    if i < below.len() {
                        assert(pending_views(stack@)[i] == below[i]);
                        assert(grown.nodes[below[i].parent as int] == current.nodes[below[i].parent as int]);
                    }
                }
            }
            assert(objects_valid(grown, pending_views(node_items@))) by {
                assert forall|i: int| 0 <= i < pending_views(node_items@).len() implies (
                #[trigger] pending_views(node_items@)[i]).parent < grown.nodes.len() && grown.nodes[pending_views(
                    node_items@,
                )[i].parent as int] is Object by {
                    if i < listed.len() {
                        assert(pending_views(node_items@)[i] == listed[i]);
                        assert(grown.nodes[listed[i].parent as int] == current.nodes[listed[i].parent as int]);
                    }
                }
            }
            lemma_drain_runs_grows(grown, owner, key@, pending_views(stack@), pattern);
        }
    }
    assert(pending_views(node_items@) + Seq::<Pending>::empty() =~= pending_views(node_items@));
}

impl Typing {
    #[verifier::type_invariant]
    spec fn well_formed(self) -> bool {
        graph_view(self.graph).wf()
    }

    /// The name of the root record, as it was given.
    pub closed spec fn root_name(&self) -> Seq<char> {
        self.name@
    }

    /// A typing without samples: the root record `name` alone.
    pub fn new(name: &str) -> (typing: Self)
        ensures
            typing.root_name() == name@,
            typing@ == (GraphView { nodes: seq![TypingNodeView::Object(name@)], edges: Seq::empty() }),
    {
        let mut graph = new_graph();
        add_node(&mut graph, TypingNode::Object(String::from_str(name)));
        assert(graph_view(graph).nodes =~= seq![TypingNodeView::Object(name@)]);
        Self { name: String::from_str(name), graph }
    }

    /// The name of the root record, as it was given.
    pub fn name(&self) -> (name: &str)
        ensures
            name@ == self.root_name(),
    {
        self.name.as_str()
    }

    /// The graph of the typing, which is well-formed.
    pub fn graph(&self) -> (graph: &TypingGraph)
        ensures
            graph_view(*graph) == self@,
            self@.wf(),
    {
        proof {
            use_type_invariant(self);
        }
        &self.graph
    }

    /// Renders the typing with `strategy`. The family strategy is not
    /// available and fails.
    pub fn as_string(&self, strategy: Strategy, settings: &Settings) -> (out: Result<String, TypingError>)
        ensures
            match strategy {
                Strategy::Tree => out matches Ok(text) && text@ == declarations(self@, settings@),
                Strategy::Family => out == Err::<String, TypingError>(TypingError::NotImplemented),
            },
    {
        strategy.to_string(self, settings)
    }

    /// Infers the typing of the samples under the root record `name`.
    ///
    /// Fails if and only if the pattern of numeric tokens does not compile.
    pub fn from_items(name: &str, items: Items) -> (typing: Result<Self, TypingError>)
        ensures
            typing is Ok <==> compiles(number_pattern()),
            match typing {
                Ok(typing) => {
                    &&& typing.root_name() == name@
                    &&& typing@ == built(name@, items@, number_pattern())
                    &&& typing@.wf()
                    &&& typing@.nodes[0] == TypingNodeView::Object(name@)
                },
                Err(error) => error == TypingError::Pattern,
            },
    {
        match number() {
            Ok(pattern) => Ok(Self::from_items_with(name, items, &pattern)),
            Err(error) => Err(error),
        }
    }

    /// Infers the typing of the samples under the root record `name`, with
    /// `number` to find the numeric tokens of strings.
    pub fn from_items_with(name: &str, items: Items, number: &NumberPattern) -> (typing: Self)
        ensures
            typing.root_name() == name@,
            typing@ == built(name@, items@, number.source()),
            typing@.wf(),
            typing@.nodes[0] == TypingNodeView::Object(name@),
    {
        let ghost pattern = number.source();
        let ghost target = built(name@, items@, pattern);
        let mut graph = new_graph();
        let root = add_node(&mut graph, TypingNode::Object(String::from_str(name)));
        let ghost first = graph_view(graph);
        assert(first.nodes =~= seq![TypingNodeView::Object(name@)]);
        assert(first == GraphView { nodes: seq![TypingNodeView::Object(name@)], edges: Seq::empty() });
        let mut node_items: Vec<(usize, Vec<Value>)> = Vec::new();
        node_items.push((root, items.0));
        proof {
            let stack = pending_views(node_items@);
            assert(stack =~= seq![Pending { parent: 0usize, values: items@ }]);
            assert(stack.drop_last() =~= Seq::<Pending>::empty());
            assert(drain_objects(first, stack, pattern) == drain_objects(
                expand_object(first, 0, items@, pattern),
                stack.drop_last(),
                pattern,
            ));
            assert(drain_objects(first, stack, pattern) == target);
            lemma_drain_objects_grows(first, stack, pattern);
        }
        while node_items.len() > 0
            invariant
                pattern == number.source(),
                graph_view(graph).wf(),
                extends(first, graph_view(graph)),
                first.nodes[0] == TypingNodeView::Object(name@),
                objects_valid(graph_view(graph), pending_views(node_items@)),
                drain_objects(graph_view(graph), pending_views(node_items@), pattern) == target,
                target.nodes.len() >= graph_view(graph).nodes.len(),
            decreases target.nodes.len() - graph_view(graph).nodes.len(), node_items.len(),
        {
            let ghost current = graph_view(graph);
            let ghost stacked = pending_views(node_items@);
            let (node, values) = node_items.pop().unwrap();
            let ghost samples = value_views(values@);
            let ghost below = pending_views(node_items@);
            assert(below =~= stacked.drop_last());
            assert(stacked.last() == (Pending { parent: node, values: samples }));
            assert(stacked[stacked.len() - 1].parent == node);
            assert(objects_valid(current, below)) by {
                assert forall|i: int| 0 <= i < below.len() implies (#[trigger] below[i]).parent
                    < current.nodes.len() && current.nodes[below[i].parent as int] is Object by {
                    assert(below[i] == stacked[i]);
                }
            }
            let mut entries = Items(values).entries();
            let ghost all = item_views(entries@);
            let ghost goal = expand_entries(current, node, all, pattern);
            assert(pending_views(node_items@) + goal.1 =~= below + goal.1);
            while entries.len() > 0
                invariant
                    pattern == number.source(),
                    graph_view(graph).wf(),
                    extends(current, graph_view(graph)),
                    node < current.nodes.len(),
                    current.nodes[node as int] is Object,
                    objects_valid(graph_view(graph), pending_views(node_items@)),
                    expand_entries(graph_view(graph), node, item_views(entries@), pattern).0 == goal.0,
                    pending_views(node_items@) + expand_entries(
                        graph_view(graph),
                        node,
                        item_views(entries@),
                        pattern,
                    ).1 == below + goal.1,
                    node_items.len() - below.len() <= graph_view(graph).nodes.len() - current.nodes.len(),
                decreases entries.len(),
            {
                let ghost grown = graph_view(graph);
                let ghost listed = item_views(entries@);
                let ghost waiting = pending_views(node_items@);
                let entry = entries.pop().unwrap();
                assert(item_views(entries@) =~= listed.drop_last());
                assert(listed.last() == entry@);
                assert(grown.nodes[node as int] == current.nodes[node as int]);
                let ghost step = expand_entry(grown, node, entry@, pattern);
                let ghost rest = expand_entries(step.0, node, listed.drop_last(), pattern);
                assert(expand_entries(grown, node, listed, pattern) == (rest.0, step.1 + rest.1));
                expand_entry_into(&mut graph, &mut node_items, node, entry, number);
                assert((waiting + step.1) + rest.1 =~= waiting + (step.1 + rest.1));
            }
            proof {
                let done = graph_view(graph);
                assert(extends(first, done)) by {
                    assert forall|i: int| 0 <= i < first.nodes.len() implies done.nodes[i]
                        == #[trigger] first.nodes[i] by {
                        assert(current.nodes[i] == first.nodes[i]);
                    }
                }
                assert(item_views(entries@) =~= Seq::<crate::items::ItemEntryView>::empty());
                assert(done == goal.0);
                assert(pending_views(node_items@) =~= below + goal.1);
                assert(all == grouped(samples));
                if goal.1.len() == 0 {
                    assert(drain_objects(goal.0, goal.1, pattern) == goal.0);
                }
                assert(expand_object(current, node, samples, pattern) == drain_objects(goal.0, goal.1, pattern));
                lemma_drain_objects_concat(goal.0, below, goal.1, pattern);
                lemma_drain_objects_grows(done, pending_views(node_items@), pattern);
            }
        }
        Self { name: String::from_str(name), graph }
    }
}

/// The index of a record node.
#[derive(Debug, Hash, PartialEq, Eq, PartialOrd, Ord, Clone, Copy)]
pub struct ObjectNode(pub usize);

impl TypingNode {
    pub fn is_object_entry(&self) -> (b: bool)
        ensures
            b == (self is ObjectEntry),
    {
        match self {
            TypingNode::ObjectEntry { .. } => true,
            _ => false,
        }
    }

    pub fn is_array(&self) -> (b: bool)
        ensures
            b == (self is Array),
    {
        match self {
            TypingNode::Array { .. } => true,
            _ => false,
        }
    }

    pub fn is_object(&self) -> (b: bool)
        ensures
            b == (self is Object),
    {
        match self {
            TypingNode::Object(_) => true,
            _ => false,
        }
    }

    /// The name of a record node.
    pub fn as_object(&self) -> (name: Option<&str>)
        ensures
            match *self {
                TypingNode::Object(n) => name matches Some(s) && s@ == n@,
                _ => name is None,
            },
    {
        match self {
            TypingNode::Object(name) => Some(name.as_str()),
            _ => None,
        }
    }

    /// The key and the optionality of a field slot.
    pub fn as_object_entry(&self) -> (entry: Option<(&str, bool)>)
        ensures
            match *self {
                TypingNode::ObjectEntry { key, optional, .. } => entry matches Some(e) && e.0@ == key@
                    && e.1 == optional,
                _ => entry is None,
            },
    {
        match self {
            TypingNode::ObjectEntry { key, optional, object_node: _ } => Some((key.as_str(), *optional)),
            _ => None,
        }
    }
}

} // verus!

//! The tree strategy: every record is declared in the namespace of the
//! record that owns it.
//!
//! A node stands for a type. A scalar stands for its own name, a literal
//! for its text, a record for its name. A field or an array folds the
//! types of its children into one: `unknown` where there is none, the type
//! itself where there is one, else an alias in the namespace of the owning
//! record.
use crate::casing::{pascal_case, to_pascal};
use crate::graph::{
    ascending, neighbors, node_weight, reversed_topological_order, successors, successors_first,
};
use crate::inference::{built, expand_entries, GraphView};
use crate::interface::{
    field_key, field_order, field_views, interface_text, Interface, InterfaceEntry, InterfaceEntryView,
    InterfaceView,
};
use crate::items::{grouped, pairs_of, ItemEntryView};
use crate::namespace::{
    entry_views, lemma_bare_namespace, lemma_namespace_by_multiset, namespace_text, Namespace, NamespaceEntry,
    NamespaceEntryValue, NamespaceEntryValueView, NamespaceEntryView, NamespaceView,
};
use crate::order::lemma_sorted_prefix;
use crate::value::ValueView;
use crate::settings::{Settings, SettingsView};
use crate::text::views;
use crate::typing::{graph_view, Typing, TypingGraph, TypingNode, TypingNodeView};
use crate::union::{union_text, TypingUnion};
use std::collections::HashMap;
use vstd::multiset::Multiset;
use vstd::prelude::*;
use vstd::string::StringExecFns;

verus! {

broadcast use vstd::std_specs::hash::group_hash_axioms;

/// The nodes that `node` has an edge to, as the graph lists them.
pub open spec fn children(g: GraphView, node: usize) -> Seq<usize> {
    successors(g.edges, node)
}

/// The name of a record node.
pub open spec fn record_name(g: GraphView, node: usize) -> Seq<char> {
    match g.nodes[node as int] {
        TypingNodeView::Object(name) => name,
        _ => Seq::empty(),
    }
}

/// The record that owns a field slot or an array.
pub open spec fn owner_of(g: GraphView, node: usize) -> usize {
    match g.nodes[node as int] {
        TypingNodeView::Array { object_node, .. } => object_node,
        TypingNodeView::ObjectEntry { object_node, .. } => object_node,
        _ => 0,
    }
}

/// The key of a field slot or of the field that holds an array.
pub open spec fn key_of(g: GraphView, node: usize) -> Seq<char> {
    match g.nodes[node as int] {
        TypingNodeView::Array { key, .. } => key,
        TypingNodeView::ObjectEntry { key, .. } => key,
        _ => Seq::empty(),
    }
}

/// The name of the alias that a field or an array gets in the namespace of
/// its owner.
pub open spec fn alias_path(g: GraphView, node: usize) -> Seq<char> {
    record_name(g, owner_of(g, node)) + "."@ + pascal_case(key_of(g, node))
}

/// The type that stands for `node`.
pub open spec fn rendered(g: GraphView, s: SettingsView, node: usize) -> Seq<char>
    decreases g.nodes.len() - node,
{
    if node >= g.nodes.len() {
        Seq::empty()
    } else {
        match g.nodes[node as int] {
            TypingNodeView::Null => "null"@,
            TypingNodeView::Boolean => "boolean"@,
            TypingNodeView::Number => "number"@,
            TypingNodeView::String => "string"@,
            TypingNodeView::Literal(literal) => literal.text(s.string_delimiter),
            TypingNodeView::Object(name) => name,
            TypingNodeView::Array { .. } => {
                let kids = children(g, node);
                let alternatives = Seq::new(
                    kids.len(),
                    |i: int|
                        if node < kids[i] < g.nodes.len() {
                            qualified(g, node, kids[i], rendered(g, s, kids[i]))
                        } else {
                            Seq::empty()
                        },
                );
                if alternatives.len() == 0 {
                    "unknown"@
                } else if alternatives.len() == 1 {
                    alternatives[0]
                } else {
                    "Array<"@ + alias_path(g, node) + ">"@
                }
            },
            TypingNodeView::ObjectEntry { .. } => {
                let kids = children(g, node);
                let alternatives = Seq::new(
                    kids.len(),
                    |i: int|
                        if node < kids[i] < g.nodes.len() {
                            qualified(g, node, kids[i], rendered(g, s, kids[i]))
                        } else {
                            Seq::empty()
                        },
                );
                if alternatives.len() == 0 {
                    "unknown"@
                } else if alternatives.len() == 1 {
                    alternatives[0]
                } else {
                    alias_path(g, node)
                }
            },
        }
    }
}

/// The type of a child as its parent refers to it: a record by its path
/// in the namespace of the record that owns the parent.
pub open spec fn qualified(g: GraphView, parent: usize, child: usize, value: Seq<char>) -> Seq<char> {
    if g.nodes[child as int] is Object {
        record_name(g, owner_of(g, parent)) + "."@ + value
    } else {
        value
    }
}

/// The types of the children `kids` of a field or an array, as the parent
/// refers to them.
pub open spec fn members(g: GraphView, s: SettingsView, parent: usize, kids: Seq<usize>) -> Seq<Seq<char>> {
    Seq::new(kids.len(), |i: int| qualified(g, parent, kids[i], rendered(g, s, kids[i])))
}

/// Whether a field or an array needs an alias: if it has several members.
pub open spec fn needs_alias(g: GraphView, node: usize) -> bool {
    match g.nodes[node as int] {
        TypingNodeView::Array { .. } => children(g, node).len() > 1,
        TypingNodeView::ObjectEntry { .. } => children(g, node).len() > 1,
        _ => false,
    }
}

/// The alias of a field or an array, if it needs one: the union of its
/// members under its key in Pascal case.
pub open spec fn alias_entries(g: GraphView, s: SettingsView, node: usize) -> Seq<NamespaceEntryView> {
    if needs_alias(g, node) {
        seq![
            NamespaceEntryView {
                key: pascal_case(key_of(g, node)),
                value: NamespaceEntryValueView::Alias(
                    union_text(members(g, s, node, children(g, node)), s.indentation),
                ),
            },
        ]
    } else {
        Seq::empty()
    }
}

/// The field of a record that a slot stands for.
pub open spec fn field_of(g: GraphView, s: SettingsView, slot: usize) -> InterfaceEntryView {
    match g.nodes[slot as int] {
        TypingNodeView::ObjectEntry { key, optional, .. } => InterfaceEntryView {
            key,
            value: rendered(g, s, slot),
            optional,
        },
        _ => InterfaceEntryView { key: Seq::empty(), value: rendered(g, s, slot), optional: false },
    }
}

/// The fields of a record with the slots `kids`.
pub open spec fn fields(g: GraphView, s: SettingsView, kids: Seq<usize>) -> Seq<InterfaceEntryView> {
    Seq::new(kids.len(), |i: int| field_of(g, s, kids[i]))
}

/// The record of a record node, without the declarations around it.
pub open spec fn record_of(g: GraphView, s: SettingsView, node: usize) -> InterfaceView {
    InterfaceView {
        name: pascal_case(record_name(g, node)),
        extends: None,
        entries: fields(g, s, children(g, node)),
    }
}

/// The namespace of a record node: its record, and what the fields and
/// arrays that it owns have added, in the order in which `order` lists
/// them.
pub open spec fn namespace_of(g: GraphView, s: SettingsView, order: Seq<usize>, node: usize) -> NamespaceView
    decreases g.nodes.len() - node, order.len() + 1,
{
    NamespaceView {
        name: pascal_case(record_name(g, node)),
        interface: record_of(g, s, node),
        entries: owned(g, s, order, node, order.len()),
    }
}

/// What the first `k` nodes of `order` have added to the namespace of the
/// record `node`.
pub open spec fn owned(g: GraphView, s: SettingsView, order: Seq<usize>, node: usize, k: nat) -> Seq<
    NamespaceEntryView,
>
    decreases g.nodes.len() - node, k,
{
    if k == 0 || k > order.len() {
        Seq::empty()
    } else {
        let other = order[k - 1];
        owned(g, s, order, node, (k - 1) as nat) + if node < other < g.nodes.len() && GraphView::owner(
            g.nodes[other as int],
        ) == Some(node) {
            contribution(g, s, order, other)
        } else {
            Seq::empty()
        }
    }
}

/// What a field or an array adds to the namespace of its owner: the
/// namespaces of the records among its children, then its alias.
pub open spec fn contribution(g: GraphView, s: SettingsView, order: Seq<usize>, node: usize) -> Seq<
    NamespaceEntryView,
>
    decreases g.nodes.len() - node, children(g, node).len() + 1,
{
    nested(g, s, order, node, children(g, node).len()) + alias_entries(g, s, node)
}

/// The namespaces of the records among the first `i` children of `node`,
/// each rendered and named after its record.
pub open spec fn nested(g: GraphView, s: SettingsView, order: Seq<usize>, node: usize, i: nat) -> Seq<
    NamespaceEntryView,
>
    decreases g.nodes.len() - node, i,
{
    if i == 0 || i > children(g, node).len() {
        Seq::empty()
    } else {
        let child = children(g, node)[i - 1];
        nested(g, s, order, node, (i - 1) as nat) + if node < child < g.nodes.len() && g.nodes[child as int]
            is Object {
            seq![
                NamespaceEntryView {
                    key: record_name(g, child),
                    value: NamespaceEntryValueView::Namespace(
                        namespace_text(namespace_of(g, s, order, child), s.indentation, s.sort),
                    ),
                },
            ]
        } else {
            Seq::empty()
        }
    }
}

/// The declarations of a typing: the namespace of the root record and a
/// line break.
pub open spec fn tree_text(g: GraphView, s: SettingsView, order: Seq<usize>) -> Seq<char> {
    namespace_text(namespace_of(g, s, order, 0), s.indentation, s.sort) + "\n"@
}

/// `order` is a walk of a well-formed graph that lists children before
/// their parents.
pub open spec fn walk_ok(g: GraphView, order: Seq<usize>) -> bool {
    &&& g.wf()
    &&& successors_first(order, g.nodes.len(), g.edges)
}

/// The edges of a well-formed graph ascend.
pub proof fn lemma_wf_ascending(g: GraphView)
    requires
        g.wf(),
    ensures
        ascending(g.edges),
{
}

/// The children of a node of a well-formed graph are the nodes whose
/// parent it is, each once.
pub proof fn lemma_children(g: GraphView, node: usize, m: nat)
    requires
        g.wf(),
        m <= g.edges.len(),
    ensures
        successors(g.edges.take(m as int), node).no_duplicates(),
        forall|i: int|
            0 <= i < successors(g.edges.take(m as int), node).len() ==> {
                let child = #[trigger] successors(g.edges.take(m as int), node)[i];
                &&& 1 <= child <= m
                &&& node < child
                &&& g.parent(child as int) == node
            },
        forall|child: usize|
            1 <= child <= m && g.parent(child as int) == node ==> #[trigger] successors(
                g.edges.take(m as int),
                node,
            ).contains(child),
    decreases m,
{
    let edges = g.edges.take(m as int);
    if m > 0 {
        lemma_children(g, node, (m - 1) as nat);
        let front = g.edges.take(m - 1);
        assert(edges.drop_last() == front);
        assert(edges.last() == g.edges[m - 1]);
        let before = successors(front, node);
        let out = successors(edges, node);
        if edges.last().0 == node {
            let child = edges.last().1;
            assert(out == seq![child] + before);
            assert forall|i: int| 0 <= i < out.len() implies {
                let child = #[trigger] out[i];
                &&& 1 <= child <= m
                &&& node < child
                &&& g.parent(child as int) == node
            } by {
                if i > 0 {
                    assert(out[i] == before[i - 1]);
                }
            }
            assert forall|i: int, j: int| 0 <= i < out.len() && 0 <= j < out.len() && i != j implies out[i]
                != out[j] by {
                if i > 0 {
                    assert(out[i] == before[i - 1]);
                }
                if j > 0 {
                    assert(out[j] == before[j - 1]);
                }
            }
            assert forall|other: usize| 1 <= other <= m && g.parent(other as int) == node implies #[trigger] out.contains(
                other,
            ) by {
                if other == child {
                    assert(out[0] == other);
                } else {
                    assert(before.contains(other));
                    let i = before.index_of(other);
                    assert(out[i + 1] == other);
                }
            }
        } else {
            assert(out == before);
            assert forall|other: usize| 1 <= other <= m && g.parent(other as int) == node implies #[trigger] out.contains(
                other,
            ) by {
                if other == m {
                    assert(g.edges[m - 1].0 == node);
                } else {
                    assert(before.contains(other));
                }
            }
        }
    }
}

/// The position of a node in a walk.
pub open spec fn position(order: Seq<usize>, node: usize) -> int {
    order.index_of(node)
}

/// A walk lists a child before its parent.
pub proof fn lemma_child_before(g: GraphView, order: Seq<usize>, child: usize)
    requires
        walk_ok(g, order),
        1 <= child < g.nodes.len(),
    ensures
        order.contains(child),
        order.contains(g.parent(child as int) as usize),
        position(order, child) < position(order, g.parent(child as int) as usize),
{
    let parent = g.parent(child as int) as usize;
    lemma_wf_ascending(g);
    assert(g.edges[child - 1].1 == child);
    assert(order.contains(parent));
    let i = position(order, parent);
    assert(g.edges[child - 1].0 == order[i]);
    let j = choose|j: int| 0 <= j < i && order[j] == g.edges[child - 1].1;
    assert(order[j] == child);
    assert(position(order, child) == j) by {
        let p = position(order, child);
        assert(order[p] == child);
    }
}

/// A walk lists what a record owns before the record.
pub proof fn lemma_owned_before(g: GraphView, order: Seq<usize>, node: usize, record: usize)
    requires
        walk_ok(g, order),
        1 <= node < g.nodes.len(),
        GraphView::owner(g.nodes[node as int]) == Some(record),
    ensures
        record < node,
        order.contains(node),
        order.contains(record),
        position(order, node) < position(order, record),
    decreases node,
{
    assert(g.fits(node as int));
    let parent = g.parent(node as int) as usize;
    assert(g.edges[node - 1].0 <= node - 1);
    lemma_child_before(g, order, node);
    if g.nodes[node as int] is Array {
        assert(parent >= 1) by {
            if parent == 0 {
                assert(g.nodes[0] is Object);
            }
        }
        lemma_owned_before(g, order, parent, record);
    }
}

/// Once a walk has listed a record, later nodes add nothing to its
/// namespace.
pub proof fn lemma_owned_settled(g: GraphView, s: SettingsView, order: Seq<usize>, record: usize, k: nat, m: nat)
    requires
        walk_ok(g, order),
        order.contains(record),
        position(order, record) < k <= m <= order.len(),
    ensures
        owned(g, s, order, record, m) == owned(g, s, order, record, k),
    decreases m - k,
{
    if m > k {
        lemma_owned_settled(g, s, order, record, k, (m - 1) as nat);
        let other = order[m - 1];
        if record < other < g.nodes.len() && GraphView::owner(g.nodes[other as int]) == Some(record) {
            lemma_owned_before(g, order, other, record);
            let p = position(order, other);
            assert(order[p] == other);
            assert(p == m - 1);
        }
        assert(owned(g, s, order, record, m) =~= owned(g, s, order, record, (m - 1) as nat));
    }
}

/// The type that a field or an array folds its members into.
pub open spec fn folded(g: GraphView, s: SettingsView, node: usize) -> Seq<char> {
    let alternatives = members(g, s, node, children(g, node));
    match g.nodes[node as int] {
        TypingNodeView::Array { .. } => if alternatives.len() == 0 {
            "unknown"@
        } else if alternatives.len() == 1 {
            alternatives[0]
        } else {
            "Array<"@ + alias_path(g, node) + ">"@
        },
        _ => if alternatives.len() == 0 {
            "unknown"@
        } else if alternatives.len() == 1 {
            alternatives[0]
        } else {
            alias_path(g, node)
        },
    }
}

/// In a well-formed graph a field or an array stands for the fold of its
/// members.
pub proof fn lemma_rendered_fold(g: GraphView, s: SettingsView, node: usize)
    requires
        g.wf(),
        node < g.nodes.len(),
        g.nodes[node as int] is Array || g.nodes[node as int] is ObjectEntry,
    ensures
        rendered(g, s, node) == folded(g, s, node),
{
    let kids = children(g, node);
    lemma_children(g, node, g.edges.len());
    assert(g.edges.take(g.edges.len() as int) == g.edges);
    let guarded = Seq::new(
        kids.len(),
        |i: int|
            if node < kids[i] < g.nodes.len() {
                qualified(g, node, kids[i], rendered(g, s, kids[i]))
            } else {
                Seq::empty()
            },
    );
    assert(guarded =~= members(g, s, node, kids));
}

/// A field or an array with one member stands for that member and adds
/// no alias; unless the member is a record, whose namespace moves along,
/// it adds nothing at all to the namespace of its owner.
pub proof fn lemma_single_member(g: GraphView, s: SettingsView, order: Seq<usize>, node: usize)
    requires
        g.wf(),
        node < g.nodes.len(),
        g.nodes[node as int] is Array || g.nodes[node as int] is ObjectEntry,
        children(g, node).len() == 1,
    ensures
        rendered(g, s, node) == members(g, s, node, children(g, node))[0],
        alias_entries(g, s, node) == Seq::<NamespaceEntryView>::empty(),
        !(g.nodes[children(g, node)[0] as int] is Object) ==> contribution(g, s, order, node) == Seq::<
            NamespaceEntryView,
        >::empty(),
{
    lemma_rendered_fold(g, s, node);
    if !(g.nodes[children(g, node)[0] as int] is Object) {
        assert(nested(g, s, order, node, 0) =~= Seq::<NamespaceEntryView>::empty());
        assert(nested(g, s, order, node, 1) =~= Seq::<NamespaceEntryView>::empty());
        assert(contribution(g, s, order, node) =~= Seq::<NamespaceEntryView>::empty());
    }
}

/// A field or an array adds an alias only if it has several members.
pub proof fn lemma_alias_only_for_unions(g: GraphView, s: SettingsView, node: usize)
    requires
        alias_entries(g, s, node).len() > 0,
    ensures
        children(g, node).len() > 1,
        members(g, s, node, children(g, node)).len() > 1,
{
}

/// A field or an array without a member is `unknown` and adds nothing to
/// the namespace of its owner.
pub proof fn lemma_no_member(g: GraphView, s: SettingsView, order: Seq<usize>, node: usize)
    requires
        g.wf(),
        node < g.nodes.len(),
        g.nodes[node as int] is Array || g.nodes[node as int] is ObjectEntry,
        children(g, node).len() == 0,
    ensures
        rendered(g, s, node) == "unknown"@,
        contribution(g, s, order, node) == Seq::<NamespaceEntryView>::empty(),
{
    lemma_rendered_fold(g, s, node);
    assert(nested(g, s, order, node, 0) =~= Seq::<NamespaceEntryView>::empty());
    assert(contribution(g, s, order, node) =~= Seq::<NamespaceEntryView>::empty());
}

/// The first `k` nodes of `order` include `node`.
pub open spec fn done(order: Seq<usize>, k: nat, node: usize) -> bool {
    order.take(k as int).contains(node)
}

/// The parent of `node` is among the first `k` nodes of `order`.
pub open spec fn consumed(g: GraphView, order: Seq<usize>, k: nat, node: usize) -> bool {
    1 <= node < g.nodes.len() && done(order, k, g.parent(node as int) as usize)
}

/// A record without fields.
pub open spec fn bare_record(name: Seq<char>) -> InterfaceView {
    InterfaceView { name: pascal_case(name), extends: None, entries: Seq::empty() }
}

/// The type that the walk holds for `node` after `k` steps: that of a
/// node that it has visited and whose parent it has not.
pub open spec fn expected_value(g: GraphView, s: SettingsView, order: Seq<usize>, k: nat, node: usize) -> Option<
    Seq<char>,
> {
    if node < g.nodes.len() && done(order, k, node) && !consumed(g, order, k, node) {
        Some(rendered(g, s, node))
    } else {
        None
    }
}

/// The namespace that the walk holds for `node` after `k` steps.
pub open spec fn expected_namespace(g: GraphView, s: SettingsView, order: Seq<usize>, k: nat, node: usize) -> Option<
    NamespaceView,
> {
    if node < g.nodes.len() && g.nodes[node as int] is Object {
        if done(order, k, node) {
            if consumed(g, order, k, node) {
                None
            } else {
                Some(
                    NamespaceView {
                        name: pascal_case(record_name(g, node)),
                        interface: record_of(g, s, node),
                        entries: owned(g, s, order, node, k),
                    },
                )
            }
        } else {
            pending_namespace(g, node, owned(g, s, order, node, k))
        }
    } else {
        None
    }
}

/// The namespace of a record that the walk has not visited: none until an
/// entry has been added, then one around a bare record.
pub open spec fn pending_namespace(g: GraphView, node: usize, entries: Seq<NamespaceEntryView>) -> Option<
    NamespaceView,
> {
    if entries.len() > 0 {
        Some(
            NamespaceView {
                name: pascal_case(record_name(g, node)),
                interface: bare_record(record_name(g, node)),
                entries,
            },
        )
    } else {
        None
    }
}

/// The type that a table holds for `node`.
pub open spec fn value_at(values: Map<usize, String>, node: usize) -> Option<Seq<char>> {
    if values.contains_key(node) {
        Some(values[node]@)
    } else {
        None
    }
}

/// The namespace that a table holds for `node`.
pub open spec fn namespace_at(namespaces: Map<usize, Namespace>, node: usize) -> Option<NamespaceView> {
    if namespaces.contains_key(node) {
        Some(namespaces[node]@)
    } else {
        None
    }
}

/// The tables hold what the walk holds after `k` steps.
pub open spec fn tables_ok(
    g: GraphView,
    s: SettingsView,
    order: Seq<usize>,
    k: nat,
    values: Map<usize, String>,
    namespaces: Map<usize, Namespace>,
) -> bool {
    &&& forall|node: usize| #[trigger] value_at(values, node) == expected_value(g, s, order, k, node)
    &&& forall|node: usize| #[trigger] namespace_at(namespaces, node) == expected_namespace(g, s, order, k, node)
}

/// What a step of the walk changes: the node it visits is done, its
/// children are consumed, and nothing else moves.
pub proof fn lemma_step(g: GraphView, order: Seq<usize>, k: nat)
    requires
        walk_ok(g, order),
        k < order.len(),
    ensures
        order[k as int] < g.nodes.len(),
        !done(order, k, order[k as int]),
        !consumed(g, order, k + 1, order[k as int]),
        position(order, order[k as int]) == k,
        forall|y: usize| #[trigger] done(order, k + 1, y) <==> (y == order[k as int] || done(order, k, y)),
        children(g, order[k as int]).no_duplicates(),
        forall|i: int|
            0 <= i < children(g, order[k as int]).len() ==> {
                let child = #[trigger] children(g, order[k as int])[i];
                &&& order[k as int] < child < g.nodes.len()
                &&& g.parent(child as int) == order[k as int]
                &&& done(order, k, child)
                &&& !consumed(g, order, k, child)
                &&& position(order, child) < k
            },
        forall|y: usize|
            #[trigger] consumed(g, order, k + 1, y) <==> (consumed(g, order, k, y) || children(
                g,
                order[k as int],
            ).contains(y)),
{
    let node = order[k as int];
    let kids = children(g, node);
    assert(position(order, node) == k) by {
        let p = position(order, node);
        assert(order[p] == node);
    }
    assert(!done(order, k, node)) by {
        if done(order, k, node) {
            let j = order.take(k as int).index_of(node);
            assert(order[j] == node);
        }
    }
    assert(order.take(k as int + 1) =~= order.take(k as int).push(node));
    assert forall|y: usize| #[trigger] done(order, k + 1, y) <==> (y == node || done(order, k, y)) by {
        if done(order, k + 1, y) {
            let j = order.take(k as int + 1).index_of(y);
            if j < k {
                assert(order.take(k as int)[j] == y);
            }
        }
        if done(order, k, y) {
            let j = order.take(k as int).index_of(y);
            assert(order.take(k as int + 1)[j] == y);
        }
        if y == node {
            assert(order.take(k as int + 1)[k as int] == y);
        }
    }
    lemma_children(g, node, g.edges.len());
    assert(g.edges.take(g.edges.len() as int) == g.edges);
    assert forall|i: int| 0 <= i < kids.len() implies {
        let child = #[trigger] kids[i];
        &&& node < child < g.nodes.len()
        &&& g.parent(child as int) == node
        &&& done(order, k, child)
        &&& !consumed(g, order, k, child)
        &&& position(order, child) < k
    } by {
        let child = kids[i];
        lemma_child_before(g, order, child);
        let p = position(order, child);
        assert(order[p] == child);
        assert(order.take(k as int)[p] == child);
    }
    assert forall|y: usize| #[trigger] consumed(g, order, k + 1, y) <==> (consumed(g, order, k, y) || kids.contains(
        y,
    )) by {
        if kids.contains(y) {
            let i = kids.index_of(y);
            assert(kids[i] == y);
        }
        if 1 <= y < g.nodes.len() && g.parent(y as int) == node {
            assert(kids.contains(y));
        }
    }
    if node >= 1 {
        lemma_child_before(g, order, node);
        let parent = g.parent(node as int) as usize;
        if done(order, k + 1, parent) {
            let j = order.take(k as int + 1).index_of(parent);
            assert(order[j] == parent);
            let p = position(order, parent);
            assert(order[p] == parent);
        }
    }
}

/// What the step of a field or an array changes in the namespaces: its
/// owner, not yet visited, gets what the node adds.
pub proof fn lemma_owner_step(g: GraphView, s: SettingsView, order: Seq<usize>, k: nat)
    requires
        walk_ok(g, order),
        k < order.len(),
        order[k as int] < g.nodes.len(),
        g.nodes[order[k as int] as int] is Array || g.nodes[order[k as int] as int] is ObjectEntry,
    ensures
        owner_of(g, order[k as int]) < order[k as int],
        g.nodes[owner_of(g, order[k as int]) as int] is Object,
        !done(order, k + 1, owner_of(g, order[k as int])),
        !children(g, order[k as int]).contains(owner_of(g, order[k as int])),
        owned(g, s, order, owner_of(g, order[k as int]), k + 1) == owned(
            g,
            s,
            order,
            owner_of(g, order[k as int]),
            k,
        ) + contribution(g, s, order, order[k as int]),
        forall|y: usize|
            y != owner_of(g, order[k as int]) ==> #[trigger] owned(g, s, order, y, k + 1) == owned(g, s, order, y, k),
{
    let node = order[k as int];
    let owner = owner_of(g, node);
    assert(node >= 1) by {
        if node == 0 {
            assert(g.nodes[0] is Object);
        }
    }
    assert(g.fits(node as int));
    assert(g.edges[node - 1].0 <= node - 1);
    lemma_owned_before(g, order, node, owner);
    lemma_step(g, order, k);
    if done(order, k + 1, owner) {
        let j = order.take(k as int + 1).index_of(owner);
        assert(order[j] == owner);
        let p = position(order, owner);
        assert(order[p] == owner);
    }
    if children(g, node).contains(owner) {
        let i = children(g, node).index_of(owner);
        assert(children(g, node)[i] == owner);
    }
    assert forall|y: usize| y != owner implies #[trigger] owned(g, s, order, y, k + 1) == owned(g, s, order, y, k) by {
        assert(owned(g, s, order, y, k + 1) =~= owned(g, s, order, y, k));
    }
}

/// The step of a record or of a leaf adds nothing to any namespace, and a
/// leaf has no children.
pub proof fn lemma_plain_step(g: GraphView, s: SettingsView, order: Seq<usize>, k: nat)
    requires
        walk_ok(g, order),
        k < order.len(),
        order[k as int] < g.nodes.len(),
        !(g.nodes[order[k as int] as int] is Array || g.nodes[order[k as int] as int] is ObjectEntry),
    ensures
        forall|y: usize| #[trigger] owned(g, s, order, y, k + 1) == owned(g, s, order, y, k),
        !(g.nodes[order[k as int] as int] is Object) ==> children(g, order[k as int]).len() == 0,
        forall|i: int|
            0 <= i < children(g, order[k as int]).len() ==> g.nodes[(#[trigger] children(
                g,
                order[k as int],
            )[i]) as int] is ObjectEntry,
{
    let node = order[k as int];
    let kids = children(g, node);
    assert forall|y: usize| #[trigger] owned(g, s, order, y, k + 1) == owned(g, s, order, y, k) by {
        assert(owned(g, s, order, y, k + 1) =~= owned(g, s, order, y, k));
    }
    lemma_children(g, node, g.edges.len());
    assert(g.edges.take(g.edges.len() as int) == g.edges);
    assert forall|i: int| 0 <= i < kids.len() implies g.nodes[(#[trigger] kids[i]) as int] is ObjectEntry
        && g.nodes[node as int] is Object by {
        assert(g.fits(kids[i] as int));
    }
    if !(g.nodes[node as int] is Object) && kids.len() > 0 {
        assert(g.nodes[kids[0] as int] is ObjectEntry);
    }
}

/// The nodes from the last to the first.
pub open spec fn descending(n: nat) -> Seq<usize> {
    Seq::new(n, |i: int| (n - 1 - i) as usize)
}

/// The declarations of a typing: the namespace of its root record, in
/// which every record is declared in the namespace of the record that
/// owns it, and a line break.
pub open spec fn declarations(g: GraphView, s: SettingsView) -> Seq<char> {
    tree_text(g, s, descending(g.nodes.len()))
}

/// In a well-formed graph the nodes from the last to the first list
/// children before their parents.
pub proof fn lemma_descending_walk(g: GraphView)
    requires
        g.wf(),
    ensures
        walk_ok(g, descending(g.nodes.len())),
{
    let n = g.nodes.len();
    let order = descending(n);
    assert(n - 1 <= usize::MAX) by {
        if n >= 2 {
            assert(g.edges[n - 2].1 == n - 1);
        }
    }
    assert forall|i: int, e: int|
        0 <= i < order.len() && 0 <= e < g.edges.len() && (#[trigger] g.edges[e]).0 == (
        #[trigger] order[i]) implies exists|j: int| 0 <= j < i && order[j] == g.edges[e].1 by {
        let j = n - 2 - e;
        assert(g.edges[e].1 == e + 1);
        assert(order[j] == g.edges[e].1);
    }
    assert forall|node: usize| node < n implies #[trigger] order.contains(node) by {
        assert(order[n - 1 - node] == node);
    }
}

/// A node adds to the namespace of `record`.
pub open spec fn adds_to(g: GraphView, record: usize, node: int) -> bool {
    record < node < g.nodes.len() && GraphView::owner(g.nodes[node]) == Some(record)
}

/// All that the nodes below `upto` add to the namespace of `record`.
pub open spec fn total(g: GraphView, s: SettingsView, order: Seq<usize>, record: usize, upto: nat) -> Multiset<
    NamespaceEntryView,
>
    decreases upto,
{
    if upto == 0 {
        Multiset::empty()
    } else {
        total(g, s, order, record, (upto - 1) as nat).add(
            if adds_to(g, record, upto - 1) {
                contribution(g, s, order, (upto - 1) as usize).to_multiset()
            } else {
                Multiset::empty()
            },
        )
    }
}

/// All that those nodes below `upto` that are among the first `k` of
/// `order` add to the namespace of `record`.
pub open spec fn partial(g: GraphView, s: SettingsView, order: Seq<usize>, record: usize, upto: nat, k: nat) -> Multiset<
    NamespaceEntryView,
>
    decreases upto,
{
    if upto == 0 {
        Multiset::empty()
    } else {
        partial(g, s, order, record, (upto - 1) as nat, k).add(
            if adds_to(g, record, upto - 1) && done(order, k, (upto - 1) as usize) {
                contribution(g, s, order, (upto - 1) as usize).to_multiset()
            } else {
                Multiset::empty()
            },
        )
    }
}

proof fn lemma_partial_start(g: GraphView, s: SettingsView, order: Seq<usize>, record: usize, upto: nat)
    ensures
        partial(g, s, order, record, upto, 0) == Multiset::<NamespaceEntryView>::empty(),
    decreases upto,
{
    if upto > 0 {
        lemma_partial_start(g, s, order, record, (upto - 1) as nat);
        assert(order.take(0) =~= Seq::<usize>::empty());
        assert(partial(g, s, order, record, upto, 0) =~= Multiset::<NamespaceEntryView>::empty());
    }
}

proof fn lemma_partial_step(g: GraphView, s: SettingsView, order: Seq<usize>, record: usize, upto: nat, k: nat)
    requires
        walk_ok(g, order),
        k < order.len(),
        upto <= g.nodes.len(),
    ensures
        partial(g, s, order, record, upto, k + 1) == partial(g, s, order, record, upto, k).add(
            if order[k as int] < upto && adds_to(g, record, order[k as int] as int) {
                contribution(g, s, order, order[k as int]).to_multiset()
            } else {
                Multiset::empty()
            },
        ),
    decreases upto,
{
    lemma_step(g, order, k);
    if upto > 0 {
        lemma_partial_step(g, s, order, record, (upto - 1) as nat, k);
        let node = (upto - 1) as usize;
        assert(upto - 1 <= usize::MAX) by {
            if upto >= 2 {
                assert(g.edges[upto - 2].1 == upto - 1);
            }
        }
        assert(done(order, k + 1, node) <==> (node == order[k as int] || done(order, k, node)));
        assert(partial(g, s, order, record, upto, k + 1) =~= partial(g, s, order, record, upto, k).add(
            if order[k as int] < upto && adds_to(g, record, order[k as int] as int) {
                contribution(g, s, order, order[k as int]).to_multiset()
            } else {
                Multiset::empty()
            },
        ));
    } else {
        assert(partial(g, s, order, record, upto, k + 1) =~= partial(g, s, order, record, upto, k).add(
            Multiset::empty(),
        ));
    }
}

proof fn lemma_partial_full(g: GraphView, s: SettingsView, order: Seq<usize>, record: usize, upto: nat)
    requires
        walk_ok(g, order),
        upto <= g.nodes.len(),
    ensures
        partial(g, s, order, record, upto, order.len()) == total(g, s, order, record, upto),
    decreases upto,
{
    if upto > 0 {
        lemma_partial_full(g, s, order, record, (upto - 1) as nat);
        lemma_wf_ascending(g);
        assert(upto - 1 <= usize::MAX) by {
            if upto >= 2 {
                assert(g.edges[upto - 2].1 == upto - 1);
            }
        }
        assert(order.take(order.len() as int) == order);
        assert(order.contains((upto - 1) as usize));
    }
}

/// What a walk has added to the namespace of a record after `k` steps is
/// what the nodes that it has visited add.
proof fn lemma_owned_partial(g: GraphView, s: SettingsView, order: Seq<usize>, record: usize, k: nat)
    requires
        walk_ok(g, order),
        k <= order.len(),
    ensures
        owned(g, s, order, record, k).to_multiset() == partial(g, s, order, record, g.nodes.len(), k),
    decreases k,
{
    if k == 0 {
        lemma_partial_start(g, s, order, record, g.nodes.len());
        assert(owned(g, s, order, record, 0).to_multiset() =~= Multiset::<NamespaceEntryView>::empty()) by {
            broadcast use vstd::seq_lib::group_to_multiset_ensures;

        }
    } else {
        lemma_owned_partial(g, s, order, record, (k - 1) as nat);
        lemma_partial_step(g, s, order, record, g.nodes.len(), (k - 1) as nat);
        lemma_step(g, order, (k - 1) as nat);
        let node = order[k - 1];
        let before = owned(g, s, order, record, (k - 1) as nat);
        let extra = if record < node < g.nodes.len() && GraphView::owner(g.nodes[node as int]) == Some(record) {
            contribution(g, s, order, node)
        } else {
            Seq::empty()
        };
        assert(owned(g, s, order, record, k) == before + extra);
        vstd::seq_lib::lemma_multiset_commutative(before, extra);
        assert(Seq::<NamespaceEntryView>::empty().to_multiset() =~= Multiset::<NamespaceEntryView>::empty()) by {
            broadcast use vstd::seq_lib::group_to_multiset_ensures;

        }
    }
}

/// What the first `i` children of a node add does not depend on the walk.
proof fn lemma_nested_independent(
    g: GraphView,
    s: SettingsView,
    first: Seq<usize>,
    second: Seq<usize>,
    node: usize,
    i: nat,
)
    requires
        walk_ok(g, first),
        walk_ok(g, second),
        node < g.nodes.len(),
    ensures
        nested(g, s, first, node, i) == nested(g, s, second, node, i),
    decreases g.nodes.len() - node, i,
{
    if i > 0 && i <= children(g, node).len() {
        lemma_nested_independent(g, s, first, second, node, (i - 1) as nat);
        let child = children(g, node)[i - 1];
        if node < child < g.nodes.len() && g.nodes[child as int] is Object {
            lemma_namespace_independent(g, s, first, second, child);
        }
    }
}

/// What the nodes below `upto` add to the namespace of a record does not
/// depend on the walk.
proof fn lemma_total_independent(
    g: GraphView,
    s: SettingsView,
    first: Seq<usize>,
    second: Seq<usize>,
    record: usize,
    upto: nat,
)
    requires
        walk_ok(g, first),
        walk_ok(g, second),
        record < g.nodes.len(),
        upto <= g.nodes.len(),
    ensures
        total(g, s, first, record, upto) == total(g, s, second, record, upto),
    decreases g.nodes.len() - record, upto,
{
    if upto > 0 {
        lemma_total_independent(g, s, first, second, record, (upto - 1) as nat);
        if adds_to(g, record, upto - 1) {
            assert(upto - 1 <= usize::MAX) by {
                if upto >= 2 {
                    assert(g.edges[upto - 2].1 == upto - 1);
                }
            }
            let node = (upto - 1) as usize;
            lemma_nested_independent(g, s, first, second, node, children(g, node).len());
        }
    }
}

/// The text of the namespace of a record does not depend on the walk.
pub proof fn lemma_namespace_independent(
    g: GraphView,
    s: SettingsView,
    first: Seq<usize>,
    second: Seq<usize>,
    record: usize,
)
    requires
        walk_ok(g, first),
        walk_ok(g, second),
        record < g.nodes.len(),
    ensures
        namespace_text(namespace_of(g, s, first, record), s.indentation, s.sort) == namespace_text(
            namespace_of(g, s, second, record),
            s.indentation,
            s.sort,
        ),
    decreases g.nodes.len() - record, g.nodes.len() + 1,
{
    let n = g.nodes.len();
    lemma_owned_partial(g, s, first, record, first.len());
    lemma_owned_partial(g, s, second, record, second.len());
    lemma_partial_full(g, s, first, record, n);
    lemma_partial_full(g, s, second, record, n);
    lemma_total_independent(g, s, first, second, record, n);
    lemma_namespace_by_multiset(
        namespace_of(g, s, first, record),
        namespace_of(g, s, second, record),
        s.indentation,
        s.sort,
    );
}

/// The text of a typing does not depend on the walk: any order that lists
/// children before their parents gives the declarations.
pub proof fn lemma_walk_independent(g: GraphView, s: SettingsView, order: Seq<usize>)
    requires
        walk_ok(g, order),
    ensures
        tree_text(g, s, order) == declarations(g, s),
{
    lemma_descending_walk(g);
    lemma_namespace_independent(g, s, order, descending(g.nodes.len()), 0);
}

/// A graph of one record without fields is declared as that record alone,
/// without a namespace behind it.
pub proof fn lemma_lone_record(name: Seq<char>, s: SettingsView)
    ensures
        declarations(GraphView { nodes: seq![TypingNodeView::Object(name)], edges: Seq::empty() }, s)
            == "export interface "@ + pascal_case(name) + " {\n"@ + "}"@ + "\n"@,
{
    let g = GraphView { nodes: seq![TypingNodeView::Object(name)], edges: Seq::empty() };
    let order = descending(1);
    let namespace = namespace_of(g, s, order, 0);
    assert(children(g, 0) =~= Seq::<usize>::empty());
    assert(fields(g, s, children(g, 0)) =~= Seq::<InterfaceEntryView>::empty());
    assert(owned(g, s, order, 0, 0) =~= Seq::<NamespaceEntryView>::empty());
    assert(owned(g, s, order, 0, 1) =~= Seq::<NamespaceEntryView>::empty());
    lemma_bare_namespace(namespace, s.indentation, s.sort);
    lemma_sorted_prefix(
        namespace.interface.entries.map_values(|entry: InterfaceEntryView| field_key(entry)),
        0,
    );
    assert(field_order(namespace.interface.entries, s.sort) =~= Seq::<int>::empty());
    assert(interface_text(namespace.interface, s.indentation, s.sort) =~= "export interface "@ + pascal_case(name)
        + " {\n"@ + "}"@);
}

/// Without samples a typing is its root record alone, and is declared as
/// an empty record without a namespace behind it.
pub proof fn lemma_no_samples(name: Seq<char>, pattern: Seq<char>, s: SettingsView)
    ensures
        built(name, Seq::empty(), pattern) == (GraphView {
            nodes: seq![TypingNodeView::Object(name)],
            edges: Seq::empty(),
        }),
        declarations(built(name, Seq::empty(), pattern), s) == "export interface "@ + pascal_case(name) + " {\n"@
            + "}"@ + "\n"@,
{
    let g = GraphView { nodes: seq![TypingNodeView::Object(name)], edges: Seq::empty() };
    let samples = Seq::<ValueView>::empty();
    assert(pairs_of(samples) =~= Seq::<(Seq<char>, ValueView)>::empty());
    assert(grouped(samples) =~= Seq::<ItemEntryView>::empty());
    assert(expand_entries(g, 0, grouped(samples), pattern).1.len() == 0);
    lemma_lone_record(name, s);
}

/// Rendering is deterministic: graphs with the same nodes and edges have
/// the same declarations under the same settings.
pub proof fn lemma_deterministic(first: GraphView, second: GraphView, s: SettingsView, t: SettingsView)
    requires
        first.nodes == second.nodes,
        first.edges == second.edges,
        s == t,
    ensures
        declarations(first, s) == declarations(second, t),
{
    assert(first == second);
}

/// Takes the entry of `key` out of a table.
fn take<V>(table: &mut HashMap<usize, V>, key: usize) -> (entry: Option<V>)
    ensures
        final(table)@ == old(table)@.remove(key),
        match entry {
            Some(value) => old(table)@.contains_key(key) && old(table)@[key] == value,
            None => !old(table)@.contains_key(key),
        },
{
    table.remove(&key)
}

/// Takes the types of `kids` out of the table.
fn take_values(values: &mut HashMap<usize, String>, kids: &Vec<usize>) -> (taken: Vec<String>)
    requires
        kids@.no_duplicates(),
        forall|i: int| 0 <= i < kids.len() ==> old(values)@.contains_key(#[trigger] kids@[i]),
    ensures
        taken.len() == kids.len(),
        forall|i: int| 0 <= i < kids.len() ==> (#[trigger] taken@[i])@ == old(values)@[kids@[i]]@,
        forall|y: usize|
            #[trigger] value_at(final(values)@, y) == if kids@.contains(y) {
                None
            } else {
                value_at(old(values)@, y)
            },
{
    let mut taken: Vec<String> = Vec::new();
    let mut i: usize = 0;
    while i < kids.len()
        invariant
            i <= kids.len(),
            kids@.no_duplicates(),
            taken.len() == i,
            forall|j: int| 0 <= j < kids.len() ==> old(values)@.contains_key(#[trigger] kids@[j]),
            forall|j: int| 0 <= j < i ==> (#[trigger] taken@[j])@ == old(values)@[kids@[j]]@,
            forall|y: usize|
                #[trigger] value_at(values@, y) == if kids@.take(i as int).contains(y) {
                    None
                } else {
                    value_at(old(values)@, y)
                },
        decreases kids.len() - i,
    {
        let ghost before = values@;
        let kid = kids[i];
        assert(!kids@.take(i as int).contains(kid)) by {
            if kids@.take(i as int).contains(kid) {
                let j = kids@.take(i as int).index_of(kid);
                assert(kids@[j] == kid);
            }
        }
        assert(value_at(before, kid) == value_at(old(values)@, kid));
        match take(values, kid) {
            Some(value) => {
                taken.push(value);
            },
            None => {
                assert(false);
            },
        }
        assert(kids@.take(i + 1) =~= kids@.take(i as int).push(kid));
        assert forall|y: usize| #[trigger] value_at(values@, y) == if kids@.take(i + 1).contains(y) {
            None
        } else {
            value_at(old(values)@, y)
        } by {
            assert(value_at(before, y) == if kids@.take(i as int).contains(y) {
                None
            } else {
                value_at(old(values)@, y)
            });
            if kids@.take(i as int).contains(y) {
                let j = kids@.take(i as int).index_of(y);
                assert(kids@.take(i + 1)[j] == y);
            }
            if y == kid {
                assert(kids@.take(i + 1)[i as int] == y);
            }
            if kids@.take(i + 1).contains(y) && y != kid {
                let j = kids@.take(i + 1).index_of(y);
                assert(kids@.take(i as int)[j] == y);
            }
        }
        i = i + 1;
    }
    assert(kids@.take(kids.len() as int) == kids@);
    taken
}

/// Adds an entry to the namespace of `owner`, which is made if it is not
/// there yet.
fn add_entry(namespaces: &mut HashMap<usize, Namespace>, owner: usize, owner_name: &str, entry: NamespaceEntry)
    requires
        old(namespaces)@.contains_key(owner) ==> old(namespaces)@[owner]@.name == pascal_case(owner_name@)
            && old(namespaces)@[owner]@.interface == bare_record(owner_name@),
    ensures
        forall|y: usize|
            y != owner ==> #[trigger] namespace_at(final(namespaces)@, y) == namespace_at(old(namespaces)@, y),
        namespace_at(final(namespaces)@, owner) == Some(
            NamespaceView {
                name: pascal_case(owner_name@),
                interface: bare_record(owner_name@),
                entries: (match namespace_at(old(namespaces)@, owner) {
                    Some(home) => home.entries,
                    None => Seq::empty(),
                }).push(entry@),
            },
        ),
{
    let ghost before = namespaces@;
    let mut home = match take(namespaces, owner) {
        Some(home) => home,
        None => Namespace::new(owner_name),
    };
    let ghost entries = entry_views(home.entries@);
    home.entries.push(entry);
    assert(entry_views(home.entries@) =~= entries.push(entry@));
    namespaces.insert(owner, home);
    assert forall|y: usize| y != owner implies #[trigger] namespace_at(namespaces@, y) == namespace_at(before, y) by {}
}

/// The namespace that the owner of `node` holds once the first `i`
/// children of `node` are folded.
pub open spec fn home_namespace(g: GraphView, s: SettingsView, order: Seq<usize>, k: nat, node: usize, i: nat) -> Option<
    NamespaceView,
> {
    pending_namespace(
        g,
        owner_of(g, node),
        owned(g, s, order, owner_of(g, node), k) + nested(g, s, order, node, i),
    )
}

/// The namespaces hold what they held after `k` steps, but for the first
/// `i` children of `node`, which are folded into the namespace of its
/// owner.
pub open spec fn folding(
    g: GraphView,
    s: SettingsView,
    order: Seq<usize>,
    k: nat,
    node: usize,
    i: nat,
    namespaces: Map<usize, Namespace>,
) -> bool {
    forall|y: usize|
        #[trigger] namespace_at(namespaces, y) == if children(g, node).take(i as int).contains(y) {
            None
        } else if y == owner_of(g, node) {
            home_namespace(g, s, order, k, node, i)
        } else {
            expected_namespace(g, s, order, k, y)
        }
}

/// Folds one more child: the set of folded children grows by a child that
/// was not in it.
proof fn lemma_folding_grows(kids: Seq<usize>, i: nat)
    requires
        kids.no_duplicates(),
        i < kids.len(),
    ensures
        !kids.take(i as int).contains(kids[i as int]),
        forall|y: usize|
            #[trigger] kids.take(i as int + 1).contains(y) <==> (y == kids[i as int] || kids.take(i as int).contains(y)),
{
    let kid = kids[i as int];
    if kids.take(i as int).contains(kid) {
        let j = kids.take(i as int).index_of(kid);
        assert(kids[j] == kid);
    }
    assert(kids.take(i as int + 1) =~= kids.take(i as int).push(kid));
    assert forall|y: usize| #[trigger] kids.take(i as int + 1).contains(y) <==> (y == kid || kids.take(i as int).contains(
        y,
    )) by {
        if kids.take(i as int).contains(y) {
            let j = kids.take(i as int).index_of(y);
            assert(kids.take(i as int + 1)[j] == y);
        }
        if y == kid {
            assert(kids.take(i as int + 1)[i as int] == y);
        }
        if kids.take(i as int + 1).contains(y) && y != kid {
            let j = kids.take(i as int + 1).index_of(y);
            assert(kids.take(i as int)[j] == y);
        }
    }
}

/// Folds the child at position `i` of a field or an array: moves its
/// namespace, if it is a record, into the namespace of the owner, and
/// gives the type by which the node refers to it.
fn fold_child(
    graph: &TypingGraph,
    settings: &Settings,
    namespaces: &mut HashMap<usize, Namespace>,
    node: usize,
    kid: usize,
    text: &String,
    owner: usize,
    owner_name: &str,
    Ghost(order): Ghost<Seq<usize>>,
    Ghost(k): Ghost<nat>,
    Ghost(i): Ghost<nat>,
) -> (member: String)
    requires
        walk_ok(graph_view(*graph), order),
        k < order.len(),
        order[k as int] == node,
        node < graph_view(*graph).nodes.len(),
        graph_view(*graph).nodes[node as int] is Array || graph_view(*graph).nodes[node as int] is ObjectEntry,
        i < children(graph_view(*graph), node).len(),
        kid == children(graph_view(*graph), node)[i as int],
        text@ == rendered(graph_view(*graph), settings@, kid),
        owner == owner_of(graph_view(*graph), node),
        owner_name@ == record_name(graph_view(*graph), owner),
        folding(graph_view(*graph), settings@, order, k, node, i, old(namespaces)@),
    ensures
        member@ == qualified(graph_view(*graph), node, kid, rendered(graph_view(*graph), settings@, kid)),
        folding(graph_view(*graph), settings@, order, k, node, i + 1, final(namespaces)@),
{
    let ghost g = graph_view(*graph);
    let ghost s = settings@;
    let ghost kids = children(g, node);
    let ghost before = namespaces@;
    proof {
        lemma_step(g, order, k);
        lemma_owner_step(g, s, order, k);
        lemma_folding_grows(kids, i);
        assert(kids[i as int] == kid);
        assert(namespace_at(before, kid) == expected_namespace(g, s, order, k, kid));
    }
    match take(namespaces, kid) {
        Some(inner) => {
            assert(namespace_at(before, kid) == Some(inner@));
            assert(g.nodes[kid as int] is Object);
            proof {
                lemma_owned_settled(g, s, order, kid, k, order.len());
                assert(inner@ == namespace_of(g, s, order, kid));
            }
            let declaration = inner.to_string(settings);
            let mut path = String::from_str(owner_name);
            path.append(".");
            path.append(text.as_str());
            assert(path@ =~= qualified(g, node, kid, rendered(g, s, kid)));
            let ghost middle = namespaces@;
            assert(namespace_at(middle, owner) == namespace_at(before, owner));
            assert(namespace_at(before, owner) == home_namespace(g, s, order, k, node, i));
            add_entry(
                namespaces,
                owner,
                owner_name,
                NamespaceEntry::new(text.as_str(), NamespaceEntryValue::Namespace(declaration)),
            );
            proof {
                let entry = NamespaceEntryView {
                    key: record_name(g, kid),
                    value: NamespaceEntryValueView::Namespace(
                        namespace_text(namespace_of(g, s, order, kid), s.indentation, s.sort),
                    ),
                };
                assert(nested(g, s, order, node, i + 1) == nested(g, s, order, node, i) + seq![entry]);
                let held = owned(g, s, order, owner, k) + nested(g, s, order, node, i);
                assert(held.push(entry) =~= owned(g, s, order, owner, k) + nested(g, s, order, node, i + 1));
                assert forall|y: usize| #[trigger] namespace_at(namespaces@, y) == if kids.take(i as int + 1).contains(y) {
                    None
                } else if y == owner {
                    home_namespace(g, s, order, k, node, i + 1)
                } else {
                    expected_namespace(g, s, order, k, y)
                } by {
                    assert(namespace_at(before, y) == if kids.take(i as int).contains(y) {
                        None
                    } else if y == owner {
                        home_namespace(g, s, order, k, node, i)
                    } else {
                        expected_namespace(g, s, order, k, y)
                    });
                    assert(kids.take(i as int + 1).contains(y) <==> (y == kid || kids.take(i as int).contains(y)));
                    if y != owner {
                        assert(namespace_at(namespaces@, y) == namespace_at(middle, y));
                    }
                }
            }
            path
        },
        None => {
            assert(!(g.nodes[kid as int] is Object));
            proof {
                assert(nested(g, s, order, node, i + 1) =~= nested(g, s, order, node, i));
                assert forall|y: usize| #[trigger] namespace_at(namespaces@, y) == if kids.take(i as int + 1).contains(y) {
                    None
                } else if y == owner {
                    home_namespace(g, s, order, k, node, i + 1)
                } else {
                    expected_namespace(g, s, order, k, y)
                } by {
                    assert(namespace_at(before, y) == if kids.take(i as int).contains(y) {
                        None
                    } else if y == owner {
                        home_namespace(g, s, order, k, node, i)
                    } else {
                        expected_namespace(g, s, order, k, y)
                    });
                    assert(kids.take(i as int + 1).contains(y) <==> (y == kid || kids.take(i as int).contains(y)));
                }
            }
            text.clone()
        },
    }
}

/// Gives a field or an array its type from those of its members, and adds
/// the alias to the namespace of the owner if one is needed.
fn fold_alternatives(
    graph: &TypingGraph,
    settings: &Settings,
    namespaces: &mut HashMap<usize, Namespace>,
    node: usize,
    alternatives: Vec<String>,
    key: &String,
    is_array: bool,
    owner: usize,
    owner_name: &str,
    Ghost(order): Ghost<Seq<usize>>,
    Ghost(k): Ghost<nat>,
) -> (value: String)
    requires
        walk_ok(graph_view(*graph), order),
        k < order.len(),
        order[k as int] == node,
        node < graph_view(*graph).nodes.len(),
        graph_view(*graph).nodes[node as int] is Array || graph_view(*graph).nodes[node as int] is ObjectEntry,
        is_array == (graph_view(*graph).nodes[node as int] is Array),
        key@ == key_of(graph_view(*graph), node),
        views(alternatives@) == members(graph_view(*graph), settings@, node, children(graph_view(*graph), node)),
        owner == owner_of(graph_view(*graph), node),
        owner_name@ == record_name(graph_view(*graph), owner),
        folding(graph_view(*graph), settings@, order, k, node, children(graph_view(*graph), node).len(), old(namespaces)@),
    ensures
        value@ == rendered(graph_view(*graph), settings@, node),
        forall|y: usize|
            #[trigger] namespace_at(final(namespaces)@, y) == expected_namespace(
                graph_view(*graph),
                settings@,
                order,
                k + 1,
                y,
            ),
{
    let ghost g = graph_view(*graph);
    let ghost s = settings@;
    let ghost kids = children(g, node);
    let ghost before = namespaces@;
    let ghost folded_entries = owned(g, s, order, owner, k) + nested(g, s, order, node, kids.len());
    proof {
        lemma_step(g, order, k);
        lemma_owner_step(g, s, order, k);
        lemma_rendered_fold(g, s, node);
        assert(kids.take(kids.len() as int) == kids);
        assert(namespace_at(before, owner) == home_namespace(g, s, order, k, node, kids.len()));
    }
    let count = alternatives.len();
    let value = if count == 1 {
        alternatives[0].clone()
    } else if count == 0 {
        String::from_str("unknown")
    } else {
        let name = to_pascal(key.as_str());
        let union = TypingUnion::new(alternatives);
        let alias = union.to_string(settings.indentation.as_str());
        add_entry(namespaces, owner, owner_name, NamespaceEntry::new(name.as_str(), NamespaceEntryValue::Alias(alias)));
        let mut path = String::from_str(owner_name);
        path.append(".");
        path.append(name.as_str());
        assert(path@ =~= alias_path(g, node));
        proof {
            assert(alias_entries(g, s, node).len() == 1);
            assert(folded_entries.push(alias_entries(g, s, node)[0]) =~= folded_entries + alias_entries(g, s, node));
        }
        if is_array {
            let mut wrapped = String::from_str("Array<");
            wrapped.append(path.as_str());
            wrapped.append(">");
            wrapped
        } else {
            path
        }
    };
    proof {
        assert(value@ =~= folded(g, s, node));
        assert(folded_entries + alias_entries(g, s, node) =~= owned(g, s, order, owner, k) + contribution(
            g,
            s,
            order,
            node,
        ));
        if !needs_alias(g, node) {
            assert(folded_entries + alias_entries(g, s, node) =~= folded_entries);
        }
        assert forall|y: usize| #[trigger] namespace_at(namespaces@, y) == expected_namespace(
            g,
            s,
            order,
            k + 1,
            y,
        ) by {
            assert(namespace_at(before, y) == if kids.contains(y) {
                None
            } else if y == owner {
                home_namespace(g, s, order, k, node, kids.len())
            } else {
                expected_namespace(g, s, order, k, y)
            });
            assert(done(order, k + 1, y) <==> (y == node || done(order, k, y)));
            assert(consumed(g, order, k + 1, y) <==> (consumed(g, order, k, y) || kids.contains(y)));
            if kids.contains(y) {
                let j = kids.index_of(y);
                assert(kids[j] == y);
            } else if y == owner {
            } else {
                assert(owned(g, s, order, y, k + 1) == owned(g, s, order, y, k));
            }
        }
    }
    value
}

/// Folds the children of a field or an array: moves the namespaces of the
/// records among them into the namespace of the owner, adds the alias if
/// one is needed, and gives the type of the node.
fn fold_members(
    graph: &TypingGraph,
    settings: &Settings,
    namespaces: &mut HashMap<usize, Namespace>,
    node: usize,
    kids: &Vec<usize>,
    taken: Vec<String>,
    Ghost(order): Ghost<Seq<usize>>,
    Ghost(k): Ghost<nat>,
) -> (value: String)
    requires
        walk_ok(graph_view(*graph), order),
        k < order.len(),
        order[k as int] == node,
        node < graph_view(*graph).nodes.len(),
        graph_view(*graph).nodes[node as int] is Array || graph_view(*graph).nodes[node as int] is ObjectEntry,
        kids@ == children(graph_view(*graph), node),
        taken.len() == kids.len(),
        forall|i: int| 0 <= i < kids.len() ==> (#[trigger] taken@[i])@ == rendered(graph_view(*graph), settings@, kids@[i]),
        forall|y: usize|
            #[trigger] namespace_at(old(namespaces)@, y) == expected_namespace(graph_view(*graph), settings@, order, k, y),
    ensures
        value@ == rendered(graph_view(*graph), settings@, node),
        forall|y: usize|
            #[trigger] namespace_at(final(namespaces)@, y) == expected_namespace(
                graph_view(*graph),
                settings@,
                order,
                k + 1,
                y,
            ),
{
    let ghost g = graph_view(*graph);
    let ghost s = settings@;
    let (owner, key, is_array) = match node_weight(graph, node) {
        TypingNode::Array { object_node, key } => (*object_node, key, true),
        TypingNode::ObjectEntry { key, optional: _, object_node } => (*object_node, key, false),
        _ => {
            assert(false);
            return String::new();
        },
    };
    proof {
        lemma_owner_step(g, s, order, k);
    }
    let owner_name = match node_weight(graph, owner).as_object() {
        Some(name) => name,
        None => {
            assert(false);
            return String::new();
        },
    };
    let mut alternatives: Vec<String> = Vec::new();
    let mut i: usize = 0;
    assert(members(g, s, node, kids@.take(0)) =~= views(alternatives@));
    assert(folding(g, s, order, k, node, 0, namespaces@)) by {
        assert(kids@.take(0) =~= Seq::<usize>::empty());
        assert(owned(g, s, order, owner, k) + nested(g, s, order, node, 0) =~= owned(g, s, order, owner, k));
    }
    while i < kids.len()
        invariant
            i <= kids.len(),
            g == graph_view(*graph),
            s == settings@,
            walk_ok(g, order),
            k < order.len(),
            order[k as int] == node,
            node < g.nodes.len(),
            g.nodes[node as int] is Array || g.nodes[node as int] is ObjectEntry,
            owner == owner_of(g, node),
            owner_name@ == record_name(g, owner),
            kids@ == children(g, node),
            taken.len() == kids.len(),
            forall|j: int| 0 <= j < kids.len() ==> (#[trigger] taken@[j])@ == rendered(g, s, kids@[j]),
            views(alternatives@) == members(g, s, node, kids@.take(i as int)),
            folding(g, s, order, k, node, i as nat, namespaces@),
        decreases kids.len() - i,
    {
        let ghost listed = views(alternatives@);
        let kid = kids[i];
        let member = fold_child(
            graph,
            settings,
            namespaces,
            node,
            kid,
            &taken[i],
            owner,
            owner_name,
            Ghost(order),
            Ghost(k),
            Ghost(i as nat),
        );
        alternatives.push(member);
        assert(views(alternatives@) =~= listed.push(qualified(g, node, kid, rendered(g, s, kid))));
        assert(kids@.take(i + 1) =~= kids@.take(i as int).push(kid));
        assert(members(g, s, node, kids@.take(i + 1)) =~= members(g, s, node, kids@.take(i as int)).push(
            qualified(g, node, kid, rendered(g, s, kid)),
        ));
        i = i + 1;
    }
    assert(kids@.take(kids.len() as int) == kids@);
    fold_alternatives(
        graph,
        settings,
        namespaces,
        node,
        alternatives,
        key,
        is_array,
        owner,
        owner_name,
        Ghost(order),
        Ghost(k),
    )
}

/// Builds the record of a record node from the types of its slots and
/// puts it into the namespace of the node.
fn fold_record(
    graph: &TypingGraph,
    settings: &Settings,
    namespaces: &mut HashMap<usize, Namespace>,
    node: usize,
    kids: &Vec<usize>,
    taken: Vec<String>,
    Ghost(order): Ghost<Seq<usize>>,
    Ghost(k): Ghost<nat>,
) -> (value: String)
    requires
        walk_ok(graph_view(*graph), order),
        k < order.len(),
        order[k as int] == node,
        node < graph_view(*graph).nodes.len(),
        graph_view(*graph).nodes[node as int] is Object,
        kids@ == children(graph_view(*graph), node),
        taken.len() == kids.len(),
        forall|i: int| 0 <= i < kids.len() ==> (#[trigger] taken@[i])@ == rendered(graph_view(*graph), settings@, kids@[i]),
        forall|y: usize|
            #[trigger] namespace_at(old(namespaces)@, y) == expected_namespace(graph_view(*graph), settings@, order, k, y),
    ensures
        value@ == rendered(graph_view(*graph), settings@, node),
        forall|y: usize|
            #[trigger] namespace_at(final(namespaces)@, y) == expected_namespace(
                graph_view(*graph),
                settings@,
                order,
                k + 1,
                y,
            ),
{
    let ghost g = graph_view(*graph);
    let ghost s = settings@;
    let ghost before = namespaces@;
    proof {
        lemma_step(g, order, k);
        lemma_plain_step(g, s, order, k);
    }
    let name = match node_weight(graph, node).as_object() {
        Some(name) => name,
        None => {
            assert(false);
            return String::new();
        },
    };
    assert(name@ == record_name(g, node));
    let mut entries: Vec<InterfaceEntry> = Vec::new();
    let mut i: usize = 0;
    assert(field_views(entries@) =~= fields(g, s, kids@.take(0)));
    while i < kids.len()
        invariant
            i <= kids.len(),
            g == graph_view(*graph),
            s == settings@,
            node < g.nodes.len(),
            kids@ == children(g, node),
            taken.len() == kids.len(),
            forall|j: int| 0 <= j < kids.len() ==> (#[trigger] taken@[j])@ == rendered(g, s, kids@[j]),
            forall|j: int|
                0 <= j < kids.len() ==> node < (#[trigger] kids@[j]) < g.nodes.len() && g.nodes[kids@[j] as int]
                    is ObjectEntry,
            field_views(entries@) == fields(g, s, kids@.take(i as int)),
        decreases kids.len() - i,
    {
        let ghost listed = field_views(entries@);
        let kid = kids[i];
        assert(kids@[i as int] == kid);
        let (key, optional) = match node_weight(graph, kid).as_object_entry() {
            Some(slot) => slot,
            None => {
                assert(false);
                return String::new();
            },
        };
        let entry = InterfaceEntry { key: String::from_str(key), value: taken[i].clone(), optional };
        assert(entry@ == field_of(g, s, kid));
        entries.push(entry);
        assert(field_views(entries@) =~= listed.push(field_of(g, s, kid)));
        assert(kids@.take(i + 1) =~= kids@.take(i as int).push(kid));
        assert(fields(g, s, kids@.take(i + 1)) =~= fields(g, s, kids@.take(i as int)).push(field_of(g, s, kid)));
        i = i + 1;
    }
    assert(kids@.take(kids.len() as int) == kids@);
    let mut interface = Interface::new(name, None);
    interface.entries = entries;
    assert(interface@ == record_of(g, s, node));
    assert(namespace_at(before, node) == expected_namespace(g, s, order, k, node));
    let mut home = match take(namespaces, node) {
        Some(home) => home,
        None => Namespace::new(name),
    };
    let ghost held = entry_views(home.entries@);
    assert(held == owned(g, s, order, node, k));
    home.interface = interface;
    assert(entry_views(home.entries@) == held);
    namespaces.insert(node, home);
    proof {
        assert forall|y: usize| #[trigger] namespace_at(namespaces@, y) == expected_namespace(
            g,
            s,
            order,
            k + 1,
            y,
        ) by {
            assert(namespace_at(before, y) == expected_namespace(g, s, order, k, y));
            assert(done(order, k + 1, y) <==> (y == node || done(order, k, y)));
            assert(consumed(g, order, k + 1, y) <==> (consumed(g, order, k, y) || kids@.contains(y)));
            assert(owned(g, s, order, y, k + 1) == owned(g, s, order, y, k));
            if kids@.contains(y) {
                let j = kids@.index_of(y);
                assert(kids@[j] == y);
            }
        }
    }
    String::from_str(name)
}

/// One step of the walk: gives the node at position `k` its type, and
/// folds what its children held into it.
fn visit(
    graph: &TypingGraph,
    settings: &Settings,
    values: &mut HashMap<usize, String>,
    namespaces: &mut HashMap<usize, Namespace>,
    order: &Vec<usize>,
    k: usize,
)
    requires
        walk_ok(graph_view(*graph), order@),
        k < order.len(),
        tables_ok(graph_view(*graph), settings@, order@, k as nat, old(values)@, old(namespaces)@),
    ensures
        tables_ok(graph_view(*graph), settings@, order@, (k + 1) as nat, final(values)@, final(namespaces)@),
{
    let ghost g = graph_view(*graph);
    let ghost s = settings@;
    let ghost first = values@;
    let ghost held = namespaces@;
    let node = order[k];
    proof {
        lemma_step(g, order@, k as nat);
    }
    let kids = neighbors(graph, node);
    assert forall|i: int| 0 <= i < kids.len() implies first.contains_key(#[trigger] kids@[i]) by {
        assert(value_at(first, kids@[i]) == expected_value(g, s, order@, k as nat, kids@[i]));
    }
    let taken = take_values(values, &kids);
    assert forall|i: int| 0 <= i < kids.len() implies (#[trigger] taken@[i])@ == rendered(g, s, kids@[i]) by {
        assert(value_at(first, kids@[i]) == expected_value(g, s, order@, k as nat, kids@[i]));
    }
    let ghost middle = values@;
    let value = match node_weight(graph, node) {
        TypingNode::Null => String::from_str("null"),
        TypingNode::Boolean => String::from_str("boolean"),
        TypingNode::Number => String::from_str("number"),
        TypingNode::String => String::from_str("string"),
        TypingNode::Literal(literal) => literal.to_string(settings),
        TypingNode::Object(_) => fold_record(
            graph,
            settings,
            namespaces,
            node,
            &kids,
            taken,
            Ghost(order@),
            Ghost(k as nat),
        ),
        _ => fold_members(graph, settings, namespaces, node, &kids, taken, Ghost(order@), Ghost(k as nat)),
    };
    assert(value@ == rendered(g, s, node));
    values.insert(node, value);
    proof {
        assert forall|y: usize| #[trigger] value_at(values@, y) == expected_value(g, s, order@, (k + 1) as nat, y) by {
            assert(value_at(first, y) == expected_value(g, s, order@, k as nat, y));
            assert(value_at(middle, y) == if kids@.contains(y) {
                None
            } else {
                value_at(first, y)
            });
            assert(done(order@, (k + 1) as nat, y) <==> (y == node || done(order@, k as nat, y)));
            assert(consumed(g, order@, (k + 1) as nat, y) <==> (consumed(g, order@, k as nat, y) || kids@.contains(y)));
            if kids@.contains(y) {
                let j = kids@.index_of(y);
                assert(kids@[j] == y);
            }
        }
        if !(g.nodes[node as int] is Object || g.nodes[node as int] is Array || g.nodes[node as int] is ObjectEntry) {
            lemma_plain_step(g, s, order@, k as nat);
            assert forall|y: usize| #[trigger] namespace_at(namespaces@, y) == expected_namespace(
                g,
                s,
                order@,
                (k + 1) as nat,
                y,
            ) by {
                assert(namespace_at(held, y) == expected_namespace(g, s, order@, k as nat, y));
                assert(done(order@, (k + 1) as nat, y) <==> (y == node || done(order@, k as nat, y)));
                assert(consumed(g, order@, (k + 1) as nat, y) <==> (consumed(g, order@, k as nat, y)
                    || kids@.contains(y)));
                assert(owned(g, s, order@, y, (k + 1) as nat) == owned(g, s, order@, y, k as nat));
            }
        }
    }
}

/// Renders a typing, its nodes taken in the order `order`, which lists
/// children before their parents. Every such order gives the same text.
pub fn render_in_order(typing: &Typing, order: &Vec<usize>, settings: &Settings) -> (out: String)
    requires
        successors_first(order@, typing@.nodes.len(), typing@.edges),
    ensures
        out@ == declarations(typing@, settings@),
{
    let graph = typing.graph();
    let ghost g = typing@;
    let ghost s = settings@;
    let mut values: HashMap<usize, String> = HashMap::new();
    let mut namespaces: HashMap<usize, Namespace> = HashMap::new();
    assert forall|y: usize| #[trigger] value_at(values@, y) == expected_value(g, s, order@, 0, y) by {
        assert(order@.take(0) =~= Seq::<usize>::empty());
    }
    assert forall|y: usize| #[trigger] namespace_at(namespaces@, y) == expected_namespace(g, s, order@, 0, y) by {
        assert(order@.take(0) =~= Seq::<usize>::empty());
    }
    let mut k: usize = 0;
    while k < order.len()
        invariant
            k <= order.len(),
            g == graph_view(*graph),
            s == settings@,
            walk_ok(g, order@),
            tables_ok(g, s, order@, k as nat, values@, namespaces@),
        decreases order.len() - k,
    {
        visit(graph, settings, &mut values, &mut namespaces, order, k);
        k = k + 1;
    }
    proof {
        lemma_wf_ascending(g);
        assert(order@.take(order.len() as int) == order@);
        assert(order@.contains(0usize));
        assert(namespace_at(namespaces@, 0) == expected_namespace(g, s, order@, order.len() as nat, 0));
    }
    match take(&mut namespaces, 0) {
        Some(root) => {
            assert(root@ == namespace_of(g, s, order@, 0));
            proof {
                lemma_walk_independent(g, s, order@);
            }
            let mut out = root.to_string(settings);
            out.append("\n");
            out
        },
        None => {
            assert(false);
            String::new()
        },
    }
}

/// Renders a typing as nested declarations.
pub fn render_tree(typing: &Typing, settings: &Settings) -> (out: String)
    ensures
        out@ == declarations(typing@, settings@),
{
    let order = reversed_topological_order(typing.graph());
    render_in_order(typing, &order, settings)
}

} // verus!

//! Namespaces: a record with the declarations its fields need.
use crate::casing::{pascal_case, to_pascal};
use crate::interface::{interface_text, Interface, InterfaceEntryView, InterfaceView};
use crate::order::{
    arranged, indices, key_le, key_views, lemma_key_le_antisymmetric, lemma_key_le_total,
    lemma_key_le_transitive, lemma_sorted_arrangement, lemma_sorted_prefix, sort_order, sorted_order, SortKey,
    SortKeyView,
};
use crate::settings::Settings;
use crate::text::{chars_of, join, join_strings, views};
use crate::utils::{add_indentation, indented};
use vstd::prelude::*;
use vstd::string::StringExecFns;

verus! {

/// What a namespace entry declares.
#[derive(Debug, Hash, PartialOrd, Ord, PartialEq, Eq, Clone)]
pub enum NamespaceEntryValue {
    /// The right-hand side of a type alias.
    Alias(String),
    /// The rendered text of a nested namespace.
    Namespace(String),
}

/// The mathematical content of a [`NamespaceEntryValue`].
pub enum NamespaceEntryValueView {
    Alias(Seq<char>),
    Namespace(Seq<char>),
}

impl View for NamespaceEntryValue {
    type V = NamespaceEntryValueView;

    open spec fn view(&self) -> NamespaceEntryValueView {
        match self {
            NamespaceEntryValue::Alias(alias) => NamespaceEntryValueView::Alias(alias@),
            NamespaceEntryValue::Namespace(text) => NamespaceEntryValueView::Namespace(text@),
        }
    }
}

/// One named declaration of a namespace.
#[derive(Debug, Hash, PartialOrd, Ord, PartialEq, Eq, Clone)]
pub struct NamespaceEntry {
    pub key: String,
    pub value: NamespaceEntryValue,
}

/// The mathematical content of a [`NamespaceEntry`].
pub struct NamespaceEntryView {
    pub key: Seq<char>,
    pub value: NamespaceEntryValueView,
}

impl View for NamespaceEntry {
    type V = NamespaceEntryView;

    open spec fn view(&self) -> NamespaceEntryView {
        NamespaceEntryView { key: self.key@, value: self.value@ }
    }
}

/// A record and the declarations that its fields refer to.
#[derive(Debug, Hash, PartialEq, Eq, Clone)]
pub struct Namespace {
    pub name: String,
    pub interface: Interface,
    pub entries: Vec<NamespaceEntry>,
}

/// The mathematical content of a [`Namespace`].
pub struct NamespaceView {
    pub name: Seq<char>,
    pub interface: InterfaceView,
    pub entries: Seq<NamespaceEntryView>,
}

/// The views of the entries of `entries`, in order.
pub open spec fn entry_views(entries: Seq<NamespaceEntry>) -> Seq<NamespaceEntryView> {
    Seq::new(entries.len(), |i: int| entries[i]@)
}

impl View for Namespace {
    type V = NamespaceView;

    open spec fn view(&self) -> NamespaceView {
        NamespaceView { name: self.name@, interface: self.interface@, entries: entry_views(self.entries@) }
    }
}

/// What an entry is sorted by: its key, then aliases before namespaces,
/// then its text.
pub open spec fn entry_key(entry: NamespaceEntryView) -> SortKeyView {
    match entry.value {
        NamespaceEntryValueView::Alias(alias) => SortKeyView { rank: 0, name: entry.key, kind: 0, body: alias },
        NamespaceEntryValueView::Namespace(text) => SortKeyView { rank: 0, name: entry.key, kind: 1, body: text },
    }
}

/// The declaration of one entry.
pub open spec fn entry_text(entry: NamespaceEntryView) -> Seq<char> {
    match entry.value {
        NamespaceEntryValueView::Alias(alias) => "export type "@ + entry.key + " = "@ + alias + ";\n"@,
        NamespaceEntryValueView::Namespace(text) => text + "\n"@,
    }
}

/// The indented declarations of the entries, sorted by key and value.
pub open spec fn entry_blocks(entries: Seq<NamespaceEntryView>, indentation: Seq<char>) -> Seq<Seq<char>> {
    let order = sorted_order(entries.map_values(|entry: NamespaceEntryView| entry_key(entry)));
    Seq::new(entries.len(), |i: int| indented(indentation, entry_text(entries[order[i]])))
}

/// A namespace: its record, then, if it has entries, a block that holds
/// their declarations in sorted order.
pub open spec fn namespace_text(namespace: NamespaceView, indentation: Seq<char>, sort: bool) -> Seq<char> {
    interface_text(namespace.interface, indentation, sort) + if namespace.entries.len() > 0 {
        "\n\nexport namespace "@ + namespace.name + " {\n"@ + join(
            entry_blocks(namespace.entries, indentation),
            "\n"@,
        ) + "}"@
    } else {
        Seq::empty()
    }
}

/// `a` sorts before `b` or with it.
pub open spec fn entry_le(a: NamespaceEntryView, b: NamespaceEntryView) -> bool {
    key_le(entry_key(a), entry_key(b))
}

/// The entries in sorted order.
pub open spec fn sorted_entries(entries: Seq<NamespaceEntryView>) -> Seq<NamespaceEntryView> {
    arranged(entries, sorted_order(entries.map_values(|entry: NamespaceEntryView| entry_key(entry))))
}

/// The order of entries is total: any two are ordered, and only equal
/// entries both ways.
pub proof fn lemma_entry_order()
    ensures
        vstd::relations::total_ordering(|a: NamespaceEntryView, b: NamespaceEntryView| entry_le(a, b)),
{
    let leq = |a: NamespaceEntryView, b: NamespaceEntryView| entry_le(a, b);
    assert forall|x: NamespaceEntryView| #[trigger] leq(x, x) by {
        lemma_key_le_total(entry_key(x), entry_key(x));
    }
    assert forall|x: NamespaceEntryView, y: NamespaceEntryView| #[trigger] leq(x, y) && #[trigger] leq(y, x) implies x
        == y by {
        lemma_key_le_antisymmetric(entry_key(x), entry_key(y));
    }
    assert forall|x: NamespaceEntryView, y: NamespaceEntryView, z: NamespaceEntryView| #[trigger]
        leq(x, y) && #[trigger] leq(y, z) implies leq(x, z) by {
        lemma_key_le_transitive(entry_key(x), entry_key(y), entry_key(z));
    }
    assert forall|x: NamespaceEntryView, y: NamespaceEntryView| #[trigger] leq(x, y) || #[trigger] leq(y, x) by {
        lemma_key_le_total(entry_key(x), entry_key(y));
    }
    assert(vstd::relations::reflexive(leq));
    assert(vstd::relations::antisymmetric(leq));
    assert(vstd::relations::transitive(leq));
    assert(vstd::relations::strongly_connected(leq));
}

/// The sorted entries are the entries, each as often as it occurs, and
/// never descend.
pub proof fn lemma_sorted_entries(entries: Seq<NamespaceEntryView>)
    ensures
        sorted_entries(entries).len() == entries.len(),
        sorted_entries(entries).to_multiset() == entries.to_multiset(),
        vstd::relations::sorted_by(
            sorted_entries(entries),
            |a: NamespaceEntryView, b: NamespaceEntryView| entry_le(a, b),
        ),
{
    let keys = entries.map_values(|entry: NamespaceEntryView| entry_key(entry));
    let order = sorted_order(keys);
    let sorted = sorted_entries(entries);
    lemma_sorted_prefix(keys, entries.len());
    lemma_sorted_arrangement(keys, entries, entries.len());
    assert(entries.take(entries.len() as int) == entries);
    let leq = |a: NamespaceEntryView, b: NamespaceEntryView| entry_le(a, b);
    assert forall|i: int, j: int| 0 <= i < j < sorted.len() implies #[trigger] leq(sorted[i], sorted[j]) by {
        assert(key_le(keys[order[i]], keys[order[j]]));
    }
}

/// The declarations of the entries depend on which entries there are and
/// how often, not on the order in which they are listed.
pub proof fn lemma_blocks_by_multiset(
    first: Seq<NamespaceEntryView>,
    second: Seq<NamespaceEntryView>,
    indentation: Seq<char>,
)
    requires
        first.to_multiset() == second.to_multiset(),
    ensures
        first.len() == second.len(),
        entry_blocks(first, indentation) == entry_blocks(second, indentation),
{
    lemma_sorted_entries(first);
    lemma_sorted_entries(second);
    lemma_entry_order();
    vstd::seq_lib::to_multiset_len(first);
    vstd::seq_lib::to_multiset_len(second);
    vstd::seq_lib::lemma_sorted_unique(
        sorted_entries(first),
        sorted_entries(second),
        |a: NamespaceEntryView, b: NamespaceEntryView| entry_le(a, b),
    );
    assert(sorted_entries(first) == sorted_entries(second));
    assert(entry_blocks(first, indentation) =~= Seq::new(
        first.len(),
        |i: int| indented(indentation, entry_text(sorted_entries(first)[i])),
    ));
    assert(entry_blocks(second, indentation) =~= Seq::new(
        second.len(),
        |i: int| indented(indentation, entry_text(sorted_entries(second)[i])),
    ));
}

/// The text of a namespace depends on which entries it has and how often,
/// not on the order in which they are listed.
pub proof fn lemma_namespace_by_multiset(
    first: NamespaceView,
    second: NamespaceView,
    indentation: Seq<char>,
    sort: bool,
)
    requires
        first.name == second.name,
        first.interface == second.interface,
        first.entries.to_multiset() == second.entries.to_multiset(),
    ensures
        namespace_text(first, indentation, sort) == namespace_text(second, indentation, sort),
{
    lemma_blocks_by_multiset(first.entries, second.entries, indentation);
}

/// A namespace without entries is its record alone.
pub proof fn lemma_bare_namespace(namespace: NamespaceView, indentation: Seq<char>, sort: bool)
    requires
        namespace.entries.len() == 0,
    ensures
        namespace_text(namespace, indentation, sort) == interface_text(namespace.interface, indentation, sort),
{
    assert(namespace_text(namespace, indentation, sort) =~= interface_text(
        namespace.interface,
        indentation,
        sort,
    ));
}

impl NamespaceEntry {
    /// The entry `key` with `value`.
    pub fn new(key: &str, value: NamespaceEntryValue) -> (entry: Self)
        ensures
            entry@ == (NamespaceEntryView { key: key@, value: value@ }),
    {
        Self { key: String::from_str(key), value }
    }
}

impl Namespace {
    /// A namespace without entries around a record without fields, both
    /// named `name` in Pascal case.
    pub fn new(name: &str) -> (namespace: Self)
        ensures
            namespace@.name == pascal_case(name@),
            namespace@.interface == (InterfaceView {
                name: pascal_case(name@),
                extends: None,
                entries: Seq::<InterfaceEntryView>::empty(),
            }),
            namespace@.entries == Seq::<NamespaceEntryView>::empty(),
    {
        let namespace = Self { name: to_pascal(name), interface: Interface::new(name, None), entries: Vec::new() };
        assert(namespace@.entries =~= Seq::<NamespaceEntryView>::empty());
        namespace
    }

    fn sort_keys(&self) -> (keys: Vec<SortKey>)
        ensures
            key_views(keys@) == self@.entries.map_values(|entry: NamespaceEntryView| entry_key(entry)),
    {
        let mut keys: Vec<SortKey> = Vec::new();
        let mut i: usize = 0;
        while i < self.entries.len()
            invariant
                i <= self.entries.len(),
                key_views(keys@) == self@.entries.take(i as int).map_values(
                    |entry: NamespaceEntryView| entry_key(entry),
                ),
            decreases self.entries.len() - i,
        {
            let ghost before = key_views(keys@);
            let entry = &self.entries[i];
            let key = match &entry.value {
                NamespaceEntryValue::Alias(alias) => SortKey {
                    rank: 0,
                    name: chars_of(entry.key.as_str()),
                    kind: 0,
                    body: chars_of(alias.as_str()),
                },
                NamespaceEntryValue::Namespace(text) => SortKey {
                    rank: 0,
                    name: chars_of(entry.key.as_str()),
                    kind: 1,
                    body: chars_of(text.as_str()),
                },
            };
            assert(key@ == entry_key(self@.entries[i as int]));
            keys.push(key);
            assert(key_views(keys@) =~= before.push(key@));
            assert(self@.entries.take(i + 1).map_values(|entry: NamespaceEntryView| entry_key(entry))
                =~= self@.entries.take(i as int).map_values(|entry: NamespaceEntryView| entry_key(entry)).push(
                key@,
            ));
            i = i + 1;
        }
        assert(self@.entries.take(self.entries.len() as int) == self@.entries);
        keys
    }

    /// Renders the record and, behind it, the block of the entries.
    pub fn to_string(&self, settings: &Settings) -> (out: String)
        ensures
            out@ == namespace_text(self@, settings.indentation@, settings.sort),
    {
        let mut out = self.interface.to_string(settings);
        if self.entries.len() > 0 {
            let keys = self.sort_keys();
            let order = sort_order(&keys);
            assert forall|k: int| 0 <= k < order.len() implies (#[trigger] order@[k]) < self.entries.len() by {
                assert(indices(order@)[k] == order@[k]);
            }
            let ghost indentation = settings.indentation@;
            let ghost target = entry_blocks(self@.entries, indentation);
            let mut blocks: Vec<String> = Vec::new();
            let mut i: usize = 0;
            while i < order.len()
                invariant
                    i <= order.len(),
                    order.len() == self.entries.len(),
                    indentation == settings.indentation@,
                    target == entry_blocks(self@.entries, indentation),
                    indices(order@) == sorted_order(
                        self@.entries.map_values(|entry: NamespaceEntryView| entry_key(entry)),
                    ),
                    forall|k: int| 0 <= k < order.len() ==> (#[trigger] order@[k]) < self.entries.len(),
                    views(blocks@) == target.take(i as int),
                decreases order.len() - i,
            {
                let ghost before = views(blocks@);
                assert(indices(order@)[i as int] == order@[i as int]);
                let entry = &self.entries[order[i]];
                let declaration = match &entry.value {
                    NamespaceEntryValue::Alias(alias) => {
                        let mut declaration = String::from_str("export type ");
                        declaration.append(entry.key.as_str());
                        declaration.append(" = ");
                        declaration.append(alias.as_str());
                        declaration.append(";\n");
                        declaration
                    },
                    NamespaceEntryValue::Namespace(text) => {
                        let mut declaration = text.clone();
                        declaration.append("\n");
                        declaration
                    },
                };
                assert(declaration@ =~= entry_text(entry@));
                let block = add_indentation(settings.indentation.as_str(), declaration.as_str());
                assert(entry@ == self@.entries[order@[i as int] as int]);
                assert(block@ == target[i as int]);
                blocks.push(block);
                assert(views(blocks@) =~= before.push(block@));
                assert(target.take(i + 1) =~= target.take(i as int).push(block@));
                i = i + 1;
            }
            assert(target.take(order.len() as int) == target);
            out.append("\n\nexport namespace ");
            out.append(self.name.as_str());
            out.append(" {\n");
            let body = join_strings(&blocks, "\n");
            out.append(body.as_str());
            out.append("}");
            assert(out@ =~= namespace_text(self@, settings.indentation@, settings.sort));
        } else {
            assert(out@ =~= namespace_text(self@, settings.indentation@, settings.sort));
        }
        out
    }
}

} // verus!

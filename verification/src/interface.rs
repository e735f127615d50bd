//! Record declarations.
use crate::casing::{pascal_case, to_pascal};
use crate::order::{
    identity_order, indices, key_le, key_views, lemma_sorted_prefix, plain_order, rearranges, sort_order,
    sorted_order, SortKey, SortKeyView,
};
use crate::settings::Settings;
use crate::text::{chars_of, lemma_lex_le_total, lex_le};
use vstd::prelude::*;
use vstd::string::StringExecFns;

verus! {

/// One field of a record.
#[derive(Debug, Hash, PartialEq, Eq, Clone)]
pub struct InterfaceEntry {
    pub key: String,
    pub value: String,
    pub optional: bool,
}

/// The mathematical content of an [`InterfaceEntry`].
pub struct InterfaceEntryView {
    pub key: Seq<char>,
    pub value: Seq<char>,
    pub optional: bool,
}

impl View for InterfaceEntry {
    type V = InterfaceEntryView;

    open spec fn view(&self) -> InterfaceEntryView {
        InterfaceEntryView { key: self.key@, value: self.value@, optional: self.optional }
    }
}

/// A named record type.
#[derive(Debug, Hash, PartialEq, Eq, Clone)]
pub struct Interface {
    pub name: String,
    pub extends: Option<String>,
    pub entries: Vec<InterfaceEntry>,
}

/// The mathematical content of an [`Interface`].
pub struct InterfaceView {
    pub name: Seq<char>,
    pub extends: Option<Seq<char>>,
    pub entries: Seq<InterfaceEntryView>,
}

/// The views of the fields of `entries`, in order.
pub open spec fn field_views(entries: Seq<InterfaceEntry>) -> Seq<InterfaceEntryView> {
    Seq::new(entries.len(), |i: int| entries[i]@)
}

impl View for Interface {
    type V = InterfaceView;

    open spec fn view(&self) -> InterfaceView {
        InterfaceView {
            name: self.name@,
            extends: match self.extends {
                Some(base) => Some(base@),
                None => None,
            },
            entries: field_views(self.entries@),
        }
    }
}

/// What a field is sorted by: required before optional, then by key. This
/// is the order of the texts `false<key>` and `true<key>`.
pub open spec fn field_key(entry: InterfaceEntryView) -> SortKeyView {
    SortKeyView { rank: if entry.optional { 1u8 } else { 0u8 }, name: entry.key, kind: 0, body: Seq::empty() }
}

/// The order in which the fields are written: sorted by their keys, or as
/// they were declared.
pub open spec fn field_order(entries: Seq<InterfaceEntryView>, sort: bool) -> Seq<int> {
    if sort {
        sorted_order(entries.map_values(|entry: InterfaceEntryView| field_key(entry)))
    } else {
        identity_order(entries.len())
    }
}

/// The first line of a record declaration.
pub open spec fn header_text(interface: InterfaceView) -> Seq<char> {
    match interface.extends {
        Some(base) => "export interface "@ + interface.name + " extends "@ + base + " {\n"@,
        None => "export interface "@ + interface.name + " {\n"@,
    }
}

/// The line of one field.
pub open spec fn field_text(entry: InterfaceEntryView, indentation: Seq<char>) -> Seq<char> {
    indentation + entry.key + (if entry.optional {
        "?: "@
    } else {
        ": "@
    }) + entry.value + ";\n"@
}

/// The lines of the fields that `order` lists.
pub open spec fn fields_text(entries: Seq<InterfaceEntryView>, order: Seq<int>, indentation: Seq<char>) -> Seq<
    char,
>
    decreases order.len(),
{
    if order.len() == 0 {
        Seq::empty()
    } else {
        fields_text(entries, order.drop_last(), indentation) + field_text(entries[order.last()], indentation)
    }
}

/// A record declaration: the header, one line per field, a closing brace.
pub open spec fn interface_text(interface: InterfaceView, indentation: Seq<char>, sort: bool) -> Seq<char> {
    header_text(interface) + fields_text(interface.entries, field_order(interface.entries, sort), indentation)
        + "}"@
}

/// Sorted fields are the declared fields, each once; a required field
/// stands before every optional one, and within both groups the keys
/// ascend.
pub proof fn lemma_sorted_fields(entries: Seq<InterfaceEntryView>)
    ensures
        rearranges(field_order(entries, true), entries.len()),
        forall|i: int, j: int|
            0 <= i < j < entries.len() ==> {
                let a = entries[#[trigger] field_order(entries, true)[i]];
                let b = entries[#[trigger] field_order(entries, true)[j]];
                &&& a.optional ==> b.optional
                &&& a.optional == b.optional ==> lex_le(a.key, b.key)
            },
{
    let keys = entries.map_values(|entry: InterfaceEntryView| field_key(entry));
    let order = field_order(entries, true);
    lemma_sorted_prefix(keys, entries.len());
    assert forall|i: int, j: int| 0 <= i < j < entries.len() implies {
        let a = entries[#[trigger] order[i]];
        let b = entries[#[trigger] order[j]];
        &&& a.optional ==> b.optional
        &&& a.optional == b.optional ==> lex_le(a.key, b.key)
    } by {
        let a = entries[order[i]];
        let b = entries[order[j]];
        assert(key_le(keys[order[i]], keys[order[j]]));
        lemma_lex_le_total(a.key, a.key);
    }
}

impl Interface {
    /// A record without fields, its name in Pascal case.
    pub fn new(name: &str, extends: Option<&str>) -> (interface: Self)
        ensures
            interface@.name == pascal_case(name@),
            interface@.entries == Seq::<InterfaceEntryView>::empty(),
            match extends {
                Some(base) => interface@.extends == Some(base@),
                None => interface@.extends.is_none(),
            },
    {
        let interface = Self {
            name: to_pascal(name),
            entries: Vec::new(),
            extends: match extends {
                Some(base) => Some(String::from_str(base)),
                None => None,
            },
        };
        assert(interface@.entries =~= Seq::<InterfaceEntryView>::empty());
        interface
    }

    fn sort_keys(&self) -> (keys: Vec<SortKey>)
        ensures
            key_views(keys@) == self@.entries.map_values(|entry: InterfaceEntryView| field_key(entry)),
    {
        let mut keys: Vec<SortKey> = Vec::new();
        let mut i: usize = 0;
        while i < self.entries.len()
            invariant
                i <= self.entries.len(),
                key_views(keys@) == self@.entries.take(i as int).map_values(
                    |entry: InterfaceEntryView| field_key(entry),
                ),
            decreases self.entries.len() - i,
        {
            let ghost before = key_views(keys@);
            let entry = &self.entries[i];
            let key = SortKey {
                rank: if entry.optional {
                    1
                } else {
                    0
                },
                name: chars_of(entry.key.as_str()),
                kind: 0,
                body: Vec::new(),
            };
            assert(key@.body =~= Seq::<char>::empty());
            assert(key@ == field_key(self@.entries[i as int]));
            keys.push(key);
            assert(key_views(keys@) =~= before.push(key@));
            assert(self@.entries.take(i + 1).map_values(|entry: InterfaceEntryView| field_key(entry))
                =~= self@.entries.take(i as int).map_values(|entry: InterfaceEntryView| field_key(entry)).push(
                key@,
            ));
            i = i + 1;
        }
        assert(self@.entries.take(self.entries.len() as int) == self@.entries);
        keys
    }

    /// Renders the declaration.
    pub fn to_string(&self, settings: &Settings) -> (out: String)
        ensures
            out@ == interface_text(self@, settings.indentation@, settings.sort),
    {
        let mut out = String::from_str("export interface ");
        out.append(self.name.as_str());
        match &self.extends {
            Some(base) => {
                out.append(" extends ");
                out.append(base.as_str());
            },
            None => {},
        }
        out.append(" {\n");
        assert(out@ =~= header_text(self@));
        let order = if settings.sort {
            let keys = self.sort_keys();
            sort_order(&keys)
        } else {
            plain_order(self.entries.len())
        };
        let ghost listed = indices(order@);
        assert(listed == field_order(self@.entries, settings.sort));
        assert forall|k: int| 0 <= k < order.len() implies (#[trigger] order@[k]) < self.entries.len() by {
            assert(listed[k] == order@[k]);
        }
        let ghost indentation = settings.indentation@;
        let mut i: usize = 0;
        assert(out@ =~= header_text(self@) + fields_text(self@.entries, listed.take(0), indentation));
        while i < order.len()
            invariant
                i <= order.len(),
                indentation == settings.indentation@,
                listed == indices(order@),
                forall|k: int| 0 <= k < order.len() ==> (#[trigger] order@[k]) < self.entries.len(),
                out@ == header_text(self@) + fields_text(self@.entries, listed.take(i as int), indentation),
            decreases order.len() - i,
        {
            let entry = &self.entries[order[i]];
            let ghost before = out@;
            out.append(settings.indentation.as_str());
            out.append(entry.key.as_str());
            if entry.optional {
                out.append("?: ");
            } else {
                out.append(": ");
            }
            out.append(entry.value.as_str());
            out.append(";\n");
            proof {
                let written = listed.take(i + 1);
                assert(written.drop_last() == listed.take(i as int));
                assert(written.last() == order@[i as int]);
                assert(entry@ == self@.entries[order@[i as int] as int]);
                assert(out@ =~= before + field_text(entry@, indentation));
                assert(out@ =~= header_text(self@) + fields_text(self@.entries, written, indentation));
            }
            i = i + 1;
        }
        assert(listed.take(order.len() as int) == listed);
        out.append("}");
        out
    }
}

} // verus!

//! Sample grouping: the values that the samples hold under each field name.
use crate::value::{lemma_array_view, lemma_object_view, pair_views, value_views, Value, ValueView};
use vstd::prelude::*;

verus! {

/// A batch of samples.
#[derive(Debug, PartialEq, Eq)]
pub struct Items(pub Vec<Value>);

impl View for Items {
    type V = Seq<ValueView>;

    open spec fn view(&self) -> Seq<ValueView> {
        value_views(self.0@)
    }
}

/// What a batch of samples holds under one field name.
#[derive(Debug, PartialEq, Eq)]
pub struct ItemEntry {
    pub key: String,
    /// The values of the field, in sample order.
    pub values: Vec<Value>,
    /// Whether a sample object lacks the field.
    pub optional: bool,
}

/// The mathematical content of an [`ItemEntry`].
pub struct ItemEntryView {
    pub key: Seq<char>,
    pub values: Seq<ValueView>,
    pub optional: bool,
}

impl View for ItemEntry {
    type V = ItemEntryView;

    open spec fn view(&self) -> ItemEntryView {
        ItemEntryView { key: self.key@, values: value_views(self.values@), optional: self.optional }
    }
}

/// The views of the entries of `entries`, in order.
pub open spec fn item_views(entries: Seq<ItemEntry>) -> Seq<ItemEntryView> {
    Seq::new(entries.len(), |i: int| entries[i]@)
}

/// The fields of a sample; a sample that is no object has none.
pub open spec fn fields_of(sample: ValueView) -> Seq<(Seq<char>, ValueView)> {
    match sample {
        ValueView::Object(fields) => fields,
        _ => Seq::empty(),
    }
}

/// The fields of all the samples, in sample order.
pub open spec fn pairs_of(samples: Seq<ValueView>) -> Seq<(Seq<char>, ValueView)>
    decreases samples.len(),
{
    if samples.len() == 0 {
        Seq::empty()
    } else {
        pairs_of(samples.drop_last()) + fields_of(samples.last())
    }
}

/// The distinct field names, each where it first occurs.
pub open spec fn first_keys(pairs: Seq<(Seq<char>, ValueView)>) -> Seq<Seq<char>>
    decreases pairs.len(),
{
    if pairs.len() == 0 {
        Seq::empty()
    } else if first_keys(pairs.drop_last()).contains(pairs.last().0) {
        first_keys(pairs.drop_last())
    } else {
        first_keys(pairs.drop_last()).push(pairs.last().0)
    }
}

/// The values that stand under `key`, in order.
pub open spec fn values_of(pairs: Seq<(Seq<char>, ValueView)>, key: Seq<char>) -> Seq<ValueView>
    decreases pairs.len(),
{
    if pairs.len() == 0 {
        Seq::empty()
    } else if pairs.last().0 == key {
        values_of(pairs.drop_last(), key).push(pairs.last().1)
    } else {
        values_of(pairs.drop_last(), key)
    }
}

/// One of `fields` is named `key`.
pub open spec fn names(fields: Seq<(Seq<char>, ValueView)>, key: Seq<char>) -> bool {
    exists|i: int| 0 <= i < fields.len() && (#[trigger] fields[i]).0 == key
}

/// A sample object has no field named `key`.
pub open spec fn lacks_field(samples: Seq<ValueView>, key: Seq<char>) -> bool {
    exists|i: int|
        0 <= i < samples.len() && (#[trigger] samples[i]) is Object && !names(fields_of(samples[i]), key)
}

/// What the samples hold under `key`.
pub open spec fn group_of(samples: Seq<ValueView>, key: Seq<char>) -> ItemEntryView {
    ItemEntryView { key, values: values_of(pairs_of(samples), key), optional: lacks_field(samples, key) }
}

/// The groups of the samples: one for each field name that an object among
/// them has, in the order in which the names first occur.
pub open spec fn grouped(samples: Seq<ValueView>) -> Seq<ItemEntryView> {
    first_keys(pairs_of(samples)).map_values(|key: Seq<char>| group_of(samples, key))
}

/// No name stands twice among the first keys, and a name that is not among
/// them has no values.
pub proof fn lemma_first_keys(pairs: Seq<(Seq<char>, ValueView)>)
    ensures
        first_keys(pairs).no_duplicates(),
        forall|i: int| 0 <= i < pairs.len() ==> first_keys(pairs).contains((#[trigger] pairs[i]).0),
        forall|key: Seq<char>| !first_keys(pairs).contains(key) ==> #[trigger] values_of(pairs, key).len() == 0,
    decreases pairs.len(),
{
    if pairs.len() > 0 {
        let front = pairs.drop_last();
        let keys = first_keys(front);
        lemma_first_keys(front);
        let out = first_keys(pairs);
        assert forall|i: int| 0 <= i < pairs.len() implies out.contains((#[trigger] pairs[i]).0) by {
            if i < pairs.len() - 1 {
                assert(keys.contains(front[i].0));
                let k = keys.index_of(front[i].0);
                assert(out[k] == front[i].0);
            } else if keys.contains(pairs.last().0) {
            } else {
                assert(out[out.len() - 1] == pairs.last().0);
            }
        }
        assert forall|key: Seq<char>| !out.contains(key) implies #[trigger] values_of(pairs, key).len() == 0 by {
            if keys.contains(key) {
                let k = keys.index_of(key);
                assert(out[k] == key);
                assert(false);
            }
            if pairs.last().0 == key {
                assert(out.contains(pairs[pairs.len() - 1].0));
                assert(false);
            }
            assert(values_of(front, key).len() == 0);
            assert(values_of(pairs, key) == values_of(front, key));
        }
    }
}

/// A field is optional exactly when a sample object lacks it: a field that
/// every sample object has is required.
pub proof fn lemma_optional_iff_missing(samples: Seq<ValueView>, i: int)
    requires
        0 <= i < grouped(samples).len(),
    ensures
        grouped(samples)[i].optional <==> exists|s: int|
            0 <= s < samples.len() && (#[trigger] samples[s]) is Object && !names(
                fields_of(samples[s]),
                grouped(samples)[i].key,
            ),
        !grouped(samples)[i].optional ==> forall|s: int|
            0 <= s < samples.len() && (#[trigger] samples[s]) is Object ==> names(
                fields_of(samples[s]),
                grouped(samples)[i].key,
            ),
{
}

fn has_field(fields: &Vec<(String, Value)>, key: &String) -> (found: bool)
    ensures
        found == names(pair_views(fields@), key@),
{
    let mut j: usize = 0;
    while j < fields.len()
        invariant
            j <= fields.len(),
            forall|k: int| 0 <= k < j ==> (#[trigger] pair_views(fields@)[k]).0 != key@,
        decreases fields.len() - j,
    {
        if fields[j].0 == *key {
            assert(pair_views(fields@)[j as int].0 == key@);
            return true;
        }
        j = j + 1;
    }
    false
}

fn lacks(samples: &Vec<Value>, key: &String) -> (missing: bool)
    ensures
        missing == lacks_field(value_views(samples@), key@),
{
    let mut i: usize = 0;
    while i < samples.len()
        invariant
            i <= samples.len(),
            forall|k: int|
                0 <= k < i ==> !((#[trigger] value_views(samples@)[k]) is Object && !names(
                    fields_of(value_views(samples@)[k]),
                    key@,
                )),
        decreases samples.len() - i,
    {
        match &samples[i] {
            Value::Object(fields) => {
                proof {
                    lemma_object_view(*fields);
                }
                if !has_field(fields, key) {
                    assert(value_views(samples@)[i as int] is Object);
                    return true;
                }
            },
            _ => {},
        }
        i = i + 1;
    }
    false
}

fn find_key(entries: &Vec<ItemEntry>, key: &String) -> (at: Option<usize>)
    ensures
        match at {
            Some(k) => k < entries.len() && entries@[k as int].key@ == key@,
            None => forall|k: int| 0 <= k < entries.len() ==> (#[trigger] entries@[k]).key@ != key@,
        },
{
    let mut k: usize = 0;
    while k < entries.len()
        invariant
            k <= entries.len(),
            forall|j: int| 0 <= j < k ==> (#[trigger] entries@[j]).key@ != key@,
        decreases entries.len() - k,
    {
        if entries[k].key == *key {
            return Some(k);
        }
        k = k + 1;
    }
    None
}

/// The field names of `entries`, in order.
pub open spec fn keys_of(entries: Seq<ItemEntry>) -> Seq<Seq<char>> {
    Seq::new(entries.len(), |i: int| entries[i].key@)
}

/// One empty group for each field name of the samples, with its
/// optionality.
fn empty_groups(samples: &Vec<Value>) -> (entries: Vec<ItemEntry>)
    ensures
        keys_of(entries@) == first_keys(pairs_of(value_views(samples@))),
        forall|k: int|
            0 <= k < entries.len() ==> (#[trigger] entries@[k]).values@.len() == 0 && entries@[k].optional
                == lacks_field(value_views(samples@), entries@[k].key@),
{
    let ghost all = value_views(samples@);
    let mut entries: Vec<ItemEntry> = Vec::new();
    let mut i: usize = 0;
    assert(all.take(0) =~= Seq::<ValueView>::empty());
    assert(keys_of(entries@) =~= first_keys(pairs_of(all.take(0))));
    while i < samples.len()
        invariant
            i <= samples.len(),
            all == value_views(samples@),
            keys_of(entries@) == first_keys(pairs_of(all.take(i as int))),
            forall|k: int|
                0 <= k < entries.len() ==> (#[trigger] entries@[k]).values@.len() == 0 && entries@[k].optional
                    == lacks_field(all, entries@[k].key@),
        decreases samples.len() - i,
    {
        let ghost before = pairs_of(all.take(i as int));
        assert(all.take(i + 1).drop_last() == all.take(i as int));
        assert(all.take(i + 1).last() == all[i as int]);
        match &samples[i] {
            Value::Object(fields) => {
                proof {
                    lemma_object_view(*fields);
                }
                let ghost pairs = pair_views(fields@);
                assert(fields_of(all[i as int]) == pairs);
                let mut j: usize = 0;
                assert(before + pairs.take(0) =~= before);
                while j < fields.len()
                    invariant
                        j <= fields.len(),
                        all == value_views(samples@),
                        pairs == pair_views(fields@),
                        keys_of(entries@) == first_keys(before + pairs.take(j as int)),
                        forall|k: int|
                            0 <= k < entries.len() ==> (#[trigger] entries@[k]).values@.len() == 0
                                && entries@[k].optional == lacks_field(all, entries@[k].key@),
                    decreases fields.len() - j,
                {
                    let ghost done = before + pairs.take(j as int);
                    let ghost keys = keys_of(entries@);
                    let key = &fields[j].0;
                    assert(key@ == pairs[j as int].0);
                    assert(before + pairs.take(j + 1) =~= done.push(pairs[j as int]));
                    assert(done.push(pairs[j as int]).drop_last() == done);
                    match find_key(&entries, key) {
                        Some(k) => {
                            assert(keys[k as int] == key@);
                        },
                        None => {
                            assert(!keys.contains(key@)) by {
                                if keys.contains(key@) {
                                    let k = keys.index_of(key@);
                                    assert(entries@[k].key@ == key@);
                                }
                            }
                            let optional = lacks(samples, key);
                            entries.push(ItemEntry { key: key.clone(), values: Vec::new(), optional });
                            assert(keys_of(entries@) =~= keys.push(key@));
                        },
                    }
                    j = j + 1;
                }
                assert(pairs.take(fields.len() as int) == pairs);
            },
            _ => {
                assert(fields_of(all[i as int]) =~= Seq::<(Seq<char>, ValueView)>::empty());
                assert(before + fields_of(all[i as int]) =~= before);
            },
        }
        i = i + 1;
    }
    assert(all.take(samples.len() as int) == all);
    entries
}

impl Items {
    /// An empty batch.
    pub fn new() -> (items: Self)
        ensures
            items@ == Seq::<ValueView>::empty(),
    {
        let items = Items(Vec::new());
        assert(items@ =~= Seq::<ValueView>::empty());
        items
    }

    /// The batch that an array holds, or the batch of one value.
    pub fn from_value(value: Value) -> (items: Self)
        ensures
            items@ == match value@ {
                ValueView::Array(elements) => elements,
                single => seq![single],
            },
    {
        match value {
            Value::Array(elements) => {
                proof {
                    lemma_array_view(elements);
                }
                Items(elements)
            },
            single => {
                let mut values: Vec<Value> = Vec::new();
                values.push(single);
                let items = Items(values);
                assert(items@ =~= seq![single@]);
                items
            },
        }
    }

    /// Groups the samples by field name. Samples that are no objects are
    /// passed over.
    pub fn entries(self) -> (entries: Vec<ItemEntry>)
        ensures
            item_views(entries@) == grouped(self@),
    {
        let mut entries = empty_groups(&self.0);
        let ghost all = self@;
        let ghost keys = keys_of(entries@);
        let ghost samples = self.0@;
        proof {
            lemma_first_keys(pairs_of(all));
        }
        assert(all.take(0) =~= Seq::<ValueView>::empty());
        for sample in it: self.0
            invariant
                it.seq() == samples,
                all == value_views(samples),
                keys == first_keys(pairs_of(all)),
                keys.no_duplicates(),
                forall|i: int| 0 <= i < pairs_of(all).len() ==> keys.contains((#[trigger] pairs_of(all)[i]).0),
                keys_of(entries@) == keys,
                forall|k: int|
                    0 <= k < entries.len() ==> (#[trigger] entries@[k]).optional == lacks_field(all, keys[k])
                        && value_views(entries@[k].values@) == values_of(pairs_of(all.take(it.index())), keys[k]),
        {
            let ghost i = it.index();
            let ghost before = pairs_of(all.take(i));
            assert(all.take(i + 1).drop_last() == all.take(i));
            assert(all.take(i + 1).last() == all[i]);
            assert(sample@ == all[i]);
            match sample {
                Value::Object(fields) => {
                    proof {
                        lemma_object_view(fields);
                    }
                    let ghost raw = fields@;
                    let ghost pairs = pair_views(fields@);
                    assert(before + pairs.take(0) =~= before);
                    assert forall|j: int| 0 <= j < pairs.len() implies keys.contains((#[trigger] pairs[j]).0) by {
                        lemma_pairs_of_covers(all, i, j);
                        let p = choose|p: int|
                            0 <= p < pairs_of(all).len() && pairs_of(all)[p] == fields_of(all[i])[j];
                        assert(keys.contains(pairs_of(all)[p].0));
                    }
                    for pair in inner: fields
                        invariant
                            inner.seq() == raw,
                            pairs == pair_views(raw),
                            keys.no_duplicates(),
                            forall|j: int| 0 <= j < pairs.len() ==> keys.contains((#[trigger] pairs[j]).0),
                            keys_of(entries@) == keys,
                            forall|k: int|
                                0 <= k < entries.len() ==> (#[trigger] entries@[k]).optional == lacks_field(
                                    all,
                                    keys[k],
                                ) && value_views(entries@[k].values@) == values_of(
                                    before + pairs.take(inner.index()),
                                    keys[k],
                                ),
                    {
                        let ghost j = inner.index();
                        let ghost done = before + pairs.take(j);
                        let ghost old_entries = entries@;
                        let (key, value) = pair;
                        assert(key@ == pairs[j].0 && value@ == pairs[j].1);
                        assert(before + pairs.take(j + 1) =~= done.push(pairs[j]));
                        assert(done.push(pairs[j]).drop_last() == done);
                        assert(keys.contains(pairs[j].0));
                        match find_key(&entries, &key) {
                            Some(at) => {
                                let mut entry = entries.remove(at);
                                let ghost old_values = value_views(entry.values@);
                                entry.values.push(value);
                                assert(value_views(entry.values@) =~= old_values.push(value@));
                                entries.insert(at, entry);
                                assert(entries@.len() == old_entries.len());
                                assert forall|k: int| 0 <= k < entries.len() implies (#[trigger] entries@[k]).key@
                                    == old_entries[k].key@ && entries@[k].optional == old_entries[k].optional
                                    && (k != at ==> entries@[k].values@ == old_entries[k].values@) by {}
                                assert(keys_of(entries@) =~= keys);
                                assert forall|k: int| 0 <= k < entries.len() implies value_views(
                                    (#[trigger] entries@[k]).values@,
                                ) == values_of(done.push(pairs[j]), keys[k]) by {
                                    if k != at {
                                        assert(keys[k] != keys[at as int]);
                                    }
                                }
                            },
                            None => {
                                assert(false) by {
                                    let k = keys.index_of(key@);
                                    assert(entries@[k].key@ == key@);
                                }
                            },
                        }
                    }
                    assert(pairs.take(pairs.len() as int) == pairs);
                },
                _ => {
                    assert(fields_of(all[i]) =~= Seq::<(Seq<char>, ValueView)>::empty());
                    assert(before + fields_of(all[i]) =~= before);
                },
            }
        }
        assert(all.take(all.len() as int) == all);
        assert(item_views(entries@) =~= grouped(all));
        entries
    }
}

/// A field of a sample is among the fields of all the samples.
proof fn lemma_pairs_of_covers(samples: Seq<ValueView>, i: int, j: int)
    requires
        0 <= i < samples.len(),
        0 <= j < fields_of(samples[i]).len(),
    ensures
        exists|p: int| 0 <= p < pairs_of(samples).len() && pairs_of(samples)[p] == fields_of(samples[i])[j],
    decreases samples.len(),
{
    let front = samples.drop_last();
    let base = pairs_of(front).len();
    if i == samples.len() - 1 {
        assert(pairs_of(samples)[base + j] == fields_of(samples[i])[j]);
    } else {
        lemma_pairs_of_covers(front, i, j);
        let p = choose|p: int| 0 <= p < pairs_of(front).len() && pairs_of(front)[p] == fields_of(front[i])[j];
        assert(pairs_of(samples)[p] == fields_of(samples[i])[j]);
    }
}

impl From<Vec<Value>> for Items {
    fn from(values: Vec<Value>) -> (items: Self) {
        Items(values)
    }
}

impl vstd::std_specs::convert::FromSpecImpl<Vec<Value>> for Items {
    open spec fn obeys_from_spec() -> bool {
        true
    }

    open spec fn from_spec(values: Vec<Value>) -> Self {
        Items(values)
    }
}

} // verus!

//! Stable sorting by keys made of ranks and texts.
use crate::text::{
    chars_le, lemma_lex_le_antisymmetric, lemma_lex_le_total, lemma_lex_le_transitive, lex_le,
};
use vstd::prelude::*;

verus! {

/// What an item is sorted by: a rank, then a name, then a kind, then a
/// body, each deciding only where those before it are equal.
pub struct SortKey {
    pub rank: u8,
    pub name: Vec<char>,
    pub kind: u8,
    pub body: Vec<char>,
}

/// The mathematical content of a [`SortKey`].
pub struct SortKeyView {
    pub rank: u8,
    pub name: Seq<char>,
    pub kind: u8,
    pub body: Seq<char>,
}

impl View for SortKey {
    type V = SortKeyView;

    open spec fn view(&self) -> SortKeyView {
        SortKeyView { rank: self.rank, name: self.name@, kind: self.kind, body: self.body@ }
    }
}

/// The views of the keys of `keys`, in order.
pub open spec fn key_views(keys: Seq<SortKey>) -> Seq<SortKeyView> {
    Seq::new(keys.len(), |i: int| keys[i]@)
}

/// `a` sorts before `b` or with it.
pub open spec fn key_le(a: SortKeyView, b: SortKeyView) -> bool {
    if a.rank != b.rank {
        a.rank < b.rank
    } else if a.name != b.name {
        lex_le(a.name, b.name)
    } else if a.kind != b.kind {
        a.kind < b.kind
    } else {
        lex_le(a.body, b.body)
    }
}

/// Any two keys are ordered one way or the other.
pub proof fn lemma_key_le_total(a: SortKeyView, b: SortKeyView)
    ensures
        key_le(a, b) || key_le(b, a),
{
    lemma_lex_le_total(a.name, b.name);
    lemma_lex_le_total(a.body, b.body);
}

/// The order of keys is transitive.
pub proof fn lemma_key_le_transitive(a: SortKeyView, b: SortKeyView, c: SortKeyView)
    requires
        key_le(a, b),
        key_le(b, c),
    ensures
        key_le(a, c),
{
    if a.rank == b.rank && b.rank == c.rank {
        if a.name == b.name && b.name == c.name {
            if a.kind == b.kind && b.kind == c.kind {
                lemma_lex_le_transitive(a.body, b.body, c.body);
            }
        } else if a.name != b.name && b.name != c.name {
            lemma_lex_le_transitive(a.name, b.name, c.name);
            if a.name == c.name {
                lemma_lex_le_antisymmetric(a.name, b.name);
            }
        }
    }
}

/// Keys ordered both ways are equal.
pub proof fn lemma_key_le_antisymmetric(a: SortKeyView, b: SortKeyView)
    requires
        key_le(a, b),
        key_le(b, a),
    ensures
        a == b,
{
    if a.rank == b.rank {
        if a.name != b.name {
            lemma_lex_le_antisymmetric(a.name, b.name);
        } else if a.kind == b.kind {
            lemma_lex_le_antisymmetric(a.body, b.body);
        }
    }
}

/// `order` with `x` put behind the last index whose key is not larger.
pub open spec fn insert_sorted(keys: Seq<SortKeyView>, order: Seq<int>, x: int) -> Seq<int>
    decreases order.len(),
{
    if order.len() == 0 {
        seq![x]
    } else if key_le(keys[order.last()], keys[x]) {
        order.push(x)
    } else {
        insert_sorted(keys, order.drop_last(), x).push(order.last())
    }
}

/// The first `n` indices, stably sorted by their keys.
pub open spec fn sorted_prefix(keys: Seq<SortKeyView>, n: nat) -> Seq<int>
    decreases n,
{
    if n == 0 {
        Seq::empty()
    } else {
        insert_sorted(keys, sorted_prefix(keys, (n - 1) as nat), n - 1)
    }
}

/// The indices of `keys`, stably sorted by their keys: an index stands
/// before another when its key is smaller, or equal and it is the smaller
/// index.
pub open spec fn sorted_order(keys: Seq<SortKeyView>) -> Seq<int> {
    sorted_prefix(keys, keys.len())
}

/// The indices in their own order.
pub open spec fn identity_order(n: nat) -> Seq<int> {
    Seq::new(n, |i: int| i)
}

/// The indices that a vector holds.
pub open spec fn indices(order: Seq<usize>) -> Seq<int> {
    Seq::new(order.len(), |i: int| order[i] as int)
}

/// The keys along `order` never decrease.
pub open spec fn ordered(keys: Seq<SortKeyView>, order: Seq<int>) -> bool {
    forall|i: int, j: int| 0 <= i < j < order.len() ==> key_le(keys[#[trigger] order[i]], keys[#[trigger] order[j]])
}

/// `order` holds each index below `n` once, and nothing else.
pub open spec fn rearranges(order: Seq<int>, n: nat) -> bool {
    &&& order.len() == n
    &&& order.no_duplicates()
    &&& forall|i: int| 0 <= i < order.len() ==> 0 <= (#[trigger] order[i]) < n
}

/// The items that `order` lists, in its order.
pub open spec fn arranged<T>(items: Seq<T>, order: Seq<int>) -> Seq<T> {
    Seq::new(order.len(), |i: int| items[order[i]])
}

/// Inserting puts the index somewhere and moves nothing else.
pub proof fn lemma_insert_place(keys: Seq<SortKeyView>, order: Seq<int>, x: int)
    ensures
        exists|p: int| 0 <= p <= order.len() && insert_sorted(keys, order, x) == #[trigger] order.insert(p, x),
    decreases order.len(),
{
    if order.len() == 0 {
        assert(insert_sorted(keys, order, x) =~= order.insert(0, x));
    } else if key_le(keys[order.last()], keys[x]) {
        assert(insert_sorted(keys, order, x) =~= order.insert(order.len() as int, x));
    } else {
        lemma_insert_place(keys, order.drop_last(), x);
        let p = choose|p: int|
            0 <= p <= order.drop_last().len() && insert_sorted(keys, order.drop_last(), x)
                == #[trigger] order.drop_last().insert(p, x);
        assert(insert_sorted(keys, order, x) =~= order.insert(p, x));
    }
}

proof fn lemma_insert_sorted(keys: Seq<SortKeyView>, order: Seq<int>, x: int)
    requires
        ordered(keys, order),
        order.no_duplicates(),
        forall|i: int| 0 <= i < order.len() ==> (#[trigger] order[i]) != x,
    ensures
        ordered(keys, insert_sorted(keys, order, x)),
        insert_sorted(keys, order, x).no_duplicates(),
        insert_sorted(keys, order, x).len() == order.len() + 1,
        forall|i: int|
            0 <= i < order.len() + 1 ==> (#[trigger] insert_sorted(keys, order, x)[i]) == x || exists|j: int|
                0 <= j < order.len() && order[j] == insert_sorted(keys, order, x)[i],
    decreases order.len(),
{
    let out = insert_sorted(keys, order, x);
    if order.len() == 0 {
    } else if key_le(keys[order.last()], keys[x]) {
        assert forall|i: int, j: int| 0 <= i < j < out.len() implies key_le(
            keys[#[trigger] out[i]],
            keys[#[trigger] out[j]],
        ) by {
            if j == order.len() {
                if i < order.len() - 1 {
                    assert(key_le(keys[order[i]], keys[order[order.len() - 1]]));
                    lemma_key_le_transitive(keys[order[i]], keys[order.last()], keys[x]);
                }
            } else {
                assert(key_le(keys[order[i]], keys[order[j]]));
            }
        }
        assert forall|i: int| 0 <= i < order.len() + 1 implies (#[trigger] out[i]) == x || exists|j: int|
            0 <= j < order.len() && order[j] == out[i] by {
            if i < order.len() {
                assert(order[i] == out[i]);
            }
        }
    } else {
        let front = order.drop_last();
        let inner = insert_sorted(keys, front, x);
        assert(ordered(keys, front)) by {
            assert forall|i: int, j: int| 0 <= i < j < front.len() implies key_le(
                keys[#[trigger] front[i]],
                keys[#[trigger] front[j]],
            ) by {
                assert(key_le(keys[order[i]], keys[order[j]]));
            }
        }
        assert(front.no_duplicates());
        assert forall|i: int| 0 <= i < front.len() implies (#[trigger] front[i]) != x by {
            assert(order[i] != x);
        }
        lemma_insert_sorted(keys, front, x);
        lemma_key_le_total(keys[order.last()], keys[x]);
        assert forall|i: int| 0 <= i < out.len() - 1 implies key_le(keys[#[trigger] out[i]], keys[order.last()])
            && out[i] != order.last() by {
            assert(out[i] == inner[i]);
            if inner[i] != x {
                let j = choose|j: int| 0 <= j < front.len() && front[j] == inner[i];
                assert(key_le(keys[order[j]], keys[order[order.len() - 1]]));
                assert(order[j] != order[order.len() - 1]);
            } else {
                assert(order[order.len() - 1] != x);
            }
        }
        assert forall|i: int, j: int| 0 <= i < j < out.len() implies key_le(
            keys[#[trigger] out[i]],
            keys[#[trigger] out[j]],
        ) by {
            if j < out.len() - 1 {
                assert(key_le(keys[inner[i]], keys[inner[j]]));
            }
        }
        assert forall|i: int, j: int| 0 <= i < out.len() && 0 <= j < out.len() && i != j implies out[i]
            != out[j] by {
            if i < out.len() - 1 && j < out.len() - 1 {
                assert(inner[i] != inner[j]);
            }
        }
        assert forall|i: int| 0 <= i < order.len() + 1 implies (#[trigger] out[i]) == x || exists|j: int|
            0 <= j < order.len() && order[j] == out[i] by {
            if i < order.len() {
                if inner[i] != x {
                    let j = choose|j: int| 0 <= j < front.len() && front[j] == inner[i];
                    assert(order[j] == out[i]);
                }
            } else {
                assert(order[order.len() - 1] == out[i]);
            }
        }
    }
}

/// The sorted order of the first `n` indices holds each of them once, and
/// their keys never decrease along it.
pub proof fn lemma_sorted_prefix(keys: Seq<SortKeyView>, n: nat)
    ensures
        rearranges(sorted_prefix(keys, n), n),
        ordered(keys, sorted_prefix(keys, n)),
    decreases n,
{
    if n > 0 {
        let before = sorted_prefix(keys, (n - 1) as nat);
        lemma_sorted_prefix(keys, (n - 1) as nat);
        lemma_insert_sorted(keys, before, n - 1);
        let out = sorted_prefix(keys, n);
        assert forall|i: int| 0 <= i < out.len() implies 0 <= (#[trigger] out[i]) < n by {
            if out[i] != n - 1 {
                let j = choose|j: int| 0 <= j < before.len() && before[j] == out[i];
                assert(0 <= before[j] < n - 1);
            }
        }
    }
}

/// Sorting rearranges: the first `n` items in their sorted order are the
/// first `n` items, each as often as it occurs.
pub proof fn lemma_sorted_arrangement<T>(keys: Seq<SortKeyView>, items: Seq<T>, n: nat)
    requires
        n <= items.len(),
    ensures
        arranged(items, sorted_prefix(keys, n)).to_multiset() == items.take(n as int).to_multiset(),
    decreases n,
{
    if n == 0 {
        assert(arranged(items, sorted_prefix(keys, n)) =~= items.take(0));
    } else {
        let before = sorted_prefix(keys, (n - 1) as nat);
        lemma_sorted_arrangement(keys, items, (n - 1) as nat);
        lemma_sorted_prefix(keys, (n - 1) as nat);
        lemma_insert_place(keys, before, n - 1);
        let p = choose|p: int|
            0 <= p <= before.len() && insert_sorted(keys, before, n - 1) == #[trigger] before.insert(p, n - 1);
        assert(arranged(items, before.insert(p, n - 1)) =~= arranged(items, before).insert(p, items[n - 1]));
        vstd::seq_lib::to_multiset_insert(arranged(items, before), p, items[n - 1]);
        assert(items.take(n as int) =~= items.take(n - 1).push(items[n - 1]));
        vstd::seq_lib::to_multiset_build(items.take(n - 1), items[n - 1]);
    }
}

/// Tells whether two texts are equal.
pub fn chars_eq(a: &Vec<char>, b: &Vec<char>) -> (r: bool)
    ensures
        r == (a@ == b@),
{
    if a.len() != b.len() {
        return false;
    }
    let mut i: usize = 0;
    while i < a.len()
        invariant
            i <= a.len(),
            a.len() == b.len(),
            a@.take(i as int) == b@.take(i as int),
        decreases a.len() - i,
    {
        if a[i] != b[i] {
            return false;
        }
        proof {
            assert(a@.take(i + 1) == a@.take(i as int).push(a@[i as int]));
            assert(b@.take(i + 1) == b@.take(i as int).push(b@[i as int]));
        }
        i = i + 1;
    }
    assert(a@.take(a.len() as int) == a@ && b@.take(b.len() as int) == b@);
    true
}

/// Tells whether `a` sorts before `b` or with it.
pub fn sorts_before(a: &SortKey, b: &SortKey) -> (r: bool)
    ensures
        r == key_le(a@, b@),
{
    if a.rank != b.rank {
        a.rank < b.rank
    } else if !chars_eq(&a.name, &b.name) {
        chars_le(&a.name, &b.name)
    } else if a.kind != b.kind {
        a.kind < b.kind
    } else {
        chars_le(&a.body, &b.body)
    }
}

/// The indices of `keys`, stably sorted by their keys.
pub fn sort_order(keys: &Vec<SortKey>) -> (order: Vec<usize>)
    ensures
        indices(order@) == sorted_order(key_views(keys@)),
        rearranges(indices(order@), keys.len() as nat),
        ordered(key_views(keys@), indices(order@)),
{
    let ghost views = key_views(keys@);
    let mut order: Vec<usize> = Vec::new();
    let mut x: usize = 0;
    assert(indices(order@) =~= sorted_prefix(views, 0));
    proof {
        lemma_sorted_prefix(views, 0);
    }
    while x < keys.len()
        invariant
            x <= keys.len(),
            views == key_views(keys@),
            indices(order@) == sorted_prefix(views, x as nat),
            rearranges(indices(order@), x as nat),
        decreases keys.len() - x,
    {
        let ghost listed = indices(order@);
        let mut p: usize = order.len();
        let mut searching: bool = p > 0;
        assert(listed.take(p as int) == listed);
        assert(listed.skip(p as int) =~= Seq::<int>::empty());
        assert(insert_sorted(views, listed, x as int) =~= insert_sorted(views, listed.take(p as int), x as int)
            + listed.skip(p as int));
        while searching
            invariant
                p <= order.len(),
                x < keys.len(),
                views == key_views(keys@),
                listed == indices(order@),
                rearranges(listed, x as nat),
                searching ==> p > 0,
                !searching ==> p == 0 || key_le(views[listed[p - 1]], views[x as int]),
                insert_sorted(views, listed, x as int) == insert_sorted(views, listed.take(p as int), x as int)
                    + listed.skip(p as int),
            decreases p + if searching { 1int } else { 0int },
        {
            assert(0 <= listed[p - 1] < x);
            assert(order@[p - 1] == listed[p - 1]);
            if sorts_before(&keys[order[p - 1]], &keys[x]) {
                searching = false;
            } else {
                proof {
                    let head = listed.take(p as int);
                    assert(head.last() == listed[p - 1]);
                    assert(head.drop_last() == listed.take(p - 1));
                    assert(insert_sorted(views, listed.take(p - 1), x as int).push(listed[p - 1]) + listed.skip(
                        p as int,
                    ) =~= insert_sorted(views, listed.take(p - 1), x as int) + listed.skip(p - 1));
                }
                p = p - 1;
                searching = p > 0;
            }
        }
        proof {
            let head = listed.take(p as int);
            if p > 0 {
                assert(head.last() == listed[p - 1]);
            }
            assert(insert_sorted(views, head, x as int) =~= head.push(x as int));
            assert(listed.insert(p as int, x as int) =~= head.push(x as int) + listed.skip(p as int));
            lemma_sorted_prefix(views, (x + 1) as nat);
        }
        order.insert(p, x);
        assert(indices(order@) =~= listed.insert(p as int, x as int));
        x = x + 1;
    }
    proof {
        lemma_sorted_prefix(views, keys.len() as nat);
    }
    order
}

/// The indices below `n` in their own order.
pub fn plain_order(n: usize) -> (order: Vec<usize>)
    ensures
        indices(order@) == identity_order(n as nat),
{
    let mut order: Vec<usize> = Vec::new();
    let mut i: usize = 0;
    assert(indices(order@) =~= identity_order(0));
    while i < n
        invariant
            i <= n,
            indices(order@) == identity_order(i as nat),
        decreases n - i,
    {
        let ghost before = indices(order@);
        order.push(i);
        assert(indices(order@) =~= before.push(i as int));
        i = i + 1;
        assert(indices(order@) =~= identity_order(i as nat));
    }
    order
}

} // verus!

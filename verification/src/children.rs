//! The children of a span, in the order in which they are laid out.
//!
//! A map of spans has no order of its own. Siblings are ordered by name, then
//! by start, then by id, so that a set of spans has one layout only.
use crate::spans::Span;
use crate::text::{
    lemma_text_before_asymmetric, lemma_text_before_total, lemma_text_before_transitive,
    text_before,
};
use std::collections::HashMap;
use vstd::prelude::*;

verus! {

/// Whether `child` is a span whose parent is `parent`.
pub open spec fn is_child(spans: Map<u64, Span>, child: u64, parent: u64) -> bool {
    spans.contains_key(child) && spans[child].parent == Some(parent)
}

/// What a sibling is ordered by: its name, its start, its id.
pub type SiblingKey = (&'static str, u128, u64);

/// Whether the key `a` comes before the key `b`.
pub open spec fn key_before(a: SiblingKey, b: SiblingKey) -> bool {
    text_before(a.0@, b.0@) || (a.0@ == b.0@ && (a.1 < b.1 || (a.1 == b.1 && a.2 < b.2)))
}

/// Whether neither of the keys `a` and `b` comes before the other.
pub open spec fn key_alike(a: SiblingKey, b: SiblingKey) -> bool {
    a.0@ == b.0@ && a.1 == b.1 && a.2 == b.2
}

/// The key of the span `id`.
pub open spec fn key_of(spans: Map<u64, Span>, id: u64) -> SiblingKey {
    (spans[id].name, spans[id].start, id)
}

/// Whether the span `a` comes before the span `b` among siblings.
pub open spec fn child_before(spans: Map<u64, Span>, a: u64, b: u64) -> bool {
    key_before(key_of(spans, a), key_of(spans, b))
}

/// Whether `list` holds each of `members` once, in the order of siblings.
pub open spec fn is_listing(spans: Map<u64, Span>, members: Set<u64>, list: Seq<u64>) -> bool {
    &&& list.no_duplicates()
    &&& forall|id: u64| list.contains(id) <==> members.contains(id)
    &&& forall|i: int, j: int|
        0 <= i < j < list.len() ==> child_before(spans, #[trigger] list[i], #[trigger] list[j])
}

/// The spans whose parent is `parent`.
pub open spec fn children_set(spans: Map<u64, Span>, parent: u64) -> Set<u64> {
    Set::new(|child: u64| is_child(spans, child, parent))
}

/// The children of `parent`, in the order of siblings.
pub open spec fn children_of(spans: Map<u64, Span>, parent: u64) -> Seq<u64> {
    choose|list: Seq<u64>| is_listing(spans, children_set(spans, parent), list)
}

/// Of two keys, at most one comes before the other, and none before itself.
pub proof fn lemma_key_before_asymmetric(a: SiblingKey, b: SiblingKey)
    ensures
        !(key_before(a, b) && key_before(b, a)),
        key_alike(a, b) ==> !key_before(a, b),
{
    lemma_text_before_asymmetric(a.0@, b.0@);
    lemma_text_before_asymmetric(a.0@, a.0@);
}

/// A set of spans has one listing at most.
pub proof fn lemma_listing_unique(
    spans: Map<u64, Span>,
    members: Set<u64>,
    a: Seq<u64>,
    b: Seq<u64>,
)
    requires
        is_listing(spans, members, a),
        is_listing(spans, members, b),
    ensures
        a == b,
    decreases a.len(),
{
    if a.len() == 0 {
        if b.len() > 0 {
            assert(b.contains(b[0]));
        }
        assert(a =~= b);
    } else {
        assert(a.contains(a[0]));
        assert(b.contains(a[0]));
        assert(b.len() > 0);
        assert(b.contains(b[0]));
        assert(a.contains(b[0]));
        if a[0] != b[0] {
            let i = choose|i: int| 0 <= i < a.len() && a[i] == b[0];
            let j = choose|j: int| 0 <= j < b.len() && b[j] == a[0];
            assert(child_before(spans, a[0], a[i]));
            assert(child_before(spans, b[0], b[j]));
            lemma_key_before_asymmetric(key_of(spans, a[0]), key_of(spans, b[0]));
        }
        let first = a[0];
        let rest = members.remove(first);
        lemma_listing_skips(spans, members, a);
        lemma_listing_skips(spans, members, b);
        lemma_listing_unique(spans, rest, a.skip(1), b.skip(1));
        assert(a =~= seq![first] + a.skip(1));
        assert(b =~= seq![first] + b.skip(1));
    }
}

/// What follows the first of a listing lists the other members.
proof fn lemma_listing_skips(spans: Map<u64, Span>, members: Set<u64>, list: Seq<u64>)
    requires
        is_listing(spans, members, list),
        list.len() > 0,
    ensures
        is_listing(spans, members.remove(list[0]), list.skip(1)),
{
    let rest = list.skip(1);
    assert forall|id: u64| rest.contains(id) <==> members.remove(list[0]).contains(id) by {
        if rest.contains(id) {
            let i = choose|i: int| 0 <= i < rest.len() && rest[i] == id;
            assert(list[i + 1] == id);
            assert(list.contains(id));
        }
        if members.remove(list[0]).contains(id) {
            assert(list.contains(id));
            let i = choose|i: int| 0 <= i < list.len() && list[i] == id;
            assert(rest[i - 1] == id);
        }
    }
    assert forall|i: int, j: int| 0 <= i < j < rest.len() implies child_before(
        spans,
        #[trigger] rest[i],
        #[trigger] rest[j],
    ) by {
        assert(rest[i] == list[i + 1] && rest[j] == list[j + 1]);
    }
}

/// The listing of a span's children is the list of its children.
pub proof fn lemma_children_listed(spans: Map<u64, Span>, parent: u64, list: Seq<u64>)
    requires
        is_listing(spans, children_set(spans, parent), list),
    ensures
        list == children_of(spans, parent),
{
    lemma_listing_unique(
        spans,
        children_set(spans, parent),
        list,
        children_of(spans, parent),
    );
}

/// Of two keys, one comes before the other, or neither does.
pub proof fn lemma_key_order_total(a: SiblingKey, b: SiblingKey)
    ensures
        key_before(a, b) || key_alike(a, b) || key_before(b, a),
{
    lemma_text_before_total(a.0@, b.0@);
}

/// What comes before a key comes before all that the key comes before.
pub proof fn lemma_key_before_transitive(a: SiblingKey, b: SiblingKey, c: SiblingKey)
    requires
        key_before(a, b),
        key_before(b, c),
    ensures
        key_before(a, c),
{
    if text_before(a.0@, b.0@) && text_before(b.0@, c.0@) {
        lemma_text_before_transitive(a.0@, b.0@, c.0@);
    }
}

/// The listing with one more span in its place.
spec fn inserted(spans: Map<u64, Span>, list: Seq<u64>, id: u64) -> Seq<u64>
    decreases list.len(),
{
    if list.len() == 0 {
        seq![id]
    } else if child_before(spans, id, list[0]) {
        seq![id] + list
    } else {
        seq![list[0]] + inserted(spans, list.skip(1), id)
    }
}

proof fn lemma_inserted(spans: Map<u64, Span>, members: Set<u64>, list: Seq<u64>, id: u64)
    requires
        is_listing(spans, members, list),
        !members.contains(id),
    ensures
        is_listing(spans, members.insert(id), inserted(spans, list, id)),
    decreases list.len(),
{
    let longer = inserted(spans, list, id);
    if list.len() == 0 {
        assert(longer[0] == id);
        assert forall|other: u64| longer.contains(other) <==> members.insert(id).contains(
            other,
        ) by {
            if members.contains(other) {
                assert(list.contains(other));
            }
        }
    } else if child_before(spans, id, list[0]) {
        assert(longer[0] == id);
        assert(forall|k: int| 0 <= k < list.len() ==> longer[k + 1] == list[k]);
        assert forall|other: u64| longer.contains(other) <==> members.insert(id).contains(
            other,
        ) by {
            if list.contains(other) {
                let k = choose|k: int| 0 <= k < list.len() && list[k] == other;
                assert(longer[k + 1] == other);
            }
            if longer.contains(other) && other != id {
                let k = choose|k: int| 0 <= k < longer.len() && longer[k] == other;
                assert(list[k - 1] == other);
            }
        }
        assert(longer.no_duplicates()) by {
            assert forall|i: int, j: int|
                0 <= i < longer.len() && 0 <= j < longer.len() && i != j implies longer[i]
                != longer[j] by {
                if i > 0 {
                    assert(list.contains(list[i - 1]));
                }
                if j > 0 {
                    assert(list.contains(list[j - 1]));
                }
            }
        }
        assert forall|i: int, j: int| 0 <= i < j < longer.len() implies child_before(
            spans,
            #[trigger] longer[i],
            #[trigger] longer[j],
        ) by {
            if i == 0 && j > 1 {
                assert(child_before(spans, list[0], list[j - 1]));
                lemma_key_before_transitive(
                    key_of(spans, id),
                    key_of(spans, list[0]),
                    key_of(spans, list[j - 1]),
                );
            } else if i > 0 {
                assert(child_before(spans, list[i - 1], list[j - 1]));
            }
        }
    } else {
        let first = list[0];
        let rest = list.skip(1);
        lemma_listing_skips(spans, members, list);
        lemma_inserted(spans, members.remove(first), rest, id);
        let tail = inserted(spans, rest, id);
        assert(list.contains(first));
        assert(first != id);
        assert(longer[0] == first);
        assert(forall|k: int| 0 <= k < tail.len() ==> longer[k + 1] == tail[k]);
        lemma_key_order_total(key_of(spans, id), key_of(spans, first));
        assert(child_before(spans, first, id));
        assert forall|other: u64| longer.contains(other) <==> members.insert(id).contains(
            other,
        ) by {
            if tail.contains(other) {
                let k = choose|k: int| 0 <= k < tail.len() && tail[k] == other;
                assert(longer[k + 1] == other);
            }
            if longer.contains(other) && other != first {
                let k = choose|k: int| 0 <= k < longer.len() && longer[k] == other;
                assert(tail[k - 1] == other);
                assert(tail.contains(other));
            }
        }
        assert(longer.no_duplicates()) by {
            assert forall|i: int, j: int|
                0 <= i < longer.len() && 0 <= j < longer.len() && i != j implies longer[i]
                != longer[j] by {
                if i > 0 {
                    assert(tail.contains(tail[i - 1]));
                }
                if j > 0 {
                    assert(tail.contains(tail[j - 1]));
                }
            }
        }
        assert forall|i: int, j: int| 0 <= i < j < longer.len() implies child_before(
            spans,
            #[trigger] longer[i],
            #[trigger] longer[j],
        ) by {
            if i == 0 {
                let other = tail[j - 1];
                assert(tail.contains(other));
                if other != id {
                    assert(list.contains(other));
                    let k = choose|k: int| 0 <= k < list.len() && list[k] == other;
                    assert(child_before(spans, list[0], list[k]));
                }
            } else {
                assert(child_before(spans, tail[i - 1], tail[j - 1]));
            }
        }
    }
}

/// Finitely many spans have a listing.
pub proof fn lemma_listing_exists(spans: Map<u64, Span>, members: Set<u64>)
    requires
        members.finite(),
    ensures
        exists|list: Seq<u64>| is_listing(spans, members, list),
    decreases members.len(),
{
    if members.len() == 0 {
        assert(members =~= Set::<u64>::empty());
        assert(is_listing(spans, members, Seq::<u64>::empty()));
    } else {
        let id = members.choose();
        lemma_listing_exists(spans, members.remove(id));
        let list = choose|list: Seq<u64>| is_listing(spans, members.remove(id), list);
        lemma_inserted(spans, members.remove(id), list, id);
        assert(members.remove(id).insert(id) =~= members);
        assert(is_listing(spans, members, inserted(spans, list, id)));
    }
}

/// Where the spans are finitely many, the children of a span are listed by
/// `children_of`.
pub proof fn lemma_children_of(spans: Map<u64, Span>, parent: u64)
    requires
        spans.dom().finite(),
    ensures
        is_listing(spans, children_set(spans, parent), children_of(spans, parent)),
{
    assert(children_set(spans, parent).subset_of(spans.dom()));
    vstd::set_lib::lemma_len_subset(children_set(spans, parent), spans.dom());
    lemma_listing_exists(spans, children_set(spans, parent));
}

/// `[T]::sort` on keys: the same keys, each as often as before, none after one
/// that it comes before.
#[verifier::external_body]
fn sort_keys(keys: &mut Vec<SiblingKey>)
    ensures
        final(keys)@.to_multiset() == old(keys)@.to_multiset(),
        forall|i: int, j: int|
            0 <= i < j < final(keys)@.len() ==> key_before(
                #[trigger] final(keys)@[i],
                #[trigger] final(keys)@[j],
            ) || key_alike(final(keys)@[i], final(keys)@[j]),
{
    keys.sort()
}

/// The children that have been found for a span: those of its entry, or none.
pub open spec fn entry_of(index: Map<u64, Vec<u64>>, parent: u64) -> Seq<u64> {
    if index.contains_key(parent) {
        index[parent]@
    } else {
        Seq::empty()
    }
}

/// Whether `list` holds, each once, the children of `parent` that are among
/// `seen`.
pub open spec fn lists_children(
    spans: Map<u64, Span>,
    seen: Set<u64>,
    parent: u64,
    list: Seq<u64>,
) -> bool {
    &&& list.no_duplicates()
    &&& forall|child: u64|
        list.contains(child) <==> (seen.contains(child) && is_child(spans, child, parent))
}

/// Whether `index` gives for each span its children among `seen`, in any
/// order.
pub open spec fn indexes(index: Map<u64, Vec<u64>>, spans: Map<u64, Span>, seen: Set<u64>) -> bool {
    forall|parent: u64| lists_children(spans, seen, parent, #[trigger] entry_of(index, parent))
}

/// The spans `unsorted`, in the order of siblings.
pub(crate) fn in_order(unsorted: &Vec<u64>, spans: &HashMap<u64, Span>) -> (sorted: Vec<u64>)
    requires
        unsorted@.no_duplicates(),
        forall|k: int| 0 <= k < unsorted@.len() ==> spans@.contains_key(#[trigger] unsorted@[k]),
    ensures
        is_listing(spans@, unsorted@.to_set(), sorted@),
{
    let ghost listed = unsorted@;
    let mut keys: Vec<SiblingKey> = Vec::new();
    let mut i: usize = 0;
    while i < unsorted.len()
        invariant
            i <= unsorted@.len(),
            unsorted@ == listed,
            forall|k: int| 0 <= k < listed.len() ==> spans@.contains_key(#[trigger] listed[k]),
            keys@.len() == i,
            forall|k: int| 0 <= k < i ==> #[trigger] keys@[k] == key_of(spans@, listed[k]),
        decreases unsorted@.len() - i,
    {
        let id = unsorted[i];
        let span = *spans.get(&id).unwrap();
        keys.push((span.name, span.start, id));
        i += 1;
    }
    let ghost unsorted_keys = keys@;
    sort_keys(&mut keys);
    let mut sorted: Vec<u64> = Vec::new();
    let mut i: usize = 0;
    while i < keys.len()
        invariant
            i <= keys@.len(),
            sorted@.len() == i,
            forall|k: int| 0 <= k < i ==> #[trigger] sorted@[k] == keys@[k].2,
        decreases keys@.len() - i,
    {
        sorted.push(keys[i].2);
        i += 1;
    }
    proof {
        let sorted_keys = keys@;
        let list = sorted@;
        sorted_keys.to_multiset_ensures();
        unsorted_keys.to_multiset_ensures();
        // every sorted key is the key of a span listed
        assert forall|k: int| 0 <= k < sorted_keys.len() implies listed.contains(
            (#[trigger] sorted_keys[k]).2,
        ) && sorted_keys[k] == key_of(spans@, sorted_keys[k].2) by {
            assert(sorted_keys.contains(sorted_keys[k]));
            assert(sorted_keys.to_multiset().count(sorted_keys[k]) > 0);
            assert(unsorted_keys.to_multiset().count(sorted_keys[k]) > 0);
            assert(unsorted_keys.contains(sorted_keys[k]));
            let at = choose|at: int|
                0 <= at < unsorted_keys.len() && unsorted_keys[at] == sorted_keys[k];
            assert(unsorted_keys[at] == key_of(spans@, listed[at]));
            assert(listed[at] == sorted_keys[k].2);
        }
        // the keys of the spans listed differ
        assert(unsorted_keys.no_duplicates()) by {
            assert forall|a: int, b: int|
                0 <= a < unsorted_keys.len() && 0 <= b < unsorted_keys.len() && a != b implies unsorted_keys[a]
                != unsorted_keys[b] by {
                assert(unsorted_keys[a].2 == listed[a]);
                assert(unsorted_keys[b].2 == listed[b]);
            }
        }
        unsorted_keys.lemma_multiset_has_no_duplicates();
        sorted_keys.lemma_multiset_has_no_duplicates_conv();
        assert(list.no_duplicates()) by {
            assert forall|a: int, b: int|
                0 <= a < list.len() && 0 <= b < list.len() && a != b implies list[a] != list[b] by {
                assert(sorted_keys[a] == key_of(spans@, sorted_keys[a].2));
                assert(sorted_keys[b] == key_of(spans@, sorted_keys[b].2));
            }
        }
        assert forall|id: u64| list.contains(id) <==> listed.to_set().contains(id) by {
            if list.contains(id) {
                let k = choose|k: int| 0 <= k < list.len() && list[k] == id;
                assert(listed.contains(sorted_keys[k].2));
            }
            if listed.contains(id) {
                let at = choose|at: int| 0 <= at < listed.len() && listed[at] == id;
                assert(unsorted_keys[at] == key_of(spans@, id));
                assert(unsorted_keys.contains(key_of(spans@, id)));
                assert(unsorted_keys.to_multiset().count(key_of(spans@, id)) > 0);
                assert(sorted_keys.to_multiset().count(key_of(spans@, id)) > 0);
                assert(sorted_keys.contains(key_of(spans@, id)));
                let k = choose|k: int|
                    0 <= k < sorted_keys.len() && sorted_keys[k] == key_of(spans@, id);
                assert(list[k] == id);
            }
        }
        assert forall|a: int, b: int| 0 <= a < b < list.len() implies child_before(
            spans@,
            #[trigger] list[a],
            #[trigger] list[b],
        ) by {
            assert(sorted_keys[a] == key_of(spans@, sorted_keys[a].2));
            assert(sorted_keys[b] == key_of(spans@, sorted_keys[b].2));
            assert(key_before(sorted_keys[a], sorted_keys[b]) || key_alike(
                sorted_keys[a],
                sorted_keys[b],
            ));
        }
    }
    sorted
}

/// The children of `parent`, in the order of siblings.
pub(crate) fn sorted_children(
    parent: u64,
    index: &HashMap<u64, Vec<u64>>,
    spans: &HashMap<u64, Span>,
) -> (children: Vec<u64>)
    requires
        indexes(index@, spans@, spans@.dom()),
    ensures
        children@ == children_of(spans@, parent),
        is_listing(spans@, children_set(spans@, parent), children@),
        forall|k: int| 0 <= k < children@.len() ==> spans@.contains_key(#[trigger] children@[k]),
{
    let ghost listed = entry_of(index@, parent);
    assert(lists_children(spans@, spans@.dom(), parent, listed));
    let children = match index.get(&parent) {
        None => Vec::new(),
        Some(unsorted) => {
            assert forall|k: int| 0 <= k < unsorted@.len() implies spans@.contains_key(
                #[trigger] unsorted@[k],
            ) by {
                assert(listed.contains(unsorted@[k]));
            }
            in_order(unsorted, spans)
        },
    };
    proof {
        assert(listed.to_set() =~= children_set(spans@, parent));
        lemma_children_listed(spans@, parent, children@);
        assert forall|k: int| 0 <= k < children@.len() implies spans@.contains_key(
            #[trigger] children@[k],
        ) by {
            assert(children@.contains(children@[k]));
        }
    }
    children
}

/// The ids of the spans, each once.
pub(crate) fn span_ids(spans: &HashMap<u64, Span>) -> (ids: Vec<u64>)
    ensures
        ids@.no_duplicates(),
        forall|id: u64| ids@.contains(id) <==> spans@.contains_key(id),
        ids@.len() == spans@.dom().len(),
{
    broadcast use vstd::std_specs::hash::group_hash_axioms;

    let mut ids: Vec<u64> = Vec::new();
    for id in keys: spans.keys()
        invariant
            ids@.len() == keys.index(),
            forall|k: int| 0 <= k < ids@.len() ==> ids@[k] == *keys.seq()[k],
            keys.seq().unref().to_set() == spans@.dom(),
            keys.seq().no_duplicates(),
            keys.seq().len() == spans@.dom().len(),
            forall|k: int| 0 <= k < ids@.len() ==> spans@.contains_key(#[trigger] ids@[k]),
            ids@.no_duplicates(),
    {
        assert(keys.seq().unref()[keys.index()] == *id);
        assert(keys.seq().unref().to_set().contains(*id));
        ids.push(*id);
    }
    proof {
        ids@.unique_seq_to_set();
        assert(ids@.to_set().subset_of(spans@.dom())) by {
            assert forall|id: u64| ids@.to_set().contains(id) implies spans@.dom().contains(
                id,
            ) by {
                let k = choose|k: int| 0 <= k < ids@.len() && ids@[k] == id;
                assert(spans@.contains_key(ids@[k]));
            }
        }
        vstd::set_lib::lemma_subset_equality(ids@.to_set(), spans@.dom());
        assert forall|id: u64| ids@.contains(id) <==> spans@.contains_key(id) by {
            assert(ids@.to_set().contains(id) <==> ids@.contains(id));
        }
    }
    ids
}

/// For each span that has children, its children, in any order.
pub(crate) fn index_children(spans: &HashMap<u64, Span>, ids: &Vec<u64>) -> (index: HashMap<
    u64,
    Vec<u64>,
>)
    requires
        ids@.no_duplicates(),
        forall|id: u64| ids@.contains(id) <==> spans@.contains_key(id),
    ensures
        indexes(index@, spans@, spans@.dom()),
{
    let mut index: HashMap<u64, Vec<u64>> = HashMap::new();
    let mut k: usize = 0;
    assert(ids@.take(0).to_set() =~= Set::<u64>::empty());
    assert forall|parent: u64|
        lists_children(spans@, Set::<u64>::empty(), parent, #[trigger] entry_of(index@, parent)) by {}
    while k < ids.len()
        invariant
            k <= ids@.len(),
            ids@.no_duplicates(),
            forall|id: u64| ids@.contains(id) <==> spans@.contains_key(id),
            indexes(index@, spans@, ids@.take(k as int).to_set()),
        decreases ids@.len() - k,
    {
        let id = ids[k];
        assert(ids@.contains(id));
        let span = *spans.get(&id).unwrap();
        let ghost seen = ids@.take(k as int).to_set();
        let ghost next = ids@.take(k + 1).to_set();
        let ghost old_index = index@;
        proof {
            let before = ids@.take(k as int);
            let upto = ids@.take(k + 1);
            assert(upto == before.push(id));
            assert(next =~= seen.insert(id)) by {
                assert forall|other: u64| next.contains(other) <==> seen.insert(id).contains(
                    other,
                ) by {
                    if upto.contains(other) {
                        let at = choose|at: int| 0 <= at < upto.len() && upto[at] == other;
                        if at < k {
                            assert(before[at] == other);
                        }
                    }
                    if before.contains(other) {
                        let at = choose|at: int| 0 <= at < before.len() && before[at] == other;
                        assert(upto[at] == other);
                    }
                    assert(upto[k as int] == id);
                }
            }
            assert(!seen.contains(id)) by {
                if before.contains(id) {
                    let at = choose|at: int| 0 <= at < before.len() && before[at] == id;
                    assert(ids@[at] == ids@[k as int]);
                }
            }
        }
        match span.parent {
            None => {
                assert forall|parent: u64|
                    lists_children(spans@, next, parent, #[trigger] entry_of(index@, parent)) by {
                    assert(lists_children(spans@, seen, parent, entry_of(old_index, parent)));
                }
            },
            Some(parent) => {
                let mut list = match index.remove(&parent) {
                    Some(list) => list,
                    None => Vec::new(),
                };
                let ghost found = list@;
                assert(found == entry_of(old_index, parent));
                assert(lists_children(spans@, seen, parent, found));
                list.push(id);
                let ghost grown = list@;
                index.insert(parent, list);
                proof {
                    assert(!found.contains(id));
                    assert(grown[found.len() as int] == id);
                    assert forall|other: u64| #[trigger]
                        grown.contains(other) <==> (other == id || found.contains(other)) by {
                        if found.contains(other) {
                            let at = choose|at: int| 0 <= at < found.len() && found[at] == other;
                            assert(grown[at] == other);
                        }
                    }
                    assert forall|other: u64|
                        lists_children(
                            spans@,
                            next,
                            other,
                            #[trigger] entry_of(index@, other),
                        ) by {
                        assert(lists_children(spans@, seen, other, entry_of(old_index, other)));
                        if other == parent {
                            assert(entry_of(index@, other) == grown);
                        } else {
                            assert(entry_of(index@, other) == entry_of(old_index, other));
                        }
                    }
                }
            },
        }
        k += 1;
    }
    proof {
        assert(ids@.take(k as int) == ids@);
        assert(ids@.to_set() =~= spans@.dom());
    }
    index
}

} // verus!

//! A stable sort by textual key.
use crate::text::{stands_before, text_le};
use vstd::prelude::*;

verus! {

/// Items that are ordered by a text.
pub trait TextKey: Sized {
    /// The text that orders the item.
    spec fn key(&self) -> Seq<char>;

    /// The text that orders the item.
    fn key_text(&self) -> (text: String)
        ensures
            text@ == self.key(),
    ;
}

impl TextKey for String {
    open spec fn key(&self) -> Seq<char> {
        self@
    }

    fn key_text(&self) -> (text: String) {
        self.clone()
    }
}

/// Whether the keys of the items ascend; equal keys may follow each other.
pub open spec fn ascending<T: TextKey>(items: Seq<T>) -> bool {
    forall|i: int, j: int|
        0 <= i <= j < items.len() ==> text_le(#[trigger] items[i].key(), #[trigger] items[j].key())
}

/// The test for a key.
pub open spec fn key_is<T: TextKey>(key: Seq<char>) -> spec_fn(T) -> bool {
    |item: T| item.key() == key
}

/// The items with a given key, in their order.
pub open spec fn with_key<T: TextKey>(items: Seq<T>, key: Seq<char>) -> Seq<T> {
    items.filter(key_is(key))
}

/// Whether `sorted` is the stable sort of `items`: its keys ascend, and the
/// items of each key are those of `items` in the order they had there.
pub open spec fn stable_sort_of<T: TextKey>(items: Seq<T>, sorted: Seq<T>) -> bool {
    &&& ascending(sorted)
    &&& forall|key: Seq<char>| #[trigger] with_key(sorted, key) == with_key(items, key)
}

/// Filtering splits over concatenation.
proof fn filter_concat<T>(a: Seq<T>, b: Seq<T>, keep: spec_fn(T) -> bool)
    ensures
        (a + b).filter(keep) == a.filter(keep) + b.filter(keep),
    decreases b.len(),
{
    reveal(Seq::filter);
    if b.len() == 0 {
        assert(a + b == a);
    } else {
        filter_concat(a, b.drop_last(), keep);
        assert((a + b).drop_last() == a + b.drop_last());
    }
}

/// A filter that keeps none of the items leaves nothing.
proof fn filter_none<T>(a: Seq<T>, keep: spec_fn(T) -> bool)
    requires
        forall|i: int| 0 <= i < a.len() ==> !keep(#[trigger] a[i]),
    ensures
        a.filter(keep) == Seq::<T>::empty(),
    decreases a.len(),
{
    reveal(Seq::filter);
    if a.len() > 0 {
        filter_none(a.drop_last(), keep);
    }
}

/// The first position whose key does not stand strictly before `key`.
fn lower_bound<T: TextKey>(items: &Vec<T>, key: &str) -> (at: usize)
    requires
        ascending(items@),
    ensures
        at <= items@.len(),
        forall|i: int| 0 <= i < at ==> !text_le(key@, #[trigger] items@[i].key()),
        forall|i: int| at <= i < items@.len() ==> text_le(key@, #[trigger] items@[i].key()),
{
    let mut low: usize = 0;
    let mut high: usize = items.len();
    while low < high
        invariant
            low <= high <= items@.len(),
            ascending(items@),
            forall|i: int| 0 <= i < low ==> !text_le(key@, #[trigger] items@[i].key()),
            forall|i: int| high <= i < items@.len() ==> text_le(key@, #[trigger] items@[i].key()),
        decreases high - low,
    {
        let mid: usize = low + (high - low) / 2;
        if stands_before(key, items[mid].key_text().as_str()) {
            proof {
                assert forall|i: int| mid <= i < items@.len() implies text_le(
                    key@,
                    #[trigger] items@[i].key(),
                ) by {
                    crate::text::text_le_transitive(
                        key@,
                        items@[mid as int].key(),
                        items@[i].key(),
                    );
                }
            }
            high = mid;
        } else {
            proof {
                assert forall|i: int| 0 <= i <= mid implies !text_le(
                    key@,
                    #[trigger] items@[i].key(),
                ) by {
                    if text_le(key@, items@[i].key()) {
                        crate::text::text_le_transitive(
                            key@,
                            items@[i].key(),
                            items@[mid as int].key(),
                        );
                    }
                }
            }
            low = mid + 1;
        }
    }
    low
}

/// Inserting in front of everything that does not stand strictly before keeps
/// the keys ascending and puts the item first among its equals.
proof fn insert_is_stable<T: TextKey>(sorted: Seq<T>, at: int, item: T)
    requires
        0 <= at <= sorted.len(),
        ascending(sorted),
        forall|i: int| 0 <= i < at ==> !text_le(item.key(), #[trigger] sorted[i].key()),
        forall|i: int| at <= i < sorted.len() ==> text_le(item.key(), #[trigger] sorted[i].key()),
    ensures
        ascending(sorted.insert(at, item)),
        forall|key: Seq<char>| #[trigger]
            with_key(sorted.insert(at, item), key) == with_key(seq![item], key) + with_key(
                sorted,
                key,
            ),
{
    let result = sorted.insert(at, item);
    let head = sorted.take(at);
    let tail = sorted.skip(at);
    assert(sorted == head + tail);
    assert(result == head + (seq![item] + tail));
    assert forall|i: int, j: int| 0 <= i <= j < result.len() implies text_le(
        #[trigger] result[i].key(),
        #[trigger] result[j].key(),
    ) by {
        let before = if i < at { i } else { i - 1 };
        let after = if j < at { j } else { j - 1 };
        if i == at && j == at {
            crate::text::text_le_reflexive(item.key());
        } else if i == at {
            assert(result[j] == sorted[after]);
        } else if j == at {
            assert(result[i] == sorted[before]);
            crate::text::text_le_total(item.key(), sorted[before].key());
        } else {
            assert(result[i] == sorted[before]);
            assert(result[j] == sorted[after]);
        }
    }
    assert forall|key: Seq<char>| #[trigger] with_key(result, key) == with_key(seq![item], key)
        + with_key(sorted, key) by {
        let keep = key_is::<T>(key);
        filter_concat(head, seq![item] + tail, keep);
        filter_concat(seq![item], tail, keep);
        filter_concat(head, tail, keep);
        if item.key() == key {
            assert forall|i: int| 0 <= i < head.len() implies !keep(#[trigger] head[i]) by {
                assert(head[i] == sorted[i]);
                crate::text::text_le_reflexive(key);
            }
            filter_none(head, keep);
        } else {
            assert forall|i: int| 0 <= i < seq![item].len() implies !keep(
                #[trigger] seq![item][i],
            ) by {}
            filter_none(seq![item], keep);
        }
        assert(with_key(result, key) == with_key(seq![item], key) + with_key(sorted, key));
    }
}

/// Sorts by key; items with equal keys keep their order.
pub fn sort_by_text<T: TextKey>(items: Vec<T>) -> (sorted: Vec<T>)
    ensures
        stable_sort_of(items@, sorted@),
        sorted@.to_multiset() == items@.to_multiset(),
        forall|i: int, j: int|
            0 <= i < j < sorted@.len() ==> text_le(
                #[trigger] sorted@[i].key(),
                #[trigger] sorted@[j].key(),
            ),
{
    let ghost all = items@;
    let mut items = items;
    let mut sorted: Vec<T> = Vec::new();
    assert(all.skip(all.len() as int) == Seq::<T>::empty());
    while items.len() > 0
        invariant
            items@.len() <= all.len(),
            items@ == all.take(items@.len() as int),
            stable_sort_of(all.skip(items@.len() as int), sorted@),
        decreases items@.len(),
    {
        let ghost rest = all.skip(items@.len() as int);
        match items.pop() {
            None => {},
            Some(item) => {
                let at: usize = lower_bound(&sorted, item.key_text().as_str());
                proof {
                    insert_is_stable(sorted@, at as int, item);
                    let longer = all.skip(items@.len() as int);
                    assert(longer == seq![item] + rest);
                    assert forall|key: Seq<char>| #[trigger] with_key(
                        sorted@.insert(at as int, item),
                        key,
                    ) == with_key(longer, key) by {
                        filter_concat(seq![item], rest, key_is(key));
                        assert(with_key(sorted@, key) == with_key(rest, key));
                    }
                }
                sorted.insert(at, item);
            },
        }
    }
    assert(all.skip(0) == all);
    proof {
        sorting_keeps_every_item(all, sorted@);
    }
    sorted
}

/// The items without those whose key equals that of the item kept before them.
pub open spec fn deduped<T: TextKey>(items: Seq<T>) -> Seq<T>
    decreases items.len(),
{
    if items.len() == 0 {
        items
    } else {
        let kept = deduped(items.drop_last());
        if kept.len() > 0 && kept.last().key() == items.last().key() {
            kept
        } else {
            kept.push(items.last())
        }
    }
}

/// Whether `item` is the first of `items` with its key.
pub open spec fn first_of_key<T: TextKey>(items: Seq<T>, item: T) -> bool {
    exists|k: int|
        {
            &&& 0 <= k < items.len()
            &&& #[trigger] items[k] == item
            &&& forall|m: int| 0 <= m < k ==> (#[trigger] items[m]).key() != item.key()
        }
}

/// Whether the keys ascend and none occurs twice.
pub open spec fn strictly_ascending<T: TextKey>(items: Seq<T>) -> bool {
    forall|i: int, j: int|
        0 <= i < j < items.len() ==> {
            &&& text_le((#[trigger] items[i]).key(), (#[trigger] items[j]).key())
            &&& items[i].key() != items[j].key()
        }
}

/// Whether one of the items has a given key.
pub open spec fn has_key<T: TextKey>(items: Seq<T>, key: Seq<char>) -> bool {
    exists|i: int| 0 <= i < items.len() && (#[trigger] items[i]).key() == key
}

/// Whether `kept` holds for each key of `items` the first item that has it, in
/// ascending order of the keys.
pub open spec fn firsts_in_order<T: TextKey>(items: Seq<T>, kept: Seq<T>) -> bool {
    &&& strictly_ascending(kept)
    &&& forall|i: int| 0 <= i < kept.len() ==> first_of_key(items, #[trigger] kept[i])
    &&& forall|k: int| 0 <= k < items.len() ==> has_key(kept, (#[trigger] items[k]).key())
}

/// What comes first among some items comes first where an item is added, and
/// stands at or before it.
proof fn first_stays_first<T: TextKey>(items: Seq<T>, item: T)
    requires
        items.len() > 0,
        ascending(items),
        first_of_key(items.drop_last(), item),
    ensures
        first_of_key(items, item),
        text_le(item.key(), items.last().key()),
{
    let head = items.drop_last();
    let k = choose|k: int|
        {
            &&& 0 <= k < head.len()
            &&& #[trigger] head[k] == item
            &&& forall|m: int| 0 <= m < k ==> (#[trigger] head[m]).key() != item.key()
        };
    assert(items[k] == item);
    assert forall|m: int| 0 <= m < k implies (#[trigger] items[m]).key() != item.key() by {
        assert(items[m] == head[m]);
    }
    assert(text_le(items[k].key(), items[items.len() - 1].key()));
}

/// The last of ascending items comes first where the item before it has another
/// key.
proof fn last_comes_first<T: TextKey>(items: Seq<T>)
    requires
        items.len() > 0,
        ascending(items),
        items.len() > 1 ==> items[items.len() - 2].key() != items.last().key(),
    ensures
        first_of_key(items, items.last()),
{
    let n = items.len() - 1;
    let item = items[n];
    assert forall|m: int| 0 <= m < n implies (#[trigger] items[m]).key() != item.key() by {
        if items[m].key() == item.key() {
            assert(text_le(items[m].key(), items[n - 1].key()));
            assert(text_le(items[n - 1].key(), items[n].key()));
            crate::text::text_le_antisymmetric(item.key(), items[n - 1].key());
        }
    }
}

/// What is kept of ascending items are the firsts of their keys.
proof fn deduped_keeps_firsts<T: TextKey>(items: Seq<T>)
    requires
        ascending(items),
    ensures
        firsts_in_order(items, deduped(items)),
        items.len() > 0 ==> deduped(items).len() > 0 && deduped(items).last().key()
            == items.last().key(),
    decreases items.len(),
{
    if items.len() > 0 {
        let head = items.drop_last();
        let item = items.last();
        let kept = deduped(head);
        let all = deduped(items);
        let n = head.len() as int;
        assert(ascending(head)) by {
            assert forall|i: int, j: int| 0 <= i <= j < head.len() implies text_le(
                #[trigger] head[i].key(),
                #[trigger] head[j].key(),
            ) by {
                assert(text_le(items[i].key(), items[j].key()));
            }
        }
        deduped_keeps_firsts(head);
        assert forall|i: int| 0 <= i < kept.len() implies first_of_key(items, #[trigger] kept[i])
            && text_le(kept[i].key(), item.key()) by {
            first_stays_first(items, kept[i]);
        }
        if kept.len() > 0 && kept.last().key() == item.key() {
            assert(all == kept);
        } else {
            assert(all == kept.push(item));
            assert(n > 0 ==> head.last() == items[n - 1]);
            last_comes_first(items);
            assert(strictly_ascending(all)) by {
                assert forall|i: int, j: int| 0 <= i < j < all.len() implies text_le(
                    (#[trigger] all[i]).key(),
                    (#[trigger] all[j]).key(),
                ) && all[i].key() != all[j].key() by {
                    assert(all[i] == kept[i]);
                    let last = kept.len() - 1;
                    if j < kept.len() {
                        assert(all[j] == kept[j]);
                    } else if i < last && kept[i].key() == item.key() {
                        assert(text_le(kept[i].key(), kept[last].key()));
                        assert(text_le(kept[last].key(), item.key()));
                        crate::text::text_le_antisymmetric(kept[last].key(), item.key());
                    }
                }
            }
            assert forall|i: int| 0 <= i < all.len() implies first_of_key(
                items,
                #[trigger] all[i],
            ) by {
                if i < kept.len() {
                    assert(all[i] == kept[i]);
                }
            }
        }
        assert(has_key(all, item.key())) by {
            assert(all[all.len() - 1].key() == item.key());
        }
        assert forall|k: int| 0 <= k < items.len() implies has_key(
            all,
            (#[trigger] items[k]).key(),
        ) by {
            if k < n {
                assert(items[k] == head[k]);
                let i = choose|i: int|
                    0 <= i < kept.len() && (#[trigger] kept[i]).key() == head[k].key();
                assert(all[i] == kept[i]);
            }
        }
    }
}

/// The first of the items with a key is the first that the filter finds.
proof fn filter_finds_first<T: TextKey>(items: Seq<T>, item: T)
    ensures
        first_of_key(items, item) <==> with_key(items, item.key()).len() > 0 && with_key(
            items,
            item.key(),
        )[0] == item,
        forall|k: int|
            0 <= k < items.len() && (#[trigger] items[k]).key() == item.key() ==> with_key(
                items,
                item.key(),
            ).len() > 0,
    decreases items.len(),
{
    reveal(Seq::filter);
    let key = item.key();
    let found = with_key(items, key);
    if items.len() > 0 {
        let head = items.drop_last();
        filter_finds_first(head, item);
        let earlier = with_key(head, key);
        let last = items.last();
        assert(found == if last.key() == key {
            earlier.push(last)
        } else {
            earlier
        });
        if first_of_key(items, item) {
            let k = choose|k: int|
                {
                    &&& 0 <= k < items.len()
                    &&& #[trigger] items[k] == item
                    &&& forall|m: int| 0 <= m < k ==> (#[trigger] items[m]).key() != key
                };
            if k < head.len() {
                assert(head[k] == item);
                assert forall|m: int| 0 <= m < k implies (#[trigger] head[m]).key() != key by {
                    assert(head[m] == items[m]);
                }
                assert(first_of_key(head, item));
                assert(found[0] == item);
            } else {
                assert forall|i: int| 0 <= i < head.len() implies !key_is::<T>(key)(
                    #[trigger] head[i],
                ) by {
                    assert(head[i] == items[i]);
                }
                filter_none(head, key_is(key));
                assert(earlier.len() == 0);
                assert(found[0] == item);
            }
        }
        if found.len() > 0 && found[0] == item {
            if earlier.len() > 0 {
                assert(earlier[0] == item);
                let k = choose|k: int|
                    {
                        &&& 0 <= k < head.len()
                        &&& #[trigger] head[k] == item
                        &&& forall|m: int| 0 <= m < k ==> (#[trigger] head[m]).key() != key
                    };
                assert(items[k] == item);
                assert forall|m: int| 0 <= m < k implies (#[trigger] items[m]).key() != key by {
                    assert(head[m] == items[m]);
                }
            } else {
                assert(last == item);
                assert(items[head.len() as int] == item);
                assert forall|m: int| 0 <= m < head.len() implies (#[trigger] items[m]).key()
                    != key by {
                    assert(head[m] == items[m]);
                }
            }
            assert(first_of_key(items, item));
        }
        assert forall|k: int|
            0 <= k < items.len() && (#[trigger] items[k]).key() == key implies found.len() > 0 by {
            if k < head.len() {
                assert(head[k] == items[k]);
            }
        }
    }
}

/// Deduplicating the stable sort of some items keeps the firsts of their keys.
pub(crate) proof fn sort_then_dedup<T: TextKey>(items: Seq<T>, sorted: Seq<T>)
    requires
        stable_sort_of(items, sorted),
    ensures
        firsts_in_order(items, deduped(sorted)),
{
    let kept = deduped(sorted);
    deduped_keeps_firsts(sorted);
    assert forall|i: int| 0 <= i < kept.len() implies first_of_key(items, #[trigger] kept[i]) by {
        filter_finds_first(sorted, kept[i]);
        filter_finds_first(items, kept[i]);
        assert(with_key(sorted, kept[i].key()) == with_key(items, kept[i].key()));
    }
    assert forall|k: int| 0 <= k < items.len() implies has_key(
        kept,
        (#[trigger] items[k]).key(),
    ) by {
        let key = items[k].key();
        filter_finds_first(items, items[k]);
        assert(with_key(sorted, key) == with_key(items, key));
        let first = with_key(sorted, key)[0];
        filter_keeps_keys(sorted, key);
        filter_finds_first(sorted, first);
        let s = choose|s: int|
            {
                &&& 0 <= s < sorted.len()
                &&& #[trigger] sorted[s] == first
                &&& forall|m: int| 0 <= m < s ==> (#[trigger] sorted[m]).key() != first.key()
            };
        assert(sorted[s].key() == key);
    }
}

/// The filter for a key finds items with that key only.
proof fn filter_keeps_keys<T: TextKey>(items: Seq<T>, key: Seq<char>)
    ensures
        forall|i: int|
            0 <= i < with_key(items, key).len() ==> (#[trigger] with_key(items, key)[i]).key()
                == key,
    decreases items.len(),
{
    reveal(Seq::filter);
    if items.len() > 0 {
        filter_keeps_keys(items.drop_last(), key);
    }
}

/// A key that the filter finds is the key of some item.
proof fn filter_finds_only_items<T: TextKey>(items: Seq<T>, key: Seq<char>)
    requires
        with_key(items, key).len() > 0,
    ensures
        first_of_key(items, with_key(items, key)[0]),
        with_key(items, key)[0].key() == key,
{
    filter_keeps_keys(items, key);
    filter_finds_first(items, with_key(items, key)[0]);
}

/// Two ascending lists that agree on the items of each key are the same list.
proof fn same_keys_same_list<T: TextKey>(a: Seq<T>, b: Seq<T>)
    requires
        ascending(a),
        ascending(b),
        forall|key: Seq<char>| #[trigger] with_key(a, key) == with_key(b, key),
    ensures
        a == b,
    decreases a.len(),
{
    reveal(Seq::filter);
    if a.len() == 0 {
        if b.len() > 0 {
            filter_finds_first(b, b[0]);
            assert(with_key(a, b[0].key()) == with_key(b, b[0].key()));
        }
        assert(a == b);
    } else {
        let x = a[0];
        assert(first_of_key(a, x));
        filter_finds_first(a, x);
        assert(with_key(a, x.key()) == with_key(b, x.key()));
        filter_finds_only_items(b, x.key());
        let y = b[0];
        assert(first_of_key(b, y));
        filter_finds_first(b, y);
        assert(with_key(a, y.key()) == with_key(b, y.key()));
        filter_finds_only_items(a, y.key());
        let j = choose|j: int|
            {
                &&& 0 <= j < b.len()
                &&& #[trigger] b[j] == with_key(b, x.key())[0]
                &&& forall|m: int|
                    0 <= m < j ==> (#[trigger] b[m]).key() != with_key(b, x.key())[0].key()
            };
        let i = choose|i: int|
            {
                &&& 0 <= i < a.len()
                &&& #[trigger] a[i] == with_key(a, y.key())[0]
                &&& forall|m: int|
                    0 <= m < i ==> (#[trigger] a[m]).key() != with_key(a, y.key())[0].key()
            };
        assert(text_le(b[0].key(), b[j].key()));
        assert(text_le(a[0].key(), a[i].key()));
        crate::text::text_le_antisymmetric(x.key(), y.key());
        assert(x == y);
        let more_a = a.drop_first();
        let more_b = b.drop_first();
        assert(a == seq![x] + more_a);
        assert(b == seq![x] + more_b);
        assert forall|key: Seq<char>| #[trigger] with_key(more_a, key) == with_key(more_b, key) by {
            filter_concat(seq![x], more_a, key_is(key));
            filter_concat(seq![x], more_b, key_is(key));
            let n = with_key(seq![x], key).len() as int;
            assert(with_key(a, key) == with_key(b, key));
            assert(with_key(a, key).skip(n) == with_key(more_a, key));
            assert(with_key(b, key).skip(n) == with_key(more_b, key));
        }
        assert forall|i: int, j: int| 0 <= i <= j < more_a.len() implies text_le(
            #[trigger] more_a[i].key(),
            #[trigger] more_a[j].key(),
        ) by {
            assert(text_le(a[i + 1].key(), a[j + 1].key()));
        }
        assert forall|i: int, j: int| 0 <= i <= j < more_b.len() implies text_le(
            #[trigger] more_b[i].key(),
            #[trigger] more_b[j].key(),
        ) by {
            assert(text_le(b[i + 1].key(), b[j + 1].key()));
        }
        same_keys_same_list(more_a, more_b);
    }
}

/// Some items have only one stable sort.
pub proof fn stable_sort_is_unique<T: TextKey>(items: Seq<T>, sorted: Seq<T>, other: Seq<T>)
    requires
        stable_sort_of(items, sorted),
        stable_sort_of(items, other),
    ensures
        sorted == other,
{
    assert forall|key: Seq<char>| #[trigger] with_key(sorted, key) == with_key(other, key) by {
        assert(with_key(other, key) == with_key(items, key));
    }
    same_keys_same_list(sorted, other);
}

/// Sorting what is in order already changes nothing.
pub proof fn sorting_again_changes_nothing<T: TextKey>(items: Seq<T>, sorted: Seq<T>)
    requires
        ascending(items),
        stable_sort_of(items, sorted),
    ensures
        sorted == items,
{
    stable_sort_is_unique(items, sorted, items);
}

/// Where no key occurs twice, the filter finds at most one item.
proof fn strict_filter_finds_one<T: TextKey>(items: Seq<T>, key: Seq<char>)
    requires
        strictly_ascending(items),
    ensures
        with_key(items, key).len() <= 1,
    decreases items.len(),
{
    reveal(Seq::filter);
    if items.len() > 0 {
        let head = items.drop_last();
        assert forall|i: int, j: int| 0 <= i < j < head.len() implies text_le(
            (#[trigger] head[i]).key(),
            (#[trigger] head[j]).key(),
        ) && head[i].key() != head[j].key() by {
            assert(head[i] == items[i] && head[j] == items[j]);
        }
        strict_filter_finds_one(head, key);
        if items.last().key() == key {
            assert forall|i: int| 0 <= i < head.len() implies !key_is::<T>(key)(
                #[trigger] head[i],
            ) by {
                assert(head[i] == items[i]);
                assert(items[items.len() - 1].key() == key);
            }
            filter_none(head, key_is(key));
        }
    }
}

/// The firsts with a key are the first of the items with that key, where there
/// is one.
proof fn firsts_with_key<T: TextKey>(items: Seq<T>, kept: Seq<T>, key: Seq<char>)
    requires
        firsts_in_order(items, kept),
    ensures
        with_key(kept, key) == if with_key(items, key).len() > 0 {
            seq![with_key(items, key)[0]]
        } else {
            Seq::empty()
        },
{
    strict_filter_finds_one(kept, key);
    if with_key(kept, key).len() > 0 {
        filter_finds_only_items(kept, key);
        let item = with_key(kept, key)[0];
        let i = choose|i: int|
            {
                &&& 0 <= i < kept.len()
                &&& #[trigger] kept[i] == item
                &&& forall|m: int| 0 <= m < i ==> (#[trigger] kept[m]).key() != item.key()
            };
        assert(first_of_key(items, kept[i]));
        filter_finds_first(items, item);
    }
    if with_key(items, key).len() > 0 {
        filter_finds_only_items(items, key);
        let item = with_key(items, key)[0];
        let k = choose|k: int|
            {
                &&& 0 <= k < items.len()
                &&& #[trigger] items[k] == item
                &&& forall|m: int| 0 <= m < k ==> (#[trigger] items[m]).key() != item.key()
            };
        let i = choose|i: int| 0 <= i < kept.len() && (#[trigger] kept[i]).key() == items[k].key();
        filter_finds_first(kept, kept[i]);
    }
}

/// The firsts of the keys of some items are determined.
pub proof fn firsts_are_unique<T: TextKey>(items: Seq<T>, kept: Seq<T>, other: Seq<T>)
    requires
        firsts_in_order(items, kept),
        firsts_in_order(items, other),
    ensures
        kept == other,
{
    strict_is_ascending(kept);
    strict_is_ascending(other);
    assert forall|key: Seq<char>| #[trigger] with_key(kept, key) == with_key(other, key) by {
        firsts_with_key(items, kept, key);
        firsts_with_key(items, other, key);
    }
    same_keys_same_list(kept, other);
}

/// How often a model occurs in a list is how often it occurs among the items
/// with its key.
proof fn occurrences_have_key<T: TextKey, M>(
    items: Seq<T>,
    model: spec_fn(T) -> M,
    key: spec_fn(M) -> Seq<char>,
    m: M,
)
    requires
        forall|item: T| #[trigger] item.key() == key(model(item)),
    ensures
        items.map_values(model).to_multiset().count(m) == with_key(items, key(m)).map_values(
            model,
        ).to_multiset().count(m),
    decreases items.len(),
{
    broadcast use vstd::seq_lib::group_to_multiset_ensures;

    reveal(Seq::filter);
    if items.len() > 0 {
        let head = items.drop_last();
        let last = items.last();
        occurrences_have_key(head, model, key, m);
        assert(items.map_values(model) == head.map_values(model).push(model(last)));
        let earlier = with_key(head, key(m));
        assert(last.key() == key(model(last)));
        if last.key() == key(m) {
            assert(with_key(items, key(m)) == earlier.push(last));
            assert(earlier.push(last).map_values(model) == earlier.map_values(model).push(
                model(last),
            ));
        } else {
            assert(with_key(items, key(m)) == earlier);
        }
    } else {
        assert(items.map_values(model) == with_key(items, key(m)).map_values(model));
    }
}

/// A stable sort holds the same items equally often, seen through a model that
/// tells their keys.
pub(crate) proof fn sort_keeps_models<T: TextKey, M>(
    items: Seq<T>,
    sorted: Seq<T>,
    model: spec_fn(T) -> M,
    key: spec_fn(M) -> Seq<char>,
)
    requires
        stable_sort_of(items, sorted),
        forall|item: T| #[trigger] item.key() == key(model(item)),
    ensures
        sorted.map_values(model).to_multiset() == items.map_values(model).to_multiset(),
{
    let left = sorted.map_values(model).to_multiset();
    let right = items.map_values(model).to_multiset();
    assert forall|m: M| left.count(m) == right.count(m) by {
        occurrences_have_key(items, model, key, m);
        occurrences_have_key(sorted, model, key, m);
        assert(with_key(sorted, key(m)) == with_key(items, key(m)));
    }
    assert(left =~= right);
}

/// What is filtered out of an ordered list is ordered.
pub(crate) proof fn filter_keeps_order<T>(
    items: Seq<T>,
    keep: spec_fn(T) -> bool,
    le: spec_fn(T, T) -> bool,
)
    requires
        forall|i: int, j: int| 0 <= i < j < items.len() ==> #[trigger] le(items[i], items[j]),
    ensures
        forall|a: int, b: int|
            0 <= a < b < items.filter(keep).len() ==> #[trigger] le(
                items.filter(keep)[a],
                items.filter(keep)[b],
            ),
    decreases items.len(),
{
    reveal(Seq::filter);
    if items.len() > 0 {
        let head = items.drop_last();
        let last = items.len() - 1;
        assert forall|i: int, j: int| 0 <= i < j < head.len() implies #[trigger] le(
            head[i],
            head[j],
        ) by {
            assert(le(items[i], items[j]));
        }
        filter_keeps_order(head, keep, le);
        let found = items.filter(keep);
        let earlier = head.filter(keep);
        assert forall|a: int, b: int| 0 <= a < b < found.len() implies #[trigger] le(
            found[a],
            found[b],
        ) by {
            if b < earlier.len() {
                assert(le(earlier[a], earlier[b]));
            } else {
                let i = filtered_from(head, keep, a);
                assert(le(items[i], items[last]));
            }
        }
    }
}

/// Where an item that the filter finds comes from.
proof fn filtered_from<T>(items: Seq<T>, keep: spec_fn(T) -> bool, a: int) -> (i: int)
    requires
        0 <= a < items.filter(keep).len(),
    ensures
        0 <= i < items.len(),
        items[i] == items.filter(keep)[a],
    decreases items.len(),
{
    reveal(Seq::filter);
    if a == items.drop_last().filter(keep).len() {
        items.len() - 1
    } else {
        filtered_from(items.drop_last(), keep, a)
    }
}

/// The items that a filter keeps are ordered in the list as they are among what
/// is kept.
pub(crate) proof fn filter_shows_order<T>(
    items: Seq<T>,
    keep: spec_fn(T) -> bool,
    le: spec_fn(T, T) -> bool,
)
    requires
        forall|a: int, b: int|
            0 <= a < b < items.filter(keep).len() ==> #[trigger] le(
                items.filter(keep)[a],
                items.filter(keep)[b],
            ),
    ensures
        forall|i: int, j: int|
            0 <= i < j < items.len() && keep(items[i]) && keep(items[j]) ==> #[trigger] le(
                items[i],
                items[j],
            ),
    decreases items.len(),
{
    reveal(Seq::filter);
    if items.len() > 0 {
        let head = items.drop_last();
        let found = items.filter(keep);
        let earlier = head.filter(keep);
        assert forall|a: int, b: int| 0 <= a < b < earlier.len() implies #[trigger] le(
            earlier[a],
            earlier[b],
        ) by {
            assert(le(found[a], found[b]));
        }
        filter_shows_order(head, keep, le);
        assert forall|i: int, j: int|
            0 <= i < j < items.len() && keep(items[i]) && keep(items[j]) implies #[trigger] le(
            items[i],
            items[j],
        ) by {
            if j < head.len() {
                assert(le(head[i], head[j]));
            } else {
                let a = filtered_to(head, keep, i);
                assert(le(found[a], found[earlier.len() as int]));
            }
        }
    }
}

/// Where the filter puts an item that it keeps.
proof fn filtered_to<T>(items: Seq<T>, keep: spec_fn(T) -> bool, i: int) -> (a: int)
    requires
        0 <= i < items.len(),
        keep(items[i]),
    ensures
        0 <= a < items.filter(keep).len(),
        items.filter(keep)[a] == items[i],
    decreases items.len(),
{
    reveal(Seq::filter);
    if i == items.len() - 1 {
        items.drop_last().filter(keep).len() as int
    } else {
        filtered_to(items.drop_last(), keep, i)
    }
}

/// Keys that ascend strictly ascend.
pub proof fn strict_is_ascending<T: TextKey>(items: Seq<T>)
    requires
        strictly_ascending(items),
    ensures
        ascending(items),
{
    assert forall|i: int, j: int| 0 <= i <= j < items.len() implies text_le(
        #[trigger] items[i].key(),
        #[trigger] items[j].key(),
    ) by {
        if i == j {
            crate::text::text_le_reflexive(items[i].key());
        } else {
            assert(items[i].key() != items[j].key());
        }
    }
}

/// Sorting keeps every item as often as it occurs, and puts the keys in ascending
/// order.
pub proof fn sorting_keeps_every_item<T: TextKey>(items: Seq<T>, sorted: Seq<T>)
    requires
        stable_sort_of(items, sorted),
    ensures
        sorted.to_multiset() == items.to_multiset(),
        sorted.len() == items.len(),
        forall|i: int, j: int|
            0 <= i < j < sorted.len() ==> text_le(
                #[trigger] sorted[i].key(),
                #[trigger] sorted[j].key(),
            ),
{
    broadcast use vstd::seq_lib::group_to_multiset_ensures;

    let same = |item: T| item;
    let key_of = |item: T| item.key();
    sort_keeps_models(items, sorted, same, key_of);
    assert(items.map_values(same) =~= items);
    assert(sorted.map_values(same) =~= sorted);
    assert(sorted.to_multiset().len() == sorted.len());
    assert(items.to_multiset().len() == items.len());
}

/// Sorting leaves the items of a key in the order that they had.
pub proof fn sorting_is_stable<T: TextKey>(items: Seq<T>, sorted: Seq<T>, key: Seq<char>)
    requires
        stable_sort_of(items, sorted),
    ensures
        sorted.filter(|item: T| item.key() == key) == items.filter(|item: T| item.key() == key),
{
    let wanted = |item: T| item.key() == key;
    assert(key_is::<T>(key) =~= wanted);
    assert(with_key(sorted, key) == with_key(items, key));
}

/// What is kept of some items has each of their keys once, in ascending order.
pub proof fn firsts_have_every_key<T: TextKey>(items: Seq<T>, kept: Seq<T>, k: int)
    requires
        firsts_in_order(items, kept),
    ensures
        0 <= k < items.len() ==> exists|i: int|
            0 <= i < kept.len() && (#[trigger] kept[i]).key() == items[k].key(),
        forall|i: int, j: int|
            0 <= i < j < kept.len() ==> text_le(
                (#[trigger] kept[i]).key(),
                (#[trigger] kept[j]).key(),
            ) && kept[i].key() != kept[j].key(),
{
    if 0 <= k < items.len() {
        assert(has_key(kept, items[k].key()));
    }
}

/// What is kept of some items is one of them, and none with its key comes before
/// it.
pub proof fn firsts_come_first<T: TextKey>(items: Seq<T>, kept: Seq<T>, i: int)
    requires
        firsts_in_order(items, kept),
        0 <= i < kept.len(),
    ensures
        exists|k: int|
            0 <= k < items.len() && #[trigger] items[k] == kept[i] && forall|m: int|
                0 <= m < k ==> (#[trigger] items[m]).key() != kept[i].key(),
{
    assert(first_of_key(items, kept[i]));
}

} // verus!

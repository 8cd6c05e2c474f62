//! Lists that are filtered and ordered: the two steps that every query is
//! made of.

use vstd::prelude::*;

verus! {

/// The items of a list that are wanted, in their order.
pub open spec fn kept_if<T>(list: Seq<T>, wanted: spec_fn(T) -> bool) -> Seq<T>
    decreases list.len(),
{
    if list.len() == 0 {
        Seq::empty()
    } else if wanted(list.last()) {
        kept_if(list.drop_last(), wanted).push(list.last())
    } else {
        kept_if(list.drop_last(), wanted)
    }
}

/// Every item that is kept is wanted and comes from the list, and the kept
/// items are no more than the list holds.
pub proof fn lemma_kept_if<T>(list: Seq<T>, wanted: spec_fn(T) -> bool)
    ensures
        kept_if(list, wanted).len() <= list.len(),
        forall|k: int|
            0 <= k < kept_if(list, wanted).len() ==> wanted(#[trigger] kept_if(list, wanted)[k])
                && list.contains(kept_if(list, wanted)[k]),
        forall|i: int|
            0 <= i < list.len() && wanted(#[trigger] list[i]) ==> kept_if(list, wanted).contains(
                list[i],
            ),
    decreases list.len(),
{
    if list.len() > 0 {
        let front = list.drop_last();
        lemma_kept_if(front, wanted);
        let kept = kept_if(list, wanted);
        let inner = kept_if(front, wanted);
        assert forall|k: int| 0 <= k < kept.len() implies wanted(#[trigger] kept[k])
            && list.contains(kept[k]) by {
            if k < inner.len() {
                assert(kept[k] == inner[k]);
                let w = choose|w: int| 0 <= w < front.len() && front[w] == inner[k];
                assert(list[w] == kept[k]);
            } else {
                assert(list[list.len() - 1] == kept[k]);
            }
        }
        assert forall|i: int| 0 <= i < list.len() && wanted(#[trigger] list[i])
            implies kept.contains(list[i]) by {
            if i < front.len() {
                assert(front[i] == list[i]);
                let w = choose|w: int| 0 <= w < inner.len() && inner[w] == front[i];
                assert(kept[w] == list[i]);
            } else {
                assert(kept[kept.len() - 1] == list[i]);
            }
        }
    }
}

/// The items of a list that `keep` accepts, in their order.
pub(crate) fn keep_if<T: Copy, F: Fn(&T) -> bool>(
    list: &Vec<T>,
    keep: F,
    Ghost(wanted): Ghost<spec_fn(T) -> bool>,
) -> (kept: Vec<T>)
    requires
        forall|item: &T| call_requires(keep, (item,)),
        forall|item: &T, result: bool|
            call_ensures(keep, (item,), result) ==> result == wanted(*item),
    ensures
        kept@ == kept_if(list@, wanted),
{
    let mut kept: Vec<T> = Vec::new();
    let mut i: usize = 0;
    while i < list.len()
        invariant
            i <= list.len(),
            forall|item: &T| call_requires(keep, (item,)),
            forall|item: &T, result: bool|
                call_ensures(keep, (item,), result) ==> result == wanted(*item),
            kept@ == kept_if(list@.take(i as int), wanted),
        decreases list.len() - i,
    {
        proof {
            assert(list@.take(i + 1).drop_last() =~= list@.take(i as int));
        }
        if keep(&list[i]) {
            kept.push(list[i]);
        }
        i += 1;
    }
    proof {
        assert(list@.take(list@.len() as int) =~= list@);
    }
    kept
}

/// `item` put into an ordered list: behind the items that it does not
/// come before.
pub open spec fn placed<T>(ordered: Seq<T>, item: T, before: spec_fn(T, T) -> bool) -> Seq<T>
    decreases ordered.len(),
{
    if ordered.len() > 0 && !before(item, ordered[0]) {
        seq![ordered[0]] + placed(ordered.drop_first(), item, before)
    } else {
        seq![item] + ordered
    }
}

/// A list put in order: each item, in turn, is placed among those before
/// it. Items of which neither comes before the other keep their order.
pub open spec fn arranged<T>(list: Seq<T>, before: spec_fn(T, T) -> bool) -> Seq<T>
    decreases list.len(),
{
    if list.len() == 0 {
        Seq::empty()
    } else {
        placed(arranged(list.drop_last(), before), list.last(), before)
    }
}

/// Placing an item adds that item and no other.
pub proof fn lemma_placed<T>(ordered: Seq<T>, item: T, before: spec_fn(T, T) -> bool)
    ensures
        placed(ordered, item, before).to_multiset() == ordered.to_multiset().insert(item),
        placed(ordered, item, before).len() == ordered.len() + 1,
    decreases ordered.len(),
{
    let out = placed(ordered, item, before);
    if ordered.len() > 0 && !before(item, ordered[0]) {
        let tail = ordered.drop_first();
        lemma_placed(tail, item, before);
        let inner = placed(tail, item, before);
        assert(out =~= inner.insert(0, ordered[0]));
        assert(ordered =~= tail.insert(0, ordered[0]));
        vstd::seq_lib::to_multiset_insert(inner, 0, ordered[0]);
        vstd::seq_lib::to_multiset_insert(tail, 0, ordered[0]);
        assert(out.to_multiset() =~= ordered.to_multiset().insert(item));
    } else {
        assert(out =~= ordered.insert(0, item));
        vstd::seq_lib::to_multiset_insert(ordered, 0, item);
    }
}

/// Putting a list in order keeps every item, each as often as it came.
pub proof fn law_arranged_permutes<T>(list: Seq<T>, before: spec_fn(T, T) -> bool)
    ensures
        arranged(list, before).to_multiset() == list.to_multiset(),
        arranged(list, before).len() == list.len(),
    decreases list.len(),
{
    if list.len() > 0 {
        let front = list.drop_last();
        law_arranged_permutes(front, before);
        lemma_placed(arranged(front, before), list.last(), before);
        assert(list =~= front.push(list.last()));
        vstd::seq_lib::to_multiset_build(front, list.last());
    } else {
        assert(list =~= Seq::empty());
    }
}

/// An order in which of any two items one comes before the other or they
/// rank alike, and ranking is consistent.
pub open spec fn is_ranking<T>(before: spec_fn(T, T) -> bool) -> bool {
    &&& forall|a: T, b: T| #[trigger] before(a, b) ==> !before(b, a)
    &&& forall|a: T, b: T, c: T|
        !#[trigger] before(a, b) && !#[trigger] before(b, c) ==> !before(a, c)
}

/// No item of the list comes before an item that precedes it.
pub open spec fn in_order<T>(list: Seq<T>, before: spec_fn(T, T) -> bool) -> bool {
    forall|i: int, j: int| 0 <= i < j < list.len() ==> !before(#[trigger] list[j], #[trigger] list[i])
}

proof fn lemma_placed_in_order<T>(ordered: Seq<T>, item: T, before: spec_fn(T, T) -> bool)
    requires
        is_ranking(before),
        in_order(ordered, before),
    ensures
        in_order(placed(ordered, item, before), before),
    decreases ordered.len(),
{
    broadcast use vstd::seq_lib::group_to_multiset_ensures;

    let out = placed(ordered, item, before);
    lemma_placed(ordered, item, before);
    if ordered.len() > 0 && !before(item, ordered[0]) {
        let tail = ordered.drop_first();
        assert forall|i: int, j: int| 0 <= i < j < tail.len() implies !before(
            #[trigger] tail[j],
            #[trigger] tail[i],
        ) by {
            assert(tail[i] == ordered[i + 1] && tail[j] == ordered[j + 1]);
        }
        lemma_placed_in_order(tail, item, before);
        lemma_placed(tail, item, before);
        let inner = placed(tail, item, before);
        assert forall|i: int, j: int| 0 <= i < j < out.len() implies !before(
            #[trigger] out[j],
            #[trigger] out[i],
        ) by {
            if i == 0 {
                let x = inner[j - 1];
                assert(out[j] == x);
                assert(out[0] == ordered[0]);
                assert(inner.contains(x));
                assert(inner.to_multiset().count(x) > 0);
                if x != item {
                    assert(tail.to_multiset().count(x) > 0);
                    assert(tail.contains(x));
                    let w = choose|w: int| 0 <= w < tail.len() && tail[w] == x;
                    assert(tail[w] == ordered[w + 1]);
                    assert(!before(ordered[w + 1], ordered[0]));
                }
            } else {
                assert(out[i] == inner[i - 1] && out[j] == inner[j - 1]);
            }
        }
    } else {
        assert forall|i: int, j: int| 0 <= i < j < out.len() implies !before(
            #[trigger] out[j],
            #[trigger] out[i],
        ) by {
            if i == 0 {
                assert(out[j] == ordered[j - 1]);
                if j - 1 > 0 {
                    assert(!before(ordered[j - 1], ordered[0]));
                }
            } else {
                assert(out[i] == ordered[i - 1] && out[j] == ordered[j - 1]);
            }
        }
    }
}

/// Under a ranking, a list that has been put in order is in order.
pub proof fn law_arranged_in_order<T>(list: Seq<T>, before: spec_fn(T, T) -> bool)
    requires
        is_ranking(before),
    ensures
        in_order(arranged(list, before), before),
    decreases list.len(),
{
    if list.len() > 0 {
        law_arranged_in_order(list.drop_last(), before);
        lemma_placed_in_order(arranged(list.drop_last(), before), list.last(), before);
    }
}

/// Placing an item is inserting it before the first item that it comes
/// before.
pub proof fn lemma_placed_at<T>(ordered: Seq<T>, item: T, before: spec_fn(T, T) -> bool, at: int)
    requires
        0 <= at <= ordered.len(),
        forall|j: int| 0 <= j < at ==> !before(item, #[trigger] ordered[j]),
        at < ordered.len() ==> before(item, ordered[at]),
    ensures
        placed(ordered, item, before) == ordered.insert(at, item),
    decreases at,
{
    if at == 0 {
        assert(seq![item] + ordered =~= ordered.insert(0, item));
    } else {
        let tail = ordered.drop_first();
        assert forall|j: int| 0 <= j < at - 1 implies !before(item, #[trigger] tail[j]) by {
            assert(tail[j] == ordered[j + 1]);
        }
        lemma_placed_at(tail, item, before, at - 1);
        assert(seq![ordered[0]] + tail.insert(at - 1, item) =~= ordered.insert(at, item));
    }
}

/// Puts a list in order. `comes_before` tells of two items whether the
/// first is to precede the second.
pub(crate) fn arrange<T: Copy, F: Fn(&T, &T) -> bool>(
    list: &Vec<T>,
    comes_before: F,
    Ghost(before): Ghost<spec_fn(T, T) -> bool>,
) -> (ordered: Vec<T>)
    requires
        forall|a: &T, b: &T| call_requires(comes_before, (a, b)),
        forall|a: &T, b: &T, result: bool|
            call_ensures(comes_before, (a, b), result) ==> result == before(*a, *b),
    ensures
        ordered@ == arranged(list@, before),
{
    let mut ordered: Vec<T> = Vec::new();
    let mut i: usize = 0;
    while i < list.len()
        invariant
            i <= list.len(),
            forall|a: &T, b: &T| call_requires(comes_before, (a, b)),
            forall|a: &T, b: &T, result: bool|
                call_ensures(comes_before, (a, b), result) ==> result == before(*a, *b),
            ordered@ == arranged(list@.take(i as int), before),
        decreases list.len() - i,
    {
        let item = list[i];
        let mut at: usize = 0;
        while at < ordered.len() && !comes_before(&item, &ordered[at])
            invariant
                at <= ordered.len(),
                forall|a: &T, b: &T| call_requires(comes_before, (a, b)),
                forall|a: &T, b: &T, result: bool|
                    call_ensures(comes_before, (a, b), result) ==> result == before(*a, *b),
                forall|j: int| 0 <= j < at ==> !before(item, #[trigger] ordered@[j]),
            decreases ordered.len() - at,
        {
            at += 1;
        }
        proof {
            lemma_placed_at(ordered@, item, before, at as int);
            assert(list@.take(i + 1).drop_last() =~= list@.take(i as int));
        }
        ordered.insert(at, item);
        i += 1;
    }
    proof {
        assert(list@.take(list@.len() as int) =~= list@);
    }
    ordered
}

} // verus!

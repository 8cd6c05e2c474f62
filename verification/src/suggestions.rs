//! The queries that suggest texts: the users, models, license plates, VINs
//! or order titles on record that match what has been typed so far.

use crate::chunked::Uid;
use crate::date::UtcDate;
use crate::expedient::{latest, Expedient};
use crate::filter::{keywords_of, score, subject_of, Filter};
use crate::hooks::{asks_later, cut, lemma_asks_later, pass, passes_before, stops_at};
use crate::listing::{arranged, kept_if, lemma_placed_at};
use crate::observable::AsyncCallbackProcess;
use crate::text::{chars_of, comes_before, same_chars, text_before, trim, trimmed};
use vstd::prelude::*;

verus! {

/// The most texts that a suggestion lists.
pub const MAX_LIST_LEN: usize = 5;

/// What a listed text holds: its characters and its date.
pub open spec fn named_views<'b>(list: Seq<(&'b str, UtcDate)>) -> Seq<(Seq<char>, i64)> {
    list.map_values(|e: (&'b str, UtcDate)| (e.0@, e.1@))
}

/// What a listed text with its score holds.
pub open spec fn rated_views<'b>(list: Seq<(&'b str, UtcDate, u32)>) -> Seq<(Seq<char>, i64, u32)> {
    list.map_values(|e: (&'b str, UtcDate, u32)| (e.0@, e.1@, e.2))
}

/// What a list of texts holds.
pub open spec fn name_list<'b>(list: Seq<&'b str>) -> Seq<Seq<char>> {
    list.map_values(|e: &'b str| e@)
}

/// Texts without the white space around them.
pub open spec fn cleaned(source: Seq<(Seq<char>, i64)>) -> Seq<(Seq<char>, i64)> {
    source.map_values(|e: (Seq<char>, i64)| (trimmed(e.0), e.1))
}

/// A text is suggested where it is not empty and matches the filter.
pub open spec fn text_rule(filter: Seq<Seq<char>>) -> spec_fn((Seq<char>, i64)) -> bool {
    |e: (Seq<char>, i64)| e.0.len() > 0 && score(filter, subject_of(e.0)) > 0
}

/// A text with the score that the filter gives it.
pub open spec fn rate(filter: Seq<Seq<char>>, e: (Seq<char>, i64)) -> (Seq<char>, i64, u32) {
    (e.0, e.1, score(filter, subject_of(e.0)) as u32)
}

/// Texts with the scores that the filter gives them.
pub open spec fn rated(list: Seq<(Seq<char>, i64)>, filter: Seq<Seq<char>>) -> Seq<
    (Seq<char>, i64, u32),
> {
    list.map_values(|e: (Seq<char>, i64)| rate(filter, e))
}

/// Texts without their scores.
pub open spec fn unrated(list: Seq<(Seq<char>, i64, u32)>) -> Seq<(Seq<char>, i64)> {
    list.map_values(|e: (Seq<char>, i64, u32)| (e.0, e.1))
}

/// Whether a text is in a list.
pub open spec fn holds_text(list: Seq<(Seq<char>, i64, u32)>, text: Seq<char>) -> bool {
    exists|k: int| 0 <= k < list.len() && (#[trigger] list[k]).0 == text
}

/// The list without repeated texts: of every text the first entry stays.
pub open spec fn first_of_each(list: Seq<(Seq<char>, i64, u32)>) -> Seq<(Seq<char>, i64, u32)>
    decreases list.len(),
{
    if list.len() == 0 {
        Seq::empty()
    } else {
        let front = first_of_each(list.drop_last());
        if holds_text(front, list.last().0) {
            front
        } else {
            front.push(list.last())
        }
    }
}

/// The order of suggestions: the better score first; of equal scores the
/// later date first; of equal dates the text that comes first.
pub open spec fn rank_order() -> spec_fn((Seq<char>, i64, u32), (Seq<char>, i64, u32)) -> bool {
    |a: (Seq<char>, i64, u32), b: (Seq<char>, i64, u32)|
        a.2 > b.2 || (a.2 == b.2 && (a.1 > b.1 || (a.1 == b.1 && text_before(a.0, b.0))))
}

/// The suggestions for a filter: the texts of `source`, trimmed, that are
/// not empty and match the filter, with the texts of `concat` behind
/// them; each text once; the best five in order.
pub open spec fn texts_listing(
    filter: Seq<Seq<char>>,
    source: Seq<(Seq<char>, i64)>,
    concat: Seq<(Seq<char>, i64)>,
) -> Seq<(Seq<char>, i64)> {
    let joined = rated(kept_if(cleaned(source), text_rule(filter)) + concat, filter);
    unrated(cut(arranged(first_of_each(joined), rank_order()), MAX_LIST_LEN))
}

fn same_text(a: &str, b: &str) -> (same: bool)
    ensures
        same == (a@ == b@),
{
    same_chars(&chars_of(a), &chars_of(b))
}

fn ranks_before<'b>(a: &(&'b str, UtcDate, u32), b: &(&'b str, UtcDate, u32)) -> (before: bool)
    ensures
        before == rank_order()((a.0@, a.1@, a.2), (b.0@, b.1@, b.2)),
{
    if a.2 != b.2 {
        a.2 > b.2
    } else if a.1.date_hash() != b.1.date_hash() {
        a.1.date_hash() > b.1.date_hash()
    } else {
        comes_before(&chars_of(a.0), &chars_of(b.0))
    }
}

/// The number of checkpoints of a query for suggestions: on entry, and
/// after each of its steps.
pub const TEXTS_CHECKPOINTS: usize = 5;

/// The first checkpoint of a query for suggestions at which the list
/// handed in has been taken over.
pub const TEXTS_TAKEN_OVER: usize = 2;

/// Lists the suggestions for a filter (see [`texts_listing`]), asking
/// `checkpoint` on entry and after each step whether to go on. The list
/// `concat_with` is taken over into the result.
///
/// Where every checkpoint lets the work go on, the result is the list.
/// Where one stops it, the result is `None`; the list handed in is then as
/// it was if the work was stopped before it was taken over, and empty
/// else.
pub fn list_filter_with<'b, F: Fn(usize) -> Option<()>>(
    filter: &Filter,
    expedients: &Vec<(&'b str, UtcDate)>,
    concat_with: &mut Vec<(&'b str, UtcDate)>,
    checkpoint: F,
) -> (list: Option<Vec<(&'b str, UtcDate)>>)
    requires
        forall|step: usize| call_requires(checkpoint, (step,)),
    ensures
        match list {
            Some(found) => named_views(found@) == texts_listing(
                filter@,
                named_views(expedients@),
                named_views(old(concat_with)@),
            ) && final(concat_with)@.len() == 0 && passes_before(checkpoint, TEXTS_CHECKPOINTS),
            None => exists|step: usize|
                step < TEXTS_CHECKPOINTS && #[trigger] stops_at(checkpoint, step)
                    && final(concat_with)@ == (if step < TEXTS_TAKEN_OVER {
                    old(concat_with)@
                } else {
                    Seq::empty()
                }),
        },
{
    pass(&checkpoint, 0)?;

    let ghost source = named_views(expedients@);
    let ghost concat = named_views(concat_with@);
    let ghost rule = text_rule(filter@);
    let mut list: Vec<(&'b str, UtcDate, u32)> = Vec::new();
    let mut i: usize = 0;
    proof {
        assert(rated_views(list@) =~= rated(kept_if(cleaned(source).take(0), rule), filter@));
    }
    while i < expedients.len()
        invariant
            i <= expedients.len(),
            source == named_views(expedients@),
            rule == text_rule(filter@),
            rated_views(list@) == rated(kept_if(cleaned(source).take(i as int), rule), filter@),
        decreases expedients.len() - i,
    {
        let data = trim(expedients[i].0);
        let date = expedients[i].1;
        let ghost was = list@;
        proof {
            let longer = cleaned(source).take(i + 1);
            assert(longer.drop_last() =~= cleaned(source).take(i as int));
            assert(longer.last() == (data@, date@));
        }
        if !data.is_empty() {
            let rating = filter.test(data);
            if rating > 0 {
                list.push((data, date, rating));
                proof {
                    let kept = kept_if(cleaned(source).take(i as int), rule);
                    assert(rated_views(list@) =~= rated_views(was).push((data@, date@, rating)));
                    assert(rated(kept.push((data@, date@)), filter@) =~= rated(kept, filter@).push(
                        (data@, date@, rating),
                    ));
                }
            }
        }
        i += 1;
    }

    pass(&checkpoint, 1)?;

    let ghost kept = kept_if(cleaned(source), rule);
    let mut j: usize = 0;
    proof {
        assert(cleaned(source).take(i as int) =~= cleaned(source));
        assert(kept + concat.take(0) =~= kept);
    }
    while j < concat_with.len()
        invariant
            j <= concat_with.len(),
            concat == named_views(concat_with@),
            rated_views(list@) == rated(kept + concat.take(j as int), filter@),
        decreases concat_with.len() - j,
    {
        let item = concat_with[j];
        let rating = filter.test(item.0);
        let ghost was = list@;
        list.push((item.0, item.1, rating));
        proof {
            assert(rated_views(list@) =~= rated_views(was).push((item.0@, item.1@, rating)));
            assert(kept + concat.take(j + 1) =~= (kept + concat.take(j as int)).push(
                (item.0@, item.1@),
            ));
            assert(rated((kept + concat.take(j as int)).push((item.0@, item.1@)), filter@)
                =~= rated(kept + concat.take(j as int), filter@).push(
                (item.0@, item.1@, rating),
            ));
        }
        j += 1;
    }
    concat_with.clear();

    pass(&checkpoint, 2)?;

    // Eliminate duplicates
    let ghost joined = rated(kept + concat, filter@);
    let mut unique: Vec<(&'b str, UtcDate, u32)> = Vec::new();
    let mut k: usize = 0;
    proof {
        assert(concat.take(j as int) =~= concat);
        assert(rated_views(unique@) =~= first_of_each(joined.take(0)));
    }
    while k < list.len()
        invariant
            k <= list.len(),
            rated_views(list@) == joined,
            rated_views(unique@) == first_of_each(joined.take(k as int)),
        decreases list.len() - k,
    {
        let item = list[k];
        let mut seen = false;
        let mut u: usize = 0;
        while u < unique.len() && !seen
            invariant
                u <= unique.len(),
                seen ==> holds_text(rated_views(unique@), item.0@),
                !seen ==> forall|w: int|
                    0 <= w < u ==> (#[trigger] rated_views(unique@)[w]).0 != item.0@,
            decreases unique.len() - u + (if seen { 0int } else { 1int }),
        {
            if same_text(unique[u].0, item.0) {
                seen = true;
                proof {
                    assert(rated_views(unique@)[u as int].0 == item.0@);
                }
            } else {
                u += 1;
            }
        }
        proof {
            let longer = joined.take(k + 1);
            assert(longer.drop_last() =~= joined.take(k as int));
            assert(longer.last() == rated_views(list@)[k as int]);
        }
        if !seen {
            let ghost was = unique@;
            unique.push(item);
            proof {
                assert(rated_views(unique@) =~= rated_views(was).push((item.0@, item.1@, item.2)));
            }
        }
        k += 1;
    }

    pass(&checkpoint, 3)?;

    let ghost distinct = first_of_each(joined);
    let mut ordered: Vec<(&'b str, UtcDate, u32)> = Vec::new();
    let mut s: usize = 0;
    proof {
        assert(joined.take(k as int) =~= joined);
        assert(rated_views(ordered@) =~= arranged(distinct.take(0), rank_order()));
    }
    while s < unique.len()
        invariant
            s <= unique.len(),
            rated_views(unique@) == distinct,
            rated_views(ordered@) == arranged(distinct.take(s as int), rank_order()),
        decreases unique.len() - s,
    {
        let item = unique[s];
        let ghost view = (item.0@, item.1@, item.2);
        let mut at: usize = 0;
        while at < ordered.len() && !ranks_before(&item, &ordered[at])
            invariant
                at <= ordered.len(),
                view == (item.0@, item.1@, item.2),
                forall|w: int|
                    0 <= w < at ==> !rank_order()(view, #[trigger] rated_views(ordered@)[w]),
            decreases ordered.len() - at,
        {
            at += 1;
        }
        proof {
            lemma_placed_at(rated_views(ordered@), view, rank_order(), at as int);
            assert(distinct.take(s + 1).drop_last() =~= distinct.take(s as int));
            assert(distinct.take(s + 1).last() == view);
            assert(rated_views(ordered@.insert(at as int, item)) =~= rated_views(ordered@).insert(
                at as int,
                view,
            ));
        }
        ordered.insert(at, item);
        s += 1;
    }
    ordered.truncate(MAX_LIST_LEN);

    pass(&checkpoint, 4)?;

    let ghost best = cut(arranged(distinct, rank_order()), MAX_LIST_LEN);
    let mut found: Vec<(&'b str, UtcDate)> = Vec::new();
    let mut f: usize = 0;
    proof {
        assert(distinct.take(s as int) =~= distinct);
        assert(rated_views(ordered@) =~= best);
        assert(named_views(found@) =~= unrated(best.take(0)));
    }
    while f < ordered.len()
        invariant
            f <= ordered.len(),
            rated_views(ordered@) == best,
            named_views(found@) == unrated(best.take(f as int)),
        decreases ordered.len() - f,
    {
        let ghost was = found@;
        found.push((ordered[f].0, ordered[f].1));
        proof {
            assert(named_views(found@) =~= named_views(was).push(
                (ordered@[f as int].0@, ordered@[f as int].1@),
            ));
            assert(unrated(best.take(f + 1)) =~= unrated(best.take(f as int)).push(
                (ordered@[f as int].0@, ordered@[f as int].1@),
            ));
        }
        f += 1;
    }
    proof {
        assert(best.take(f as int) =~= best);
    }
    Some(found)
}

/// Lists the suggestions for a filter (see [`texts_listing`]). The list
/// `concat_with` is taken over into the result.
///
/// The work stops at a checkpoint once `process` has been asked to stop
/// (see [`list_filter_with`]); the result is `None` then, and
/// `concat_with` is as it was or has been emptied. A process that nobody
/// can ask to stop always gets its list.
pub fn list_filter<'b>(
    filter: &Filter,
    expedients: &Vec<(&'b str, UtcDate)>,
    concat_with: &mut Vec<(&'b str, UtcDate)>,
    process: &AsyncCallbackProcess,
) -> (list: Option<Vec<(&'b str, UtcDate)>>)
    ensures
        match list {
            Some(found) => named_views(found@) == texts_listing(
                filter@,
                named_views(expedients@),
                named_views(old(concat_with)@),
            ) && final(concat_with)@.len() == 0,
            None => process.can_be_stopped() && (final(concat_with)@ == old(concat_with)@
                || final(concat_with)@.len() == 0),
        },
{
    let checkpoint = |step: usize| -> (go_on: Option<()>)
        ensures
            !process.can_be_stopped() ==> go_on.is_some(),
        { process.terminate_if_requested() };
    list_filter_with(filter, expedients, concat_with, checkpoint)
}

/// The texts that a suggestion can draw on.
#[derive(Debug, Clone, Copy, PartialEq, Eq, Structural)]
pub enum ListField {
    Users,
    Models,
    LicensePlates,
    Vins,
    OrderTitles,
}

/// The texts that one expedient offers: its user, model, license plate or
/// VIN with the date by which it ages, or the titles of its orders with
/// the dates of the orders.
pub open spec fn entry_texts(field: ListField, expedient: Expedient) -> Seq<(Seq<char>, i64)> {
    match field {
        ListField::Users => seq![(expedient.user@, expedient.newest())],
        ListField::Models => seq![(expedient.model@, expedient.newest())],
        ListField::LicensePlates => seq![(expedient.license_plate@, expedient.newest())],
        ListField::Vins => seq![(expedient.vin@, expedient.newest())],
        ListField::OrderTitles => expedient.orders@.map_values(
            |order: crate::expedient::Order| (order.title@, order.date@),
        ),
    }
}

/// The texts that some expedients offer, expedient after expedient.
pub open spec fn field_views<'b>(field: ListField, list: Seq<(Uid, &'b Expedient)>) -> Seq<
    (Seq<char>, i64),
>
    decreases list.len(),
{
    if list.len() == 0 {
        Seq::empty()
    } else {
        field_views(field, list.drop_last()) + entry_texts(field, *list.last().1)
    }
}

/// The texts that some expedients offer.
pub fn select_field<'b>(field: ListField, list: &Vec<(Uid, &'b Expedient)>) -> (texts: Vec<
    (&'b str, UtcDate),
>)
    ensures
        named_views(texts@) == field_views(field, list@),
{
    let mut texts: Vec<(&'b str, UtcDate)> = Vec::new();
    let mut i: usize = 0;
    proof {
        assert(named_views(texts@) =~= field_views(field, list@.take(0)));
    }
    while i < list.len()
        invariant
            i <= list.len(),
            named_views(texts@) == field_views(field, list@.take(i as int)),
        decreases list.len() - i,
    {
        let expedient: &'b Expedient = list[i].1;
        let ghost was = texts@;
        let ghost offered = entry_texts(field, *expedient);
        proof {
            assert(list@.take(i + 1).drop_last() =~= list@.take(i as int));
            assert(list@.take(i + 1).last() == list@[i as int]);
        }
        match field {
            ListField::Users => {
                texts.push((expedient.user.as_str(), expedient.newest_date()));
            },
            ListField::Models => {
                texts.push((expedient.model.as_str(), expedient.newest_date()));
            },
            ListField::LicensePlates => {
                texts.push((expedient.license_plate.as_str(), expedient.newest_date()));
            },
            ListField::Vins => {
                texts.push((expedient.vin.as_str(), expedient.newest_date()));
            },
            ListField::OrderTitles => {
                let mut k: usize = 0;
                proof {
                    assert(named_views(was) + offered.take(0) =~= named_views(was));
                }
                while k < expedient.orders.len()
                    invariant
                        k <= expedient.orders.len(),
                        offered == entry_texts(ListField::OrderTitles, *expedient),
                        named_views(texts@) == named_views(was) + offered.take(k as int),
                    decreases expedient.orders.len() - k,
                {
                    let ghost so_far = texts@;
                    let order = &expedient.orders[k];
                    texts.push((order.title.as_str(), order.date));
                    proof {
                        assert(named_views(texts@) =~= named_views(so_far).push(
                            (order.title@, order.date@),
                        ));
                        assert(named_views(was) + offered.take(k + 1) =~= (named_views(was)
                            + offered.take(k as int)).push((order.title@, order.date@)));
                    }
                    k += 1;
                }
                proof {
                    assert(offered.take(k as int) =~= offered);
                }
            },
        }
        proof {
            if field != ListField::OrderTitles {
                assert(named_views(texts@) =~= named_views(was) + offered);
            }
        }
        i += 1;
    }
    proof {
        assert(list@.take(list@.len() as int) =~= list@);
    }
    texts
}

/// The texts of a list, without their dates.
pub open spec fn names_of(list: Seq<(Seq<char>, i64)>) -> Seq<Seq<char>> {
    list.map_values(|e: (Seq<char>, i64)| e.0)
}

fn names<'b>(list: &Vec<(&'b str, UtcDate)>) -> (texts: Vec<&'b str>)
    ensures
        name_list(texts@) == names_of(named_views(list@)),
{
    let mut texts: Vec<&'b str> = Vec::new();
    let mut i: usize = 0;
    while i < list.len()
        invariant
            i <= list.len(),
            name_list(texts@) == names_of(named_views(list@)).take(i as int),
        decreases list.len() - i,
    {
        let ghost was = texts@;
        texts.push(list[i].0);
        proof {
            assert(name_list(texts@) =~= name_list(was).push(list@[i as int].0@));
            assert(names_of(named_views(list@)).take(i + 1) =~= names_of(
                named_views(list@),
            ).take(i as int).push(list@[i as int].0@));
        }
        i += 1;
    }
    proof {
        let all = names_of(named_views(list@));
        assert(all.take(all.len() as int) =~= all);
    }
    texts
}

/// What a query for suggestions has done when it has run to its end: it
/// has called back with the suggestions from the dynamic part, and then
/// with the suggestions from both parts.
pub open spec fn texts_query_ran<'b, F: Fn(&Vec<&'b str>)>(
    field: ListField,
    filter: Seq<char>,
    dynamic: Seq<(Uid, &'b Expedient)>,
    ancient: Seq<(Uid, &'b Expedient)>,
    callback: F,
    first: Vec<&'b str>,
    full: Vec<&'b str>,
) -> bool {
    let from_dynamic = texts_listing(
        keywords_of(filter),
        field_views(field, dynamic),
        Seq::empty(),
    );
    let from_both = texts_listing(keywords_of(filter), field_views(field, ancient), from_dynamic);
    &&& name_list(first@) == names_of(from_dynamic)
    &&& call_ensures(callback, (&first,), ())
    &&& name_list(full@) == names_of(from_both)
    &&& call_ensures(callback, (&full,), ())
}

/// What a query for suggestions has done when it has called back for the
/// first time: it has called back with the suggestions from the dynamic
/// part.
pub open spec fn texts_query_began<'b, F: Fn(&Vec<&'b str>)>(
    field: ListField,
    filter: Seq<char>,
    dynamic: Seq<(Uid, &'b Expedient)>,
    callback: F,
    first: Vec<&'b str>,
) -> bool {
    &&& name_list(first@) == names_of(
        texts_listing(keywords_of(filter), field_views(field, dynamic), Seq::empty()),
    )
    &&& call_ensures(callback, (&first,), ())
}

/// The number of checkpoints of a query for suggestions over two parts:
/// those of the two lists.
pub const TEXTS_QUERY_CHECKPOINTS: usize = 10;

/// The first checkpoint of a query for suggestions over two parts that
/// comes after the first call back.
pub const TEXTS_QUERY_BEGUN: usize = 5;

/// Runs a query for suggestions over the two parts of a collection, asking
/// `checkpoint` whether to go on at each checkpoint of the two lists (see
/// [`list_filter_with`]). The suggestions from the dynamic part are called
/// back first, those from both parts second.
///
/// Where every checkpoint lets the work go on, both lists have been called
/// back. Where one stops it, the result is `None`, and the first list has
/// been called back if the work was stopped after it.
pub fn list_filter_query_with<'b, F: Fn(&Vec<&'b str>), C: Fn(usize) -> Option<()>>(
    field: ListField,
    filter: &str,
    dynamic: &Vec<(Uid, &'b Expedient)>,
    ancient: &Vec<(Uid, &'b Expedient)>,
    checkpoint: C,
    callback: F,
) -> (done: Option<()>)
    requires
        forall|list: &Vec<&'b str>| call_requires(callback, (list,)),
        forall|step: usize| call_requires(checkpoint, (step,)),
    ensures
        match done {
            Some(_) => passes_before(checkpoint, TEXTS_QUERY_CHECKPOINTS) && exists|
                first: Vec<&'b str>,
                full: Vec<&'b str>,
            | texts_query_ran(field, filter@, dynamic@, ancient@, callback, first, full),
            None => exists|step: usize|
                step < TEXTS_QUERY_CHECKPOINTS && #[trigger] stops_at(checkpoint, step) && (step
                    >= TEXTS_QUERY_BEGUN ==> exists|first: Vec<&'b str>|
                    texts_query_began(field, filter@, dynamic@, callback, first)),
        },
{
    let text_filter = Filter::new(filter);
    let mut nothing: Vec<(&'b str, UtcDate)> = Vec::new();
    proof {
        assert(named_views(nothing@) =~= Seq::empty());
    }
    let ask = &checkpoint;
    let first_list = |step: usize| -> (go_on: Option<()>)
        ensures
            step < TEXTS_CHECKPOINTS ==> call_ensures(*ask, (step,), go_on),
        {
            if step < TEXTS_CHECKPOINTS {
                ask(step)
            } else {
                Some(())
            }
        };
    let listed = list_filter_with(
        &text_filter,
        &select_field(field, dynamic),
        &mut nothing,
        first_list,
    );
    proof {
        assert(asks_later(first_list, checkpoint, 0, TEXTS_CHECKPOINTS));
        if listed.is_none() {
            let step = choose|step: usize|
                step < TEXTS_CHECKPOINTS && #[trigger] stops_at(first_list, step);
            lemma_asks_later(first_list, checkpoint, 0, TEXTS_CHECKPOINTS, step);
            assert(stops_at(checkpoint, step));
        } else {
            lemma_asks_later(first_list, checkpoint, 0, TEXTS_CHECKPOINTS, TEXTS_CHECKPOINTS);
        }
    }
    let mut dynamic_list = listed?;
    let first = names(&dynamic_list);
    callback(&first);
    proof {
        assert(texts_query_began(field, filter@, dynamic@, callback, first));
    }

    let second_list = |step: usize| -> (go_on: Option<()>)
        ensures
            step < TEXTS_CHECKPOINTS ==> call_ensures(*ask, ((step + 5) as usize,), go_on),
        {
            if step < TEXTS_CHECKPOINTS {
                ask(step + 5)
            } else {
                Some(())
            }
        };
    let listed = list_filter_with(
        &text_filter,
        &select_field(field, ancient),
        &mut dynamic_list,
        second_list,
    );
    proof {
        assert(asks_later(second_list, checkpoint, 5, TEXTS_CHECKPOINTS));
        if listed.is_none() {
            let step = choose|step: usize|
                step < TEXTS_CHECKPOINTS && #[trigger] stops_at(second_list, step);
            lemma_asks_later(second_list, checkpoint, 5, TEXTS_CHECKPOINTS, step);
            assert(stops_at(checkpoint, (step + 5) as usize));
        } else {
            lemma_asks_later(second_list, checkpoint, 5, TEXTS_CHECKPOINTS, TEXTS_CHECKPOINTS);
        }
    }
    let full_list = listed?;
    let full = names(&full_list);
    callback(&full);
    proof {
        assert(texts_query_ran(field, filter@, dynamic@, ancient@, callback, first, full));
    }
    Some(())
}

/// Runs a query for suggestions over the two parts of a collection. The
/// suggestions from the dynamic part are called back first, those from
/// both parts second. `None` where the query has been asked to stop on
/// the way (see [`list_filter_query_with`]), which cannot happen to a
/// process that nobody can ask to stop.
pub fn list_filter_query<'b, F: Fn(&Vec<&'b str>)>(
    field: ListField,
    filter: &str,
    dynamic: &Vec<(Uid, &'b Expedient)>,
    ancient: &Vec<(Uid, &'b Expedient)>,
    process: &AsyncCallbackProcess,
    callback: F,
) -> (done: Option<()>)
    requires
        forall|list: &Vec<&'b str>| call_requires(callback, (list,)),
    ensures
        done is Some ==> exists|first: Vec<&'b str>, full: Vec<&'b str>|
            texts_query_ran(field, filter@, dynamic@, ancient@, callback, first, full),
        done is None ==> process.can_be_stopped(),
{
    let checkpoint = |step: usize| -> (go_on: Option<()>)
        ensures
            !process.can_be_stopped() ==> go_on.is_some(),
        { process.terminate_if_requested() };
    list_filter_query_with(field, filter, dynamic, ancient, checkpoint, callback)
}

/// Suggests users.
pub fn hook_list_users<'b, F: Fn(&Vec<&'b str>)>(
    filter: &str,
    dynamic: &Vec<(Uid, &'b Expedient)>,
    ancient: &Vec<(Uid, &'b Expedient)>,
    process: &AsyncCallbackProcess,
    callback: F,
) -> (done: Option<()>)
    requires
        forall|list: &Vec<&'b str>| call_requires(callback, (list,)),
    ensures
        done is Some ==> exists|first: Vec<&'b str>, full: Vec<&'b str>|
            texts_query_ran(ListField::Users, filter@, dynamic@, ancient@, callback, first, full),
        done is None ==> process.can_be_stopped(),
{
    list_filter_query(ListField::Users, filter, dynamic, ancient, process, callback)
}

/// Suggests models.
pub fn hook_list_models<'b, F: Fn(&Vec<&'b str>)>(
    filter: &str,
    dynamic: &Vec<(Uid, &'b Expedient)>,
    ancient: &Vec<(Uid, &'b Expedient)>,
    process: &AsyncCallbackProcess,
    callback: F,
) -> (done: Option<()>)
    requires
        forall|list: &Vec<&'b str>| call_requires(callback, (list,)),
    ensures
        done is Some ==> exists|first: Vec<&'b str>, full: Vec<&'b str>|
            texts_query_ran(ListField::Models, filter@, dynamic@, ancient@, callback, first, full),
        done is None ==> process.can_be_stopped(),
{
    list_filter_query(ListField::Models, filter, dynamic, ancient, process, callback)
}

/// Suggests license plates.
pub fn hook_list_license_plates<'b, F: Fn(&Vec<&'b str>)>(
    filter: &str,
    dynamic: &Vec<(Uid, &'b Expedient)>,
    ancient: &Vec<(Uid, &'b Expedient)>,
    process: &AsyncCallbackProcess,
    callback: F,
) -> (done: Option<()>)
    requires
        forall|list: &Vec<&'b str>| call_requires(callback, (list,)),
    ensures
        done is Some ==> exists|first: Vec<&'b str>, full: Vec<&'b str>|
            texts_query_ran(
                ListField::LicensePlates,
                filter@,
                dynamic@,
                ancient@,
                callback,
                first,
                full,
            ),
        done is None ==> process.can_be_stopped(),
{
    list_filter_query(ListField::LicensePlates, filter, dynamic, ancient, process, callback)
}

/// Suggests VINs.
pub fn hook_list_vins<'b, F: Fn(&Vec<&'b str>)>(
    filter: &str,
    dynamic: &Vec<(Uid, &'b Expedient)>,
    ancient: &Vec<(Uid, &'b Expedient)>,
    process: &AsyncCallbackProcess,
    callback: F,
) -> (done: Option<()>)
    requires
        forall|list: &Vec<&'b str>| call_requires(callback, (list,)),
    ensures
        done is Some ==> exists|first: Vec<&'b str>, full: Vec<&'b str>|
            texts_query_ran(ListField::Vins, filter@, dynamic@, ancient@, callback, first, full),
        done is None ==> process.can_be_stopped(),
{
    list_filter_query(ListField::Vins, filter, dynamic, ancient, process, callback)
}

/// Suggests titles of orders.
pub fn hook_list_order_titles<'b, F: Fn(&Vec<&'b str>)>(
    filter: &str,
    dynamic: &Vec<(Uid, &'b Expedient)>,
    ancient: &Vec<(Uid, &'b Expedient)>,
    process: &AsyncCallbackProcess,
    callback: F,
) -> (done: Option<()>)
    requires
        forall|list: &Vec<&'b str>| call_requires(callback, (list,)),
    ensures
        done is Some ==> exists|first: Vec<&'b str>, full: Vec<&'b str>|
            texts_query_ran(
                ListField::OrderTitles,
                filter@,
                dynamic@,
                ancient@,
                callback,
                first,
                full,
            ),
        done is None ==> process.can_be_stopped(),
{
    list_filter_query(ListField::OrderTitles, filter, dynamic, ancient, process, callback)
}

} // verus!

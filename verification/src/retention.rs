//! Which snapshots a store gives up when it writes a new one.
//!
//! The snapshots of the newest day are all kept. Of every earlier month
//! only the newest snapshot is kept.

use crate::backup::{
    backups_of, folder_names, instant_parser, law_sort_desc, lemma_sorted_kept, newest_first,
    sorted_snapshots, sorted_years, walk_folders, walk_order, year_parser, Backup, BackupView,
    FolderView, Ranked,
};
use crate::names::{stem_of, year_of};
use crate::time::{instant_of_text, Instant};
use crate::time::{lemma_rank_orders_fields, Stamp};
use vstd::prelude::*;

verus! {

/// The instants of a walk.
pub open spec fn instants(order: Seq<BackupView>) -> Seq<Stamp> {
    order.map_values(|backup: BackupView| backup.instant)
}

/// The snapshot at `i` lies before the day of the first snapshot of the
/// walk.
pub open spec fn is_old(order: Seq<Stamp>, i: int) -> bool {
    0 <= i < order.len() && order[i].earlier(order[0].date())
}

/// Two instants of one month of one year.
pub open spec fn same_month(a: Stamp, b: Stamp) -> bool {
    a.year == b.year && a.month == b.month
}

/// The snapshot at `i` is given up: it lies before the newest day, and the
/// last such snapshot that the walk met before it is of the same month.
pub open spec fn is_pruned(order: Seq<Stamp>, i: int) -> bool {
    is_old(order, i) && exists|j: int|
        0 <= j < i && #[trigger] is_old(order, j) && same_month(order[j], order[i]) && forall|
            k: int,
        |
            j < k < i ==> !#[trigger] is_old(order, k)
}

/// No snapshot of the walk is followed by a newer one.
pub open spec fn walk_newest_first(order: Seq<Stamp>) -> bool {
    forall|i: int, j: int|
        0 <= i < j < order.len() ==> (#[trigger] order[i]).rank() >= (#[trigger] order[j]).rank()
}

/// The places in the walk of the snapshots to delete, by rising place.
pub fn delete_old_backups(order: &Vec<Backup>) -> (doomed: Vec<usize>)
    ensures
        forall|place: usize| #[trigger]
            doomed@.contains(place) <==> place < order@.len() && is_pruned(
                instants(crate::backup::backup_views(order@)),
                place as int,
            ),
        forall|a: int, b: int| 0 <= a < b < doomed@.len() ==> doomed@[a] < doomed@[b],
{
    let ghost stamps = instants(crate::backup::backup_views(order@));
    let mut doomed: Vec<usize> = Vec::new();
    if order.len() == 0 {
        return doomed;
    }
    let newest_day = order[0].instant.truncate_time();
    let mut past_year: i32 = 0;
    let mut past_month: u32 = 0;
    let ghost mut last_old: int = -1;
    let mut i: usize = 0;
    while i < order.len()
        invariant
            i <= order.len(),
            stamps == instants(crate::backup::backup_views(order@)),
            stamps.len() == order@.len(),
            order@.len() > 0,
            newest_day@ == stamps[0].date(),
            -1 <= last_old < i,
            last_old >= 0 ==> is_old(stamps, last_old) && past_year == stamps[last_old].year
                && past_month == stamps[last_old].month,
            last_old < 0 ==> past_month == 0,
            forall|k: int| last_old < k < i ==> !#[trigger] is_old(stamps, k),
            forall|place: usize| #[trigger]
                doomed@.contains(place) <==> place < i && is_pruned(stamps, place as int),
            forall|a: int, b: int| 0 <= a < b < doomed@.len() ==> doomed@[a] < doomed@[b],
            forall|a: int| 0 <= a < doomed@.len() ==> doomed@[a] < i,
        decreases order.len() - i,
    {
        let instant = order[i].instant;
        let ghost before = doomed@;
        proof {
            use_type_invariant(&instant);
            assert(stamps[i as int] == instant@);
        }
        if instant.is_before(&newest_day) {
            assert(is_old(stamps, i as int));
            if past_year == instant.year() && past_month == instant.month() {
                doomed.push(i);
                proof {
                    assert(last_old >= 0);
                    assert(is_pruned(stamps, i as int));
                    assert(doomed@[before.len() as int] == i);
                    assert forall|place: usize| #[trigger]
                        doomed@.contains(place) <==> place < i + 1 && is_pruned(
                            stamps,
                            place as int,
                        ) by {
                        if doomed@.contains(place) {
                            let w = choose|w: int| 0 <= w < doomed@.len() && doomed@[w] == place;
                            if w < before.len() {
                                assert(before[w] == place);
                                assert(before.contains(place));
                            }
                        }
                        if place < i && is_pruned(stamps, place as int) {
                            assert(before.contains(place));
                            let w = choose|w: int| 0 <= w < before.len() && before[w] == place;
                            assert(doomed@[w] == place);
                        }
                    }
                }
            } else {
                past_year = instant.year();
                past_month = instant.month();
                proof {
                    if is_pruned(stamps, i as int) {
                        let j = choose|j: int|
                            0 <= j < i && #[trigger] is_old(stamps, j) && same_month(
                                stamps[j],
                                stamps[i as int],
                            ) && forall|k: int| j < k < i ==> !#[trigger] is_old(stamps, k);
                        if j < last_old {
                            assert(!is_old(stamps, last_old));
                        }
                        assert(j == last_old);
                    }
                }
            }
            proof {
                last_old = i as int;
            }
        } else {
            assert(!is_old(stamps, i as int));
        }
        i += 1;
    }
    doomed
}

/// Of three instants in falling order, the middle one is of the month of
/// the outer two where these share their month.
proof fn lemma_month_between(a: Stamp, p: Stamp, b: Stamp)
    requires
        a.valid(),
        p.valid(),
        b.valid(),
        a.rank() >= p.rank() >= b.rank(),
        same_month(a, b),
    ensures
        same_month(a, p),
{
    lemma_rank_orders_fields(a, p);
    lemma_rank_orders_fields(p, a);
    lemma_rank_orders_fields(p, b);
    lemma_rank_orders_fields(b, p);
}

/// In a walk that goes from newest to oldest, a snapshot that lies before
/// the newest day is given up exactly when the walk has met an earlier
/// snapshot of its month before: of every month before the newest day the
/// newest snapshot stays, and only that one. The snapshots of the newest
/// day all stay.
pub proof fn law_one_per_earlier_month(order: Seq<Stamp>, i: int)
    requires
        walk_newest_first(order),
        forall|k: int| 0 <= k < order.len() ==> (#[trigger] order[k]).valid(),
        0 <= i < order.len(),
    ensures
        !is_old(order, i) ==> !is_pruned(order, i),
        is_old(order, i) ==> (is_pruned(order, i) <==> exists|j: int|
            0 <= j < i && #[trigger] is_old(order, j) && same_month(order[j], order[i])),
{
    if is_old(order, i) {
        if exists|j: int| 0 <= j < i && #[trigger] is_old(order, j) && same_month(order[j], order[i]) {
            let j = choose|j: int|
                0 <= j < i && #[trigger] is_old(order, j) && same_month(order[j], order[i]);
            let p = lemma_last_old_before(order, j, i);
            lemma_month_between(order[j], order[p], order[i]);
            assert(is_old(order, p) && same_month(order[p], order[i]));
        }
    }
}

/// The last snapshot before place `i` that lies before the newest day,
/// given that there is one at `j`.
proof fn lemma_last_old_before(order: Seq<Stamp>, j: int, i: int) -> (p: int)
    requires
        0 <= j < i <= order.len(),
        is_old(order, j),
    ensures
        j <= p < i,
        is_old(order, p),
        forall|k: int| p < k < i ==> !#[trigger] is_old(order, k),
    decreases i - j,
{
    if exists|k: int| j < k < i && #[trigger] is_old(order, k) {
        let k = choose|k: int| j < k < i && #[trigger] is_old(order, k);
        lemma_last_old_before(order, k, i)
    } else {
        j
    }
}

/// The store is laid out by years: no two of its folders spell the same
/// year, and every snapshot lies in the folder of the year of its instant.
pub open spec fn laid_out_by_years(root: Seq<FolderView>) -> bool {
    &&& forall|a: int, b: int|
        0 <= a < b < root.len() && year_of(stem_of(#[trigger] root[a].name)).is_some()
            ==> year_of(stem_of(root[a].name)) != year_of(stem_of(#[trigger] root[b].name))
    &&& forall|f: int, i: int|
        0 <= f < root.len() && 0 <= i < root[f].files.len() && year_of(
            stem_of(root[f].name),
        ) is Some && instant_of_text(stem_of(#[trigger] root[f].files[i])) is Some ==> Some(
            (instant_of_text(stem_of(root[f].files[i]))->0).year,
        ) == year_of(stem_of(root[f].name))
}

/// The snapshots of the given year folders are instants of these years,
/// no older than the year of the last of the folders, and none of them is
/// followed by a newer one.
proof fn lemma_walk_folders(root: Seq<FolderView>, years: Seq<(int, i32)>)
    requires
        laid_out_by_years(root),
        forall|k: int|
            0 <= k < years.len() ==> 0 <= (#[trigger] years[k]).0 < root.len() && year_of(
                stem_of(root[years[k].0].name),
            ) == Some(years[k].1),
        forall|a: int, b: int| 0 <= a < b < years.len() ==> (#[trigger] years[a]).1 > (
        #[trigger] years[b]).1,
    ensures
        walk_newest_first(instants(walk_folders(root, years))),
        forall|k: int|
            0 <= k < walk_folders(root, years).len() ==> (#[trigger] instants(
                walk_folders(root, years),
            )[k]).valid() && years.len() > 0 && instants(walk_folders(root, years))[k].year
                >= years.last().1,
    decreases years.len(),
{
    if years.len() > 0 {
        let front = years.drop_last();
        let place = years.last().0;
        let folder = root[place];
        let year = years.last().1;
        assert forall|k: int| 0 <= k < front.len() implies 0 <= (#[trigger] front[k]).0
            < root.len() && year_of(stem_of(root[front[k].0].name)) == Some(front[k].1) by {
            assert(front[k] == years[k]);
        }
        assert forall|a: int, b: int| 0 <= a < b < front.len() implies (#[trigger] front[a]).1 > (
        #[trigger] front[b]).1 by {
            assert(front[a] == years[a] && front[b] == years[b]);
        }
        lemma_walk_folders(root, front);
        let before = instants(walk_folders(root, front));
        let group_entries = sorted_snapshots(folder.files);
        let group = instants(backups_of(folder, group_entries));
        let all = instants(walk_folders(root, years));
        lemma_sorted_kept::<Instant>(folder.files, instant_parser());
        law_sort_desc::<Instant>(crate::backup::kept(folder.files, instant_parser()));
        assert(all =~= before + group);
        assert forall|k: int| 0 <= k < group.len() implies (#[trigger] group[k]).valid()
            && group[k].year == year by {
            let entry = group_entries[k];
            assert(group[k] == entry.1);
            assert(instant_of_text(stem_of(folder.files[entry.0])) == Some(entry.1));
        }
        assert forall|k: int| 0 <= k < all.len() implies (#[trigger] all[k]).valid() && all[k].year
            >= year by {
            if k < before.len() {
                assert(all[k] == before[k]);
                assert(front.len() > 0);
                assert(front.last() == years[years.len() - 2]);
            } else {
                assert(all[k] == group[k - before.len()]);
            }
        }
        assert forall|i: int, j: int| 0 <= i < j < all.len() implies (#[trigger] all[i]).rank()
            >= (#[trigger] all[j]).rank() by {
            if j < before.len() {
                assert(all[i] == before[i] && all[j] == before[j]);
            } else if i >= before.len() {
                let a = group_entries[i - before.len()];
                let b = group_entries[j - before.len()];
                assert(all[i] == group[i - before.len()] && all[j] == group[j - before.len()]);
                assert(group[i - before.len()] == a.1 && group[j - before.len()] == b.1);
                assert(Instant::rank_of(a.1) >= Instant::rank_of(b.1));
            } else {
                assert(all[i] == before[i]);
                assert(all[j] == group[j - before.len()]);
                assert(front.len() > 0);
                assert(front.last() == years[years.len() - 2]);
                assert(before[i].year > year);
                lemma_rank_orders_fields(all[j], all[i]);
            }
        }
    }
}

/// In a store that is laid out by years, the walk goes from the newest
/// snapshot to the oldest: no snapshot is followed by a newer one.
pub proof fn law_walk_newest_first(root: Seq<FolderView>)
    requires
        laid_out_by_years(root),
    ensures
        walk_newest_first(instants(walk_order(root))),
{
    let names = folder_names(root);
    let years = sorted_years(names);
    lemma_sorted_kept::<i32>(names, year_parser());
    law_sort_desc::<i32>(crate::backup::kept(names, year_parser()));
    assert forall|k: int| 0 <= k < years.len() implies 0 <= (#[trigger] years[k]).0 < root.len()
        && year_of(stem_of(root[years[k].0].name)) == Some(years[k].1) by {
        assert(names[years[k].0] == root[years[k].0].name);
    }
    crate::backup::lemma_kept(names, year_parser());
    lemma_distinct_places::<i32>(crate::backup::kept(names, year_parser()));
    assert forall|a: int, b: int| 0 <= a < b < years.len() implies (#[trigger] years[a]).1 > (
    #[trigger] years[b]).1 by {
        assert(i32::rank_of(years[a].1) >= i32::rank_of(years[b].1));
        let pa = years[a].0;
        let pb = years[b].0;
        assert(names[pa] == root[pa].name && names[pb] == root[pb].name);
        assert(pa != pb);
        if pa < pb {
            assert(year_of(stem_of(root[pa].name)) != year_of(stem_of(root[pb].name)));
        } else {
            assert(year_of(stem_of(root[pb].name)) != year_of(stem_of(root[pa].name)));
        }
    }
    lemma_walk_folders(root, years);
}

/// The places of the entries of an ordered listing are distinct where
/// those of the listing are.
proof fn lemma_distinct_places<K: Ranked>(listing: Seq<(int, K::V)>)
    requires
        forall|a: int, b: int|
            0 <= a < b < listing.len() ==> (#[trigger] listing[a]).0 < (#[trigger] listing[b]).0,
    ensures
        forall|a: int, b: int|
            0 <= a < b < crate::backup::sort_desc::<K>(listing).len()
                ==> (#[trigger] crate::backup::sort_desc::<K>(listing)[a]).0 != (
            #[trigger] crate::backup::sort_desc::<K>(listing)[b]).0,
{
    let sorted = crate::backup::sort_desc::<K>(listing);
    law_sort_desc::<K>(listing);
    assert forall|a: int, b: int| 0 <= a < b < sorted.len() implies (#[trigger] sorted[a]).0 != (
    #[trigger] sorted[b]).0 by {
        if sorted[a].0 == sorted[b].0 {
            vstd::seq_lib::to_multiset_contains(listing, sorted[a]);
            vstd::seq_lib::to_multiset_contains(listing, sorted[b]);
            vstd::seq_lib::to_multiset_contains(sorted, sorted[a]);
            vstd::seq_lib::to_multiset_contains(sorted, sorted[b]);
            assert(sorted.contains(sorted[a]) && sorted.contains(sorted[b]));
            let wa = choose|w: int| 0 <= w < listing.len() && listing[w] == sorted[a];
            let wb = choose|w: int| 0 <= w < listing.len() && listing[w] == sorted[b];
            if wa < wb {
                assert(listing[wa].0 < listing[wb].0);
            } else if wb < wa {
                assert(listing[wb].0 < listing[wa].0);
            }
            assert(sorted[a] == sorted[b]);
            lemma_no_repeats(listing);
            assert(listing.to_multiset().count(sorted[a]) == 1);
            lemma_count_twice(sorted, a, b);
        }
    }
}

/// A list whose places rise holds no entry twice.
proof fn lemma_no_repeats<V>(listing: Seq<(int, V)>)
    requires
        forall|a: int, b: int|
            0 <= a < b < listing.len() ==> (#[trigger] listing[a]).0 < (#[trigger] listing[b]).0,
    ensures
        forall|e: (int, V)| #[trigger] listing.to_multiset().count(e) <= 1,
    decreases listing.len(),
{
    broadcast use vstd::seq_lib::group_to_multiset_ensures;

    if listing.len() > 0 {
        let front = listing.drop_last();
        assert forall|a: int, b: int| 0 <= a < b < front.len() implies (#[trigger] front[a]).0 < (
        #[trigger] front[b]).0 by {
            assert(front[a] == listing[a] && front[b] == listing[b]);
        }
        lemma_no_repeats(front);
        assert(listing =~= front.push(listing.last()));
        assert forall|e: (int, V)| #[trigger] listing.to_multiset().count(e) <= 1 by {
            if e == listing.last() && front.to_multiset().count(e) > 0 {
                assert(front.contains(e));
                let w = choose|w: int| 0 <= w < front.len() && front[w] == e;
                assert(listing[w].0 < listing[listing.len() - 1].0);
            }
        }
    } else {
        assert(listing =~= Seq::empty());
    }
}

/// An entry that stands at two places of a list is counted twice.
proof fn lemma_count_twice<V>(list: Seq<V>, a: int, b: int)
    requires
        0 <= a < b < list.len(),
        list[a] == list[b],
    ensures
        list.to_multiset().count(list[a]) >= 2,
{
    broadcast use vstd::seq_lib::group_to_multiset_ensures;

    let shorter = list.remove(b);
    assert(shorter[a] == list[a]);
    assert(shorter.contains(list[a]));
    assert(shorter.to_multiset().count(list[a]) > 0);
    assert(shorter.to_multiset() == list.to_multiset().remove(list[b]));
}

} // verus!

//! The snapshots of a store, newest first.
//!
//! A store keeps its snapshots as `{year}/{instant}.{ext}`. The listing of
//! its folders is read elsewhere and handed over as names; this module
//! decides which names count, in which order the snapshots are visited and
//! which of them is the newest.

use crate::names::{file_stem, parse_year, stem_of, year_of};
use crate::time::{instant_of_text, Instant, Stamp};
use vstd::prelude::*;

verus! {

/// A key by which entries are ordered: the greater rank is the newer.
pub trait Ranked: View + Sized {
    spec fn rank_of(model: Self::V) -> int;

    /// Whether `self` is older than `other`.
    fn ranks_below(&self, other: &Self) -> (below: bool)
        ensures
            below == (Self::rank_of(self@) < Self::rank_of(other@)),
    ;
}

impl Ranked for i32 {
    open spec fn rank_of(model: i32) -> int {
        model as int
    }

    fn ranks_below(&self, other: &i32) -> (below: bool) {
        *self < *other
    }
}

impl Ranked for Instant {
    open spec fn rank_of(model: Stamp) -> int {
        model.rank()
    }

    fn ranks_below(&self, other: &Instant) -> (below: bool) {
        self.is_before(other)
    }
}

/// An entry of a listing that counts: its place in the listing and the key
/// read from its name.
#[derive(Debug)]
pub struct Found<K> {
    pub index: usize,
    pub key: K,
}

impl<K: View> Found<K> {
/// The entry as its place and the value of its key.
    pub open spec fn model(self) -> (int, K::V) {
        (self.index as int, self.key@)
    }
}

/// The entries of a list as places and keys.
pub open spec fn models<K: View>(entries: Seq<Found<K>>) -> Seq<(int, K::V)> {
    entries.map_values(|found: Found<K>| found.model())
}

/// The names of a listing as sequences of characters.
pub open spec fn name_views(names: Seq<String>) -> Seq<Seq<char>> {
    names.map_values(|name: String| name@)
}

/// What an optional key holds.
pub open spec fn option_view<K: View>(key: Option<K>) -> Option<K::V> {
    match key {
        Some(k) => Some(k@),
        None => None,
    }
}

/// The entries whose stem `parse` accepts, each with its place and its key,
/// in the order of the listing.
pub open spec fn kept<V>(names: Seq<Seq<char>>, parse: spec_fn(Seq<char>) -> Option<V>) -> Seq<
    (int, V),
>
    decreases names.len(),
{
    if names.len() == 0 {
        Seq::empty()
    } else {
        let front = kept(names.drop_last(), parse);
        match parse(stem_of(names.last())) {
            Some(key) => front.push((names.len() - 1, key)),
            None => front,
        }
    }
}

/// `entry` put into a list that is ordered newest first: after the entries
/// that are newer, before those that are as old or older.
pub open spec fn place_desc<K: Ranked>(sorted: Seq<(int, K::V)>, entry: (int, K::V)) -> Seq<
    (int, K::V),
>
    decreases sorted.len(),
{
    if sorted.len() > 0 && K::rank_of(entry.1) < K::rank_of(sorted[0].1) {
        seq![sorted[0]] + place_desc::<K>(sorted.drop_first(), entry)
    } else {
        seq![entry] + sorted
    }
}

/// The entries ordered newest first; entries of one rank keep the order
/// they had.
pub open spec fn sort_desc<K: Ranked>(entries: Seq<(int, K::V)>) -> Seq<(int, K::V)>
    decreases entries.len(),
{
    if entries.len() == 0 {
        Seq::empty()
    } else {
        place_desc::<K>(sort_desc::<K>(entries.drop_first()), entries[0])
    }
}

/// No entry is followed by a newer one.
pub open spec fn newest_first<K: Ranked>(entries: Seq<(int, K::V)>) -> bool {
    forall|i: int, j: int|
        0 <= i < j < entries.len() ==> K::rank_of((#[trigger] entries[i]).1) >= K::rank_of(
            (#[trigger] entries[j]).1,
        )
}

/// Placing an entry keeps the order, and adds that entry and no other.
pub proof fn lemma_place_desc<K: Ranked>(sorted: Seq<(int, K::V)>, entry: (int, K::V))
    requires
        newest_first::<K>(sorted),
    ensures
        newest_first::<K>(place_desc::<K>(sorted, entry)),
        place_desc::<K>(sorted, entry).to_multiset() == sorted.to_multiset().insert(entry),
        place_desc::<K>(sorted, entry).len() == sorted.len() + 1,
    decreases sorted.len(),
{
    broadcast use vstd::seq_lib::group_to_multiset_ensures;

    let placed = place_desc::<K>(sorted, entry);
    if sorted.len() > 0 && K::rank_of(entry.1) < K::rank_of(sorted[0].1) {
        let tail = sorted.drop_first();
        assert forall|i: int, j: int| 0 <= i < j < tail.len() implies K::rank_of(
            (#[trigger] tail[i]).1,
        ) >= K::rank_of((#[trigger] tail[j]).1) by {
            assert(tail[i] == sorted[i + 1] && tail[j] == sorted[j + 1]);
        }
        lemma_place_desc::<K>(tail, entry);
        let inner = place_desc::<K>(tail, entry);
        assert forall|k: int| 0 <= k < inner.len() implies K::rank_of(sorted[0].1) >= K::rank_of(
            (#[trigger] inner[k]).1,
        ) by {
            assert(inner.to_multiset().count(inner[k]) > 0);
            if inner[k] != entry {
                assert(tail.to_multiset().count(inner[k]) > 0);
                let w = choose|w: int| 0 <= w < tail.len() && tail[w] == inner[k];
                assert(tail[w] == sorted[w + 1]);
            }
        }
        assert forall|i: int, j: int| 0 <= i < j < placed.len() implies K::rank_of(
            (#[trigger] placed[i]).1,
        ) >= K::rank_of((#[trigger] placed[j]).1) by {
            if i == 0 {
                assert(placed[j] == inner[j - 1]);
            } else {
                assert(placed[i] == inner[i - 1] && placed[j] == inner[j - 1]);
            }
        }
        assert(placed =~= inner.insert(0, sorted[0]));
        assert(sorted =~= tail.insert(0, sorted[0]));
        vstd::seq_lib::to_multiset_insert(inner, 0, sorted[0]);
        vstd::seq_lib::to_multiset_insert(tail, 0, sorted[0]);
        assert(placed.to_multiset() =~= sorted.to_multiset().insert(entry));
    } else {
        assert(placed =~= sorted.insert(0, entry));
        vstd::seq_lib::to_multiset_insert(sorted, 0, entry);
        assert forall|i: int, j: int| 0 <= i < j < placed.len() implies K::rank_of(
            (#[trigger] placed[i]).1,
        ) >= K::rank_of((#[trigger] placed[j]).1) by {
            if i == 0 {
                assert(placed[j] == sorted[j - 1]);
                if j - 1 > 0 {
                    assert(K::rank_of(sorted[0].1) >= K::rank_of(sorted[j - 1].1));
                }
            } else {
                assert(placed[i] == sorted[i - 1] && placed[j] == sorted[j - 1]);
            }
        }
    }
}

/// Ordering keeps every entry, each as often as it came, and leaves no
/// entry followed by a newer one.
pub proof fn law_sort_desc<K: Ranked>(entries: Seq<(int, K::V)>)
    ensures
        newest_first::<K>(sort_desc::<K>(entries)),
        sort_desc::<K>(entries).to_multiset() == entries.to_multiset(),
        sort_desc::<K>(entries).len() == entries.len(),
    decreases entries.len(),
{
    if entries.len() > 0 {
        let tail = entries.drop_first();
        law_sort_desc::<K>(tail);
        lemma_place_desc::<K>(sort_desc::<K>(tail), entries[0]);
        assert(entries =~= tail.insert(0, entries[0]));
        vstd::seq_lib::to_multiset_insert(tail, 0, entries[0]);
    } else {
        assert(entries =~= Seq::empty());
    }
}

/// Placing an entry is inserting it where the newer entries end.
proof fn lemma_place_at<K: Ranked>(sorted: Seq<(int, K::V)>, entry: (int, K::V), at: int)
    requires
        0 <= at <= sorted.len(),
        forall|j: int| 0 <= j < at ==> K::rank_of(entry.1) < K::rank_of((#[trigger] sorted[j]).1),
        at < sorted.len() ==> K::rank_of(entry.1) >= K::rank_of(sorted[at].1),
    ensures
        place_desc::<K>(sorted, entry) == sorted.insert(at, entry),
    decreases at,
{
    if at == 0 {
        assert(seq![entry] + sorted =~= sorted.insert(0, entry));
    } else {
        let tail = sorted.drop_first();
        assert forall|j: int| 0 <= j < at - 1 implies K::rank_of(entry.1) < K::rank_of(
            (#[trigger] tail[j]).1,
        ) by {
            assert(tail[j] == sorted[j + 1]);
        }
        lemma_place_at::<K>(tail, entry, at - 1);
        assert(seq![sorted[0]] + tail.insert(at - 1, entry) =~= sorted.insert(at, entry));
    }
}

/// Orders entries newest first, keeping entries of one rank in the order
/// they had.
pub(crate) fn sort_found<K: Ranked>(found: Vec<Found<K>>, Ghost(bound): Ghost<int>) -> (sorted: Vec<Found<K>>)
    requires
        forall|i: int| 0 <= i < found@.len() ==> (#[trigger] found@[i]).index < bound,
    ensures
        models(sorted@) == sort_desc::<K>(models(found@)),
        forall|i: int| 0 <= i < sorted@.len() ==> (#[trigger] sorted@[i]).index < bound,
{
    let ghost all = models(found@);
    let mut rest = found;
    let mut sorted: Vec<Found<K>> = Vec::new();
    proof {
        assert(all.subrange(all.len() as int, all.len() as int) =~= Seq::empty());
        assert(models(sorted@) =~= Seq::empty());
    }
    while rest.len() > 0
        invariant
            rest@.len() <= all.len(),
            forall|i: int| 0 <= i < rest@.len() ==> (#[trigger] rest@[i]).index < bound,
            forall|i: int| 0 <= i < sorted@.len() ==> (#[trigger] sorted@[i]).index < bound,
            models(rest@) == all.subrange(0, rest@.len() as int),
            models(sorted@) == sort_desc::<K>(all.subrange(rest@.len() as int, all.len() as int)),
        decreases rest.len(),
    {
        let ghost before = rest@;
        let entry = rest.pop().unwrap();
        let ghost k = rest@.len() as int;
        proof {
            assert(entry == before[k]);
            assert forall|i: int| 0 <= i < rest@.len() implies (#[trigger] rest@[i]).index
                < bound by {
                assert(rest@[i] == before[i]);
            }
            assert(models(before)[k] == entry.model());
            assert(models(rest@) =~= all.subrange(0, k));
            let part = all.subrange(k, all.len() as int);
            assert(part.drop_first() =~= all.subrange(k + 1, all.len() as int));
            assert(part[0] == entry.model());
        }
        let mut at: usize = 0;
        while at < sorted.len() && entry.key.ranks_below(&sorted[at].key)
            invariant
                at <= sorted.len(),
                forall|j: int|
                    0 <= j < at ==> K::rank_of(entry.key@) < K::rank_of(
                        (#[trigger] models(sorted@)[j]).1,
                    ),
            decreases sorted.len() - at,
        {
            at += 1;
        }
        proof {
            lemma_place_at::<K>(models(sorted@), entry.model(), at as int);
            assert(models(sorted@.insert(at as int, entry)) =~= models(sorted@).insert(
                at as int,
                entry.model(),
            ));
        }
        let ghost was = sorted@;
        sorted.insert(at, entry);
        proof {
            assert forall|i: int| 0 <= i < sorted@.len() implies (#[trigger] sorted@[i]).index
                < bound by {
                if i < at {
                    assert(sorted@[i] == was[i]);
                } else if i > at {
                    assert(sorted@[i] == was[i - 1]);
                }
            }
        }
    }
    proof {
        assert(all.subrange(0, all.len() as int) =~= all);
    }
    sorted
}

/// The entries of a listing whose stem `filter_map` accepts, with the keys
/// it read, newest first.
fn scan_folder<K: Ranked, F: Fn(&str) -> Option<K>>(
    names: &Vec<String>,
    filter_map: F,
    Ghost(parse): Ghost<spec_fn(Seq<char>) -> Option<K::V>>,
) -> (found: Vec<Found<K>>)
    requires
        forall|stem: &str| call_requires(filter_map, (stem,)),
        forall|stem: &str, key: Option<K>|
            call_ensures(filter_map, (stem,), key) ==> option_view(key) == parse(stem@),
    ensures
        models(found@) == sort_desc::<K>(kept(name_views(names@), parse)),
        forall|i: int| 0 <= i < found@.len() ==> (#[trigger] found@[i]).index < names@.len(),
{
    let mut found: Vec<Found<K>> = Vec::new();
    let mut index: usize = 0;
    proof {
        assert(models(found@) =~= Seq::empty());
        assert(name_views(names@).subrange(0, 0) =~= Seq::empty());
    }
    while index < names.len()
        invariant
            index <= names.len(),
            forall|stem: &str| call_requires(filter_map, (stem,)),
            forall|stem: &str, key: Option<K>|
                call_ensures(filter_map, (stem,), key) ==> option_view(key) == parse(stem@),
            models(found@) == kept(name_views(names@).subrange(0, index as int), parse),
            forall|i: int| 0 <= i < found@.len() ==> (#[trigger] found@[i]).index < index,
        decreases names.len() - index,
    {
        let stem = file_stem(names[index].as_str());
        let key = filter_map(stem.as_str());
        proof {
            let views = name_views(names@);
            let longer = views.subrange(0, index + 1);
            assert(longer.drop_last() =~= views.subrange(0, index as int));
            assert(longer.last() == names@[index as int]@);
        }
        match key {
            Some(key) => {
                let ghost before = found@;
                found.push(Found { index, key });
                proof {
                    assert(models(found@) =~= models(before).push((index as int, key@)));
                }
            },
            None => {},
        }
        index += 1;
    }
    proof {
        assert(name_views(names@).subrange(0, index as int) =~= name_views(names@));
    }
    sort_found(found, Ghost(names@.len() as int))
}

/// The year that a folder's stem spells, as a function.
pub open spec fn year_parser() -> spec_fn(Seq<char>) -> Option<i32> {
    |stem: Seq<char>| year_of(stem)
}

/// The instant that a file's stem spells, as a function.
pub open spec fn instant_parser() -> spec_fn(Seq<char>) -> Option<Stamp> {
    |stem: Seq<char>| instant_of_text(stem)
}

/// The year folders of a listing, newest first.
pub open spec fn sorted_years(names: Seq<Seq<char>>) -> Seq<(int, i32)> {
    sort_desc::<i32>(kept(names, year_parser()))
}

/// The snapshot files of a listing, newest first.
pub open spec fn sorted_snapshots(names: Seq<Seq<char>>) -> Seq<(int, Stamp)> {
    sort_desc::<Instant>(kept(names, instant_parser()))
}

/// The instant that a file's stem spells, if any.
pub fn parse_instant(stem: &str) -> (instant: Option<Instant>)
    ensures
        option_view(instant) == instant_of_text(stem@),
{
    match Instant::from_utc(stem) {
        Ok(instant) => Some(instant),
        Err(_) => None,
    }
}

/// The entries of a store's root whose stem spells a year, newest year
/// first.
pub fn scan_years(names: &Vec<String>) -> (found: Vec<Found<i32>>)
    ensures
        models(found@) == sorted_years(name_views(names@)),
        forall|i: int| 0 <= i < found@.len() ==> (#[trigger] found@[i]).index < names@.len(),
{
    scan_folder(names, parse_year, Ghost(year_parser()))
}

/// The entries of a year folder whose stem spells an instant, newest
/// first.
pub fn scan_snapshots(names: &Vec<String>) -> (found: Vec<Found<Instant>>)
    ensures
        models(found@) == sorted_snapshots(name_views(names@)),
        forall|i: int| 0 <= i < found@.len() ==> (#[trigger] found@[i]).index < names@.len(),
{
    scan_folder(names, parse_instant, Ghost(instant_parser()))
}

/// One entry of a store's root with the names of the entries inside it
/// (none where it is not a folder).
#[derive(Debug)]
pub struct YearFolder {
    pub name: String,
    pub files: Vec<String>,
}

/// What a folder of a listing holds: its name and the names inside it.
pub struct FolderView {
    pub name: Seq<char>,
    pub files: Seq<Seq<char>>,
}

impl View for YearFolder {
    type V = FolderView;

    open spec fn view(&self) -> FolderView {
        FolderView { name: self.name@, files: name_views(self.files@) }
    }
}

/// One snapshot of a store: its folder, its file and the instant that the
/// file's name spells.
#[derive(Debug)]
pub struct Backup {
    pub folder: String,
    pub file: String,
    pub instant: Instant,
}

/// What a snapshot holds: the names of its folder and file and the fields
/// of its instant.
pub struct BackupView {
    pub folder: Seq<char>,
    pub file: Seq<char>,
    pub instant: Stamp,
}

impl View for Backup {
    type V = BackupView;

    open spec fn view(&self) -> BackupView {
        BackupView { folder: self.folder@, file: self.file@, instant: self.instant@ }
    }
}

/// What the folders of a listing hold.
pub open spec fn folder_views(root: Seq<YearFolder>) -> Seq<FolderView> {
    root.map_values(|folder: YearFolder| folder@)
}

/// What the snapshots of a walk hold.
pub open spec fn backup_views(order: Seq<Backup>) -> Seq<BackupView> {
    order.map_values(|backup: Backup| backup@)
}

/// The names of the folders of a listing.
pub open spec fn folder_names(root: Seq<FolderView>) -> Seq<Seq<char>> {
    root.map_values(|folder: FolderView| folder.name)
}

/// The snapshots named by some entries of a folder, in the order of those
/// entries.
pub open spec fn backups_of(folder: FolderView, entries: Seq<(int, Stamp)>) -> Seq<BackupView> {
    entries.map_values(
        |entry: (int, Stamp)|
            BackupView { folder: folder.name, file: folder.files[entry.0], instant: entry.1 },
    )
}

/// The snapshots of the given year folders, folder after folder, each
/// folder's snapshots newest first.
pub open spec fn walk_folders(root: Seq<FolderView>, years: Seq<(int, i32)>) -> Seq<BackupView>
    decreases years.len(),
{
    if years.len() == 0 {
        Seq::empty()
    } else {
        let folder = root[years.last().0];
        walk_folders(root, years.drop_last()) + backups_of(folder, sorted_snapshots(folder.files))
    }
}

/// The order in which the snapshots of a store are visited: the folders by
/// falling year, the snapshots of each folder by falling instant.
pub open spec fn walk_order(root: Seq<FolderView>) -> Seq<BackupView> {
    walk_folders(root, sorted_years(folder_names(root)))
}

/// All snapshots of a store in the order in which they are visited, newest
/// first.
pub fn walk(root: &Vec<YearFolder>) -> (order: Vec<Backup>)
    ensures
        backup_views(order@) == walk_order(folder_views(root@)),
{
    let mut names: Vec<String> = Vec::new();
    let mut i: usize = 0;
    while i < root.len()
        invariant
            i <= root.len(),
            name_views(names@) == folder_names(folder_views(root@)).subrange(0, i as int),
        decreases root.len() - i,
    {
        let ghost before = names@;
        names.push(root[i].name.clone());
        proof {
            assert(name_views(names@) =~= name_views(before).push(root@[i as int].name@));
            assert(name_views(names@) =~= folder_names(folder_views(root@)).subrange(
                0,
                i + 1,
            ));
        }
        i += 1;
    }
    proof {
        let all = folder_names(folder_views(root@));
        assert(all.subrange(0, i as int) =~= all);
    }
    let years = scan_years(&names);
    let ghost views = folder_views(root@);
    let ghost sorted = sorted_years(folder_names(views));
    let mut order: Vec<Backup> = Vec::new();
    let mut y: usize = 0;
    proof {
        assert(sorted.subrange(0, 0) =~= Seq::empty());
        assert(backup_views(order@) =~= Seq::empty());
    }
    while y < years.len()
        invariant
            y <= years.len(),
            views == folder_views(root@),
            models(years@) == sorted,
            names@.len() == root@.len(),
            forall|k: int| 0 <= k < years@.len() ==> (#[trigger] years@[k]).index < names@.len(),
            backup_views(order@) == walk_folders(views, sorted.subrange(0, y as int)),
        decreases years.len() - y,
    {
        let folder = &root[years[y].index];
        let found = scan_snapshots(&folder.files);
        let ghost entries = sorted_snapshots(folder@.files);
        let ghost done = order@;
        proof {
            let longer = sorted.subrange(0, y + 1);
            assert(longer.drop_last() =~= sorted.subrange(0, y as int));
            assert(longer.last() == years@[y as int].model());
            assert(views[years@[y as int].index as int] == folder@);
        }
        let mut s: usize = 0;
        proof {
            assert(backups_of(folder@, entries.subrange(0, 0)) =~= Seq::empty());
            assert(backup_views(done) + Seq::<BackupView>::empty() =~= backup_views(done));
        }
        while s < found.len()
            invariant
                s <= found.len(),
                models(found@) == entries,
                forall|k: int|
                    0 <= k < found@.len() ==> (#[trigger] found@[k]).index < folder.files@.len(),
                backup_views(order@) == backup_views(done) + backups_of(
                    folder@,
                    entries.subrange(0, s as int),
                ),
            decreases found.len() - s,
        {
            let ghost was = order@;
            let backup = Backup {
                folder: folder.name.clone(),
                file: folder.files[found[s].index].clone(),
                instant: found[s].key,
            };
            order.push(backup);
            proof {
                assert(entries[s as int] == found@[s as int].model());
                assert(backup_views(order@) =~= backup_views(was).push(backup@));
                assert(backups_of(folder@, entries.subrange(0, s + 1)) =~= backups_of(
                    folder@,
                    entries.subrange(0, s as int),
                ).push(backup@));
            }
            s += 1;
        }
        proof {
            assert(entries.subrange(0, s as int) =~= entries);
        }
        y += 1;
    }
    proof {
        assert(sorted.subrange(0, y as int) =~= sorted);
    }
    order
}

/// The snapshot that is visited first, if the store has any.
pub fn newest(root: &Vec<YearFolder>) -> (first: Option<Backup>)
    ensures
        match first {
            Some(backup) => walk_order(folder_views(root@)).len() > 0 && backup@ == walk_order(
                folder_views(root@),
            )[0],
            None => walk_order(folder_views(root@)).len() == 0,
        },
{
    let mut order = walk(root);
    if order.len() > 0 {
        let first = order.remove(0);
        Some(first)
    } else {
        None
    }
}

/// Offers the snapshots to `select` in order and returns what it makes of
/// the first one that it accepts; `None` where it accepts none.
pub fn select_backup<T, F: Fn(&Backup) -> Option<T>>(order: &Vec<Backup>, select: F) -> (selected:
    Option<T>)
    requires
        forall|i: int| 0 <= i < order@.len() ==> call_requires(select, (&#[trigger] order@[i],)),
    ensures
        match selected {
            Some(value) => exists|i: int|
                0 <= i < order@.len() && call_ensures(select, (&#[trigger] order@[i],), Some(value))
                    && forall|j: int|
                    0 <= j < i ==> call_ensures(select, (&#[trigger] order@[j],), None::<T>),
            None => forall|i: int|
                0 <= i < order@.len() ==> call_ensures(
                    select,
                    (&#[trigger] order@[i],),
                    None::<T>,
                ),
        },
{
    let mut i: usize = 0;
    while i < order.len()
        invariant
            i <= order.len(),
            forall|k: int|
                0 <= k < order@.len() ==> call_requires(select, (&#[trigger] order@[k],)),
            forall|j: int| 0 <= j < i ==> call_ensures(select, (&#[trigger] order@[j],), None::<T>),
        decreases order.len() - i,
    {
        let outcome = select(&order[i]);
        if outcome.is_some() {
            return outcome;
        }
        i += 1;
    }
    None
}

/// Every entry that is kept names a place of the listing, and its key is
/// what `parse` reads from the stem of the name at that place; the places
/// of the entries rise.
pub proof fn lemma_kept<V>(names: Seq<Seq<char>>, parse: spec_fn(Seq<char>) -> Option<V>)
    ensures
        forall|k: int|
            0 <= k < kept(names, parse).len() ==> {
                let entry = #[trigger] kept(names, parse)[k];
                0 <= entry.0 < names.len() && parse(stem_of(names[entry.0])) == Some(entry.1)
            },
        forall|a: int, b: int|
            0 <= a < b < kept(names, parse).len() ==> (#[trigger] kept(names, parse)[a]).0 < (
            #[trigger] kept(names, parse)[b]).0,
    decreases names.len(),
{
    if names.len() > 0 {
        let front = names.drop_last();
        lemma_kept(front, parse);
        assert forall|a: int, b: int| 0 <= a < b < kept(names, parse).len() implies (
        #[trigger] kept(names, parse)[a]).0 < (#[trigger] kept(names, parse)[b]).0 by {
            if b < kept(front, parse).len() {
                assert(kept(names, parse)[a] == kept(front, parse)[a]);
                assert(kept(names, parse)[b] == kept(front, parse)[b]);
            } else {
                assert(kept(names, parse)[a] == kept(front, parse)[a]);
            }
        }
        assert forall|k: int| 0 <= k < kept(names, parse).len() implies {
            let entry = #[trigger] kept(names, parse)[k];
            0 <= entry.0 < names.len() && parse(stem_of(names[entry.0])) == Some(entry.1)
        } by {
            if k < kept(front, parse).len() {
                let entry = kept(front, parse)[k];
                assert(kept(names, parse)[k] == entry);
                assert(front[entry.0] == names[entry.0]);
            }
        }
    }
}

/// Every entry of an ordered listing names a place of the listing, and
/// its key is what `parse` reads from the stem of the name at that place.
pub proof fn lemma_sorted_kept<K: Ranked>(
    names: Seq<Seq<char>>,
    parse: spec_fn(Seq<char>) -> Option<K::V>,
)
    ensures
        forall|k: int|
            0 <= k < sort_desc::<K>(kept(names, parse)).len() ==> {
                let entry = #[trigger] sort_desc::<K>(kept(names, parse))[k];
                0 <= entry.0 < names.len() && parse(stem_of(names[entry.0])) == Some(entry.1)
            },
{
    let listing = kept(names, parse);
    let sorted = sort_desc::<K>(listing);
    lemma_kept(names, parse);
    law_sort_desc::<K>(listing);
    assert forall|k: int| 0 <= k < sorted.len() implies {
        let entry = #[trigger] sorted[k];
        0 <= entry.0 < names.len() && parse(stem_of(names[entry.0])) == Some(entry.1)
    } by {
        vstd::seq_lib::to_multiset_contains(sorted, sorted[k]);
        vstd::seq_lib::to_multiset_contains(listing, sorted[k]);
        assert(sorted.contains(sorted[k]));
        let w = choose|w: int| 0 <= w < listing.len() && listing[w] == sorted[k];
        assert(listing[w] == sorted[k]);
    }
}

} // verus!

//! What a store does with its snapshots: which one it opens, which one it
//! rolls back to, where it writes the next one and which ones it deletes
//! in passing.
//!
//! Reading and writing files is left to the caller. A store is known here
//! by the listing of its folders, and a snapshot is loaded through a
//! function that the caller hands in.

use crate::backup::{backup_views, folder_views, newest, walk, walk_order, Backup, YearFolder};
use crate::codec::{temp_name, temp_name_of};
use crate::error::ErrorKind;
use crate::names::{all_digits, digits_value, is_digit, year_of};
use crate::retention::{delete_old_backups, instants, is_pruned};
use crate::text::push_char;
use crate::time::{formatted_utc, Instant};
use vstd::prelude::*;
use vstd::string::StringExecFns;

verus! {

/// The extension of a snapshot file.
pub const SNAPSHOT_EXTENSION: &'static str = ".bin";

/// The character of a decimal digit.
pub open spec fn digit_char(digit: int) -> char {
    (digit + '0' as int) as char
}

/// The decimal digits of a number, without leading zeros.
pub open spec fn digits_of(n: nat) -> Seq<char>
    decreases n,
{
    if n < 10 {
        seq![digit_char(n as int)]
    } else {
        digits_of(n / 10).push(digit_char((n % 10) as int))
    }
}

/// The decimal text of a year, with `-` before a negative one.
pub open spec fn year_text(year: int) -> Seq<char> {
    if year < 0 {
        seq!['-'] + digits_of((-year) as nat)
    } else {
        digits_of(year as nat)
    }
}

/// The digits of a number spell that number.
pub proof fn lemma_digits_of(n: nat)
    ensures
        digits_of(n).len() > 0,
        all_digits(digits_of(n)),
        digits_value(digits_of(n)) == n,
        digits_of(n)[0] != '-',
        digits_of(n)[0] != '+',
    decreases n,
{
    if n < 10 {
        let d = digits_of(n);
        assert(d.drop_last() =~= Seq::<char>::empty());
        assert(digits_value(d.drop_last()) == 0);
    } else {
        lemma_digits_of(n / 10);
        let d = digits_of(n);
        assert(d.drop_last() =~= digits_of(n / 10));
        assert(d[0] == digits_of(n / 10)[0]);
    }
}

/// A folder named by [`year_text`] is read back as the same year.
pub proof fn law_year_text_parses(year: i32)
    ensures
        year_of(year_text(year as int)) == Some(year),
{
    if year < 0 {
        let n = (-(year as int)) as nat;
        lemma_digits_of(n);
        let text = year_text(year as int);
        assert(text.drop_first() =~= digits_of(n));
    } else {
        lemma_digits_of(year as nat);
    }
}

fn digits(n: u64) -> (text: String)
    ensures
        text@ == digits_of(n as nat),
    decreases n,
{
    if n < 10 {
        let mut text = String::new();
        push_char(&mut text, (n as u8 + 48u8) as char);
        assert(text@ =~= seq![digit_char(n as int)]);
        text
    } else {
        let mut text = digits(n / 10);
        push_char(&mut text, ((n % 10) as u8 + 48u8) as char);
        text
    }
}

/// The name of the folder of a year.
pub fn year_name(year: i32) -> (name: String)
    ensures
        name@ == year_text(year as int),
{
    if year < 0 {
        let mut name = String::new();
        push_char(&mut name, '-');
        let rest = digits((-(year as i64)) as u64);
        name.append(rest.as_str());
        assert(name@ =~= seq!['-'] + digits_of((-year) as nat));
        name
    } else {
        digits(year as u64)
    }
}

/// Folder and file of the snapshot of an instant, inside the store.
#[derive(Debug)]
pub struct Location {
    pub folder: String,
    pub file: String,
}

/// Where the snapshot of an instant lies: in the folder of the instant's
/// year, in the file named by the instant.
pub fn path_from_instant(instant: &Instant) -> (location: Location)
    ensures
        location.folder@ == year_text(instant@.year as int),
        location.file@ == formatted_utc(instant@) + SNAPSHOT_EXTENSION@,
{
    Location {
        folder: year_name(instant.year()),
        file: instant.str().concat(SNAPSHOT_EXTENSION),
    }
}

/// Loads the newest snapshot of a store. A store without snapshots is
/// `NotFound`; what `load` reports of the newest snapshot is handed on, so
/// a corrupted newest snapshot fails the call.
pub fn load_newest<T, F: Fn(&Backup) -> Result<T, Box<ErrorKind>>>(
    root: &Vec<YearFolder>,
    load: F,
) -> (loaded: Result<T, Box<ErrorKind>>)
    requires
        forall|backup: &Backup| call_requires(load, (backup,)),
    ensures
        walk_order(folder_views(root@)).len() == 0 ==> (loaded matches Err(error) && *error
            == ErrorKind::NotFound),
        walk_order(folder_views(root@)).len() > 0 ==> exists|backup: Backup|
            backup@ == walk_order(folder_views(root@))[0] && #[trigger] call_ensures(
                load,
                (&backup,),
                loaded,
            ),
{
    match newest(root) {
        Some(backup) => load(&backup),
        None => Err(Box::new(ErrorKind::NotFound)),
    }
}

/// `load` reports an error for the snapshot.
pub open spec fn fails_on<T, F: Fn(&Backup) -> Result<T, Box<ErrorKind>>>(
    load: F,
    backup: Backup,
) -> bool {
    exists|error: Box<ErrorKind>| #[trigger]
        call_ensures(load, (&backup,), Err::<T, Box<ErrorKind>>(error))
}

/// The snapshot at `place` is the first of the walk that `load` reads, and
/// `value` is what it read there.
pub open spec fn first_read_at<T, F: Fn(&Backup) -> Result<T, Box<ErrorKind>>>(
    load: F,
    order: Seq<Backup>,
    place: int,
    value: T,
) -> bool {
    &&& 0 <= place < order.len()
    &&& call_ensures(load, (&order[place],), Ok::<T, Box<ErrorKind>>(value))
    &&& forall|j: int| 0 <= j < place ==> #[trigger] fails_on::<T, F>(load, order[j])
}

/// `load` reads no snapshot of the walk.
pub open spec fn none_read<T, F: Fn(&Backup) -> Result<T, Box<ErrorKind>>>(
    load: F,
    order: Seq<Backup>,
) -> bool {
    forall|j: int| 0 <= j < order.len() ==> #[trigger] fails_on::<T, F>(load, order[j])
}

/// The first snapshot of a walk that `load` can read, with its place.
pub fn first_loadable<T, F: Fn(&Backup) -> Result<T, Box<ErrorKind>>>(
    order: &Vec<Backup>,
    load: F,
) -> (found: Option<(usize, T)>)
    requires
        forall|backup: &Backup| call_requires(load, (backup,)),
    ensures
        match found {
            Some((place, value)) => first_read_at(load, order@, place as int, value),
            None => none_read::<T, F>(load, order@),
        },
{
    let mut i: usize = 0;
    while i < order.len()
        invariant
            i <= order.len(),
            forall|backup: &Backup| call_requires(load, (backup,)),
            forall|j: int|
                0 <= j < i ==> #[trigger] fails_on::<T, F>(load, order@[j]),
        decreases order.len() - i,
    {
        match load(&order[i]) {
            Ok(value) => {
                return Some((i, value));
            },
            Err(error) => {
                assert(call_ensures(load, (&order@[i as int],), Err::<T, Box<ErrorKind>>(error)));
                assert(fails_on::<T, F>(load, order@[i as int]));
            },
        }
        i += 1;
    }
    None
}

/// Loads the newest snapshot of a store that `load` can read, skipping
/// those it cannot. `NotFound` where it can read none.
pub fn load_newest_noncurrupted<T, F: Fn(&Backup) -> Result<T, Box<ErrorKind>>>(
    root: &Vec<YearFolder>,
    load: F,
) -> (loaded: Result<T, Box<ErrorKind>>)
    requires
        forall|backup: &Backup| call_requires(load, (backup,)),
    ensures
        exists|order: Seq<Backup>|
            #![trigger backup_views(order)]
            backup_views(order) == walk_order(folder_views(root@)) && match loaded {
                Ok(value) => exists|place: int| first_read_at(load, order, place, value),
                Err(error) => *error == ErrorKind::NotFound && none_read::<T, F>(load, order),
            },
{
    let order = walk(root);
    match first_loadable(&order, load) {
        Some((place, value)) => {
            let ghost seen = order@;
            let ghost at = place as int;
            let loaded = Ok(value);
            assert(first_read_at(load, seen, at, loaded->Ok_0));
            assert(backup_views(seen) == walk_order(folder_views(root@)));
            loaded
        },
        None => {
            assert(backup_views(order@) == walk_order(folder_views(root@)));
            Err(Box::new(ErrorKind::NotFound))
        },
    }
}

/// The instant of the newest snapshot of a store that `load` can read.
/// `NotFound` where it can read none.
pub fn instant_of_newest_noncurrupted<T, F: Fn(&Backup) -> Result<T, Box<ErrorKind>>>(
    root: &Vec<YearFolder>,
    load: F,
) -> (instant: Result<Instant, Box<ErrorKind>>)
    requires
        forall|backup: &Backup| call_requires(load, (backup,)),
    ensures
        exists|order: Seq<Backup>|
            #![trigger backup_views(order)]
            backup_views(order) == walk_order(folder_views(root@)) && match instant {
                Ok(at) => exists|place: int, value: T|
                    first_read_at(load, order, place, value) && at == order[place].instant,
                Err(error) => *error == ErrorKind::NotFound && none_read::<T, F>(load, order),
            },
{
    let order = walk(root);
    match first_loadable(&order, load) {
        Some((place, value)) => {
            assert(first_read_at(load, order@, place as int, value));
            assert(backup_views(order@) == walk_order(folder_views(root@)));
            Ok(order[place].instant)
        },
        None => {
            assert(backup_views(order@) == walk_order(folder_views(root@)));
            Err(Box::new(ErrorKind::NotFound))
        },
    }
}

/// The instant of the newest snapshot of a store and the instant of the
/// snapshot that a rollback would return to. The two are equal where the
/// newest snapshot is sound.
#[derive(Debug, Clone, Copy, PartialEq, Eq, Structural)]
pub struct RollbackDateInfo {
    pub newest_instant: Instant,
    pub rollback_instant: Instant,
}

impl RollbackDateInfo {
    /// The report for a store in two parts: its newest snapshot is the
    /// newer of the two newest ones, and a rollback returns to the older of
    /// the two rollback instants.
    pub fn merge(&self, other: &RollbackDateInfo) -> (merged: RollbackDateInfo)
        ensures
            merged.newest_instant == (if self.newest_instant@.earlier(other.newest_instant@) {
                other.newest_instant
            } else {
                self.newest_instant
            }),
            merged.rollback_instant == (if other.rollback_instant@.earlier(
                self.rollback_instant@,
            ) {
                other.rollback_instant
            } else {
                self.rollback_instant
            }),
    {
        RollbackDateInfo {
            newest_instant: self.newest_instant.max(&other.newest_instant),
            rollback_instant: self.rollback_instant.min(&other.rollback_instant),
        }
    }
}

/// What a rollback of the store would come to. `NotFound` where the store
/// has no snapshot or none that `load` can read.
pub fn rollback_info<T, F: Fn(&Backup) -> Result<T, Box<ErrorKind>>>(
    root: &Vec<YearFolder>,
    load: F,
) -> (info: Result<RollbackDateInfo, Box<ErrorKind>>)
    requires
        forall|backup: &Backup| call_requires(load, (backup,)),
    ensures
        exists|order: Seq<Backup>|
            #![trigger backup_views(order)]
            backup_views(order) == walk_order(folder_views(root@)) && match info {
                Ok(report) => exists|place: int, value: T|
                    first_read_at(load, order, place, value) && report.newest_instant
                        == order[0].instant && report.rollback_instant == order[place].instant,
                Err(error) => *error == ErrorKind::NotFound && none_read::<T, F>(load, order),
            },
{
    let order = walk(root);
    match first_loadable(&order, load) {
        Some((place, value)) => {
            assert(first_read_at(load, order@, place as int, value));
            assert(backup_views(order@) == walk_order(folder_views(root@)));
            Ok(
                RollbackDateInfo {
                    newest_instant: order[0].instant,
                    rollback_instant: order[place].instant,
                },
            )
        },
        None => {
            assert(backup_views(order@) == walk_order(folder_views(root@)));
            Err(Box::new(ErrorKind::NotFound))
        },
    }
}

/// Whether a store can be created in a directory, given the number of
/// entries of the directory if it exists. A directory that holds anything
/// is refused with `AlreadyExist`; success tells whether the directory has
/// yet to be made.
pub fn create_check(entries: Option<usize>) -> (make_directory: Result<bool, Box<ErrorKind>>)
    ensures
        match make_directory {
            Ok(make) => make == entries.is_none() && (entries matches Some(n) ==> n == 0),
            Err(error) => *error == ErrorKind::AlreadyExist && (entries matches Some(n) && n > 0),
        },
{
    match entries {
        Some(n) => {
            if n > 0 {
                Err(Box::new(ErrorKind::AlreadyExist))
            } else {
                Ok(false)
            }
        },
        None => Ok(true),
    }
}

/// Whether a database can be opened, created or rolled back to: only one
/// can be open at a time, and a second one is refused with `AlreadyOpen`.
pub fn check_closed(open: bool) -> (outcome: Result<(), Box<ErrorKind>>)
    ensures
        match outcome {
            Ok(_) => !open,
            Err(error) => open && *error == ErrorKind::AlreadyOpen,
        },
{
    if open {
        Err(Box::new(ErrorKind::AlreadyOpen))
    } else {
        Ok(())
    }
}

/// Whether the open database can be written: where none is open, there
/// is nothing to write, which is reported as `NotFound`.
pub fn check_open(open: bool) -> (outcome: Result<(), Box<ErrorKind>>)
    ensures
        match outcome {
            Ok(_) => open,
            Err(error) => !open && *error == ErrorKind::NotFound,
        },
{
    if open {
        Ok(())
    } else {
        Err(Box::new(ErrorKind::NotFound))
    }
}

/// What writing a snapshot takes: the snapshots to delete first, by their
/// places in the walk, then the file to write and the name it bears until
/// it is complete.
#[derive(Debug)]
pub struct StorePlan {
    pub doomed: Vec<usize>,
    pub location: Location,
    pub temp_file: String,
}

/// Plans the writing of the snapshot of instant `now` into a store whose
/// snapshots are `order`, newest first.
pub fn store_plan(order: &Vec<Backup>, now: &Instant) -> (plan: StorePlan)
    ensures
        forall|place: usize| #[trigger]
            plan.doomed@.contains(place) <==> place < order@.len() && is_pruned(
                instants(backup_views(order@)),
                place as int,
            ),
        forall|a: int, b: int| 0 <= a < b < plan.doomed@.len() ==> plan.doomed@[a] < plan.doomed@[b],
        plan.location.folder@ == year_text(now@.year as int),
        plan.location.file@ == formatted_utc(now@) + SNAPSHOT_EXTENSION@,
        plan.temp_file@ == temp_name_of(plan.location.file@),
{
    let doomed = delete_old_backups(order);
    let location = path_from_instant(now);
    let temp_file = temp_name(location.file.as_str());
    StorePlan { doomed, location, temp_file }
}

} // verus!

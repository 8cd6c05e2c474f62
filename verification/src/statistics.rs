//! Counts over the orders on record.

use crate::chunked::Uid;
use crate::date::{days_of, UtcDate};
use crate::expedient::{Expedient, Order, OrderState};
use vstd::prelude::*;

verus! {

/// The days of the orders that are done, in the order of the orders.
pub open spec fn done_days_of(orders: Seq<Order>) -> Seq<i64>
    decreases orders.len(),
{
    if orders.len() == 0 {
        Seq::empty()
    } else if orders.last().state == OrderState::Done {
        done_days_of(orders.drop_last()).push(days_of(orders.last().date@ as int) as i64)
    } else {
        done_days_of(orders.drop_last())
    }
}

/// The days of the orders that are done, expedient after expedient.
pub open spec fn done_days<'b>(list: Seq<(Uid, &'b Expedient)>) -> Seq<i64>
    decreases list.len(),
{
    if list.len() == 0 {
        Seq::empty()
    } else {
        done_days(list.drop_last()) + done_days_of(list.last().1.orders@)
    }
}

/// A list of counts made long enough to hold `length` counts, with zeros.
pub open spec fn grown(counts: Seq<usize>, length: int) -> Seq<usize> {
    if counts.len() < length {
        counts + Seq::new((length - counts.len()) as nat, |i: int| 0usize)
    } else {
        counts
    }
}

/// The counts after one more day has been counted. The count at place
/// `n` is that of the day `n` days before `first`; a later day is left
/// out.
pub open spec fn counted(counts: Seq<usize>, day: i64, first: i64) -> Seq<usize> {
    if day <= first && first - day < usize::MAX {
        let place = first - day;
        let longer = grown(counts, place + 1);
        longer.update(
            place,
            if longer[place] < usize::MAX {
                (longer[place] + 1) as usize
            } else {
                longer[place]
            },
        )
    } else {
        counts
    }
}

/// The counts of some days, the count of `first` at place 0.
pub open spec fn day_counts(days: Seq<i64>, first: i64) -> Seq<usize>
    decreases days.len(),
{
    if days.len() == 0 {
        Seq::empty()
    } else {
        counted(day_counts(days.drop_last(), first), days.last(), first)
    }
}

fn count_day(counts: &mut Vec<usize>, day: i64, first: i64)
    ensures
        final(counts)@ == counted(old(counts)@, day, first),
{
    if day <= first {
        let distance = (first as i128 - day as i128) as u128;
        if distance < usize::MAX as u128 {
            let index = distance as usize;
            if counts.len() <= index {
                let ghost before = counts@;
                counts.resize(index + 1, 0);
                proof {
                    assert(counts@ =~= grown(before, index + 1));
                }
            }
            let seen = counts[index];
            if seen < usize::MAX {
                counts.set(index, seen + 1);
            }
            proof {
                let longer = grown(old(counts)@, index + 1);
                assert(counts@ =~= longer.update(
                    index as int,
                    if longer[index as int] < usize::MAX {
                        (longer[index as int] + 1) as usize
                    } else {
                        longer[index as int]
                    },
                ));
            }
        }
    }
}

/// How many orders were done on each day up to the day of `from_day`:
/// the last count is that of the day itself, the one before it that of
/// the day before, and so on back to the earliest day on which an order
/// was done.
pub fn done_commands_count_vs_days<'b>(from_day: UtcDate, all: &Vec<(Uid, &'b Expedient)>) -> (list:
    Vec<usize>)
    ensures
        list@ == day_counts(done_days(all@), days_of(from_day@ as int) as i64).reverse(),
{
    let first_day_hash = from_day.day_hash();
    let mut day_count_list: Vec<usize> = Vec::new();
    let mut i: usize = 0;
    proof {
        assert(all@.take(0) =~= Seq::empty());
    }
    while i < all.len()
        invariant
            i <= all.len(),
            day_count_list@ == day_counts(done_days(all@.take(i as int)), first_day_hash),
        decreases all.len() - i,
    {
        let orders = &all[i].1.orders;
        let ghost done = done_days(all@.take(i as int));
        let mut k: usize = 0;
        proof {
            assert(orders@.take(0) =~= Seq::empty());
            assert(done + done_days_of(orders@.take(0)) =~= done);
        }
        while k < orders.len()
            invariant
                k <= orders.len(),
                day_count_list@ == day_counts(
                    done + done_days_of(orders@.take(k as int)),
                    first_day_hash,
                ),
            decreases orders.len() - k,
        {
            let order = &orders[k];
            proof {
                assert(orders@.take(k + 1).drop_last() =~= orders@.take(k as int));
                assert(orders@.take(k + 1).last() == *order);
            }
            if order.state == OrderState::Done {
                let day = order.date.day_hash();
                proof {
                    let so_far = done + done_days_of(orders@.take(k as int));
                    let longer = done + done_days_of(orders@.take(k + 1));
                    assert(longer =~= so_far.push(day));
                    assert(longer.drop_last() =~= so_far);
                }
                count_day(&mut day_count_list, day, first_day_hash);
            }
            k += 1;
        }
        proof {
            assert(orders@.take(k as int) =~= orders@);
            assert(all@.take(i + 1).drop_last() =~= all@.take(i as int));
            assert(all@.take(i + 1).last() == all@[i as int]);
        }
        i += 1;
    }
    proof {
        assert(all@.take(i as int) =~= all@);
    }
    let mut list: Vec<usize> = Vec::new();
    let mut r: usize = day_count_list.len();
    while r > 0
        invariant
            r <= day_count_list.len(),
            list@.len() == day_count_list.len() - r,
            forall|j: int|
                0 <= j < list@.len() ==> list@[j] == day_count_list@[day_count_list.len() - 1 - j],
        decreases r,
    {
        r -= 1;
        list.push(day_count_list[r]);
    }
    proof {
        assert(list@ =~= day_count_list@.reverse());
    }
    list
}

} // verus!

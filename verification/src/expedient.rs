//! The records of the application: an expedient is a vehicle with its
//! owner and the orders placed on it.

use crate::chunked::Item;
use crate::date::UtcDate;
use crate::text::{chars_of, is_white_space, same_chars, white_space};
use vstd::prelude::*;
use vstd::std_specs::cmp::PartialEqSpecImpl;

verus! {

/// How far an order has come.
#[derive(Debug, PartialEq, Eq, Clone, Copy, Structural)]
pub enum OrderState {
    Urgent,
    Todo,
    Awaiting,
    InStore,
    Done,
}

/// One order placed on a vehicle.
#[derive(Debug, Clone)]
pub struct Order {
    pub date: UtcDate,
    pub title: String,
    pub description: String,
    pub state: OrderState,
}

/// A vehicle with its owner and the orders placed on it.
#[derive(Debug, Clone)]
pub struct Expedient {
    pub user: String,
    pub model: String,
    pub license_plate: String,
    pub vin: String,
    pub description: String,
    pub orders: Vec<Order>,
    pub date: UtcDate,
}

/// The lower-case form of an ASCII capital; any other character as it is.
pub open spec fn ascii_lower(c: char) -> char {
    if 'A' <= c <= 'Z' {
        ((c as u8) + 32) as char
    } else {
        c
    }
}

/// A text without its white space, its ASCII capitals in lower case.
pub open spec fn squeezed(text: Seq<char>) -> Seq<char>
    decreases text.len(),
{
    if text.len() == 0 {
        Seq::empty()
    } else if white_space(text.last()) {
        squeezed(text.drop_last())
    } else {
        squeezed(text.drop_last()).push(ascii_lower(text.last()))
    }
}

fn squeeze(text: &str) -> (out: Vec<char>)
    ensures
        out@ == squeezed(text@),
{
    let chars = chars_of(text);
    let mut out: Vec<char> = Vec::new();
    let mut i: usize = 0;
    while i < chars.len()
        invariant
            i <= chars.len(),
            chars@ == text@,
            out@ == squeezed(chars@.take(i as int)),
        decreases chars.len() - i,
    {
        proof {
            assert(chars@.take(i + 1).drop_last() =~= chars@.take(i as int));
        }
        let c = chars[i];
        if !is_white_space(c) {
            if c >= 'A' && c <= 'Z' {
                out.push(((c as u8) + 32) as char);
            } else {
                out.push(c);
            }
        }
        i += 1;
    }
    proof {
        assert(chars@.take(chars@.len() as int) =~= chars@);
    }
    out
}

/// Whether two texts are the same but for white space and the case of
/// ASCII letters.
pub fn eq_ignore_whitespace_case(a: &str, b: &str) -> (same: bool)
    ensures
        same == (squeezed(a@) == squeezed(b@)),
{
    let left = squeeze(a);
    let right = squeeze(b);
    same_chars(&left, &right)
}

/// Two orders are the same where their dates and states are, and their
/// texts but for white space and case.
pub open spec fn same_order(a: Order, b: Order) -> bool {
    &&& a.date == b.date
    &&& squeezed(a.title@) == squeezed(b.title@)
    &&& squeezed(a.description@) == squeezed(b.description@)
    &&& a.state == b.state
}

/// Two lists of orders are the same where they are as long and hold the
/// same orders, place by place.
pub open spec fn same_orders(a: Seq<Order>, b: Seq<Order>) -> bool {
    a.len() == b.len() && forall|i: int| 0 <= i < a.len() ==> same_order(#[trigger] a[i], b[i])
}

/// Two expedients are the same where their dates and orders are, and
/// their texts but for white space and case.
pub open spec fn same_expedient(a: Expedient, b: Expedient) -> bool {
    &&& squeezed(a.user@) == squeezed(b.user@)
    &&& squeezed(a.model@) == squeezed(b.model@)
    &&& squeezed(a.license_plate@) == squeezed(b.license_plate@)
    &&& squeezed(a.vin@) == squeezed(b.vin@)
    &&& squeezed(a.description@) == squeezed(b.description@)
    &&& same_orders(a.orders@, b.orders@)
    &&& a.date == b.date
}

fn orders_equal(a: &Order, b: &Order) -> (same: bool)
    ensures
        same == same_order(*a, *b),
{
    a.date == b.date && eq_ignore_whitespace_case(a.title.as_str(), b.title.as_str())
        && eq_ignore_whitespace_case(a.description.as_str(), b.description.as_str()) && a.state
        == b.state
}

fn order_lists_equal(a: &Vec<Order>, b: &Vec<Order>) -> (same: bool)
    ensures
        same == same_orders(a@, b@),
{
    if a.len() != b.len() {
        return false;
    }
    let mut i: usize = 0;
    while i < a.len()
        invariant
            i <= a.len(),
            a.len() == b.len(),
            forall|k: int| 0 <= k < i ==> same_order(#[trigger] a@[k], b@[k]),
        decreases a.len() - i,
    {
        if !orders_equal(&a[i], &b[i]) {
            return false;
        }
        i += 1;
    }
    true
}

fn expedients_equal(a: &Expedient, b: &Expedient) -> (same: bool)
    ensures
        same == same_expedient(*a, *b),
{
    eq_ignore_whitespace_case(a.user.as_str(), b.user.as_str()) && eq_ignore_whitespace_case(
        a.model.as_str(),
        b.model.as_str(),
    ) && eq_ignore_whitespace_case(a.license_plate.as_str(), b.license_plate.as_str())
        && eq_ignore_whitespace_case(a.vin.as_str(), b.vin.as_str()) && eq_ignore_whitespace_case(
        a.description.as_str(),
        b.description.as_str(),
    ) && order_lists_equal(&a.orders, &b.orders) && a.date == b.date
}

impl PartialEqSpecImpl for Order {
    open spec fn obeys_eq_spec() -> bool {
        true
    }

    open spec fn eq_spec(&self, other: &Order) -> bool {
        same_order(*self, *other)
    }
}

impl PartialEq for Order {
    fn eq(&self, other: &Order) -> (same: bool) {
        orders_equal(self, other)
    }
}

impl PartialEqSpecImpl for Expedient {
    open spec fn obeys_eq_spec() -> bool {
        true
    }

    open spec fn eq_spec(&self, other: &Expedient) -> bool {
        same_expedient(*self, *other)
    }
}

impl PartialEq for Expedient {
    fn eq(&self, other: &Expedient) -> (same: bool) {
        expedients_equal(self, other)
    }
}

/// The latest date among some orders, or `floor` where it is later or
/// there are none.
pub open spec fn latest(orders: Seq<Order>, floor: i64) -> i64
    decreases orders.len(),
{
    if orders.len() == 0 {
        floor
    } else {
        let before = latest(orders.drop_last(), floor);
        if orders.last().date@ > before {
            orders.last().date@
        } else {
            before
        }
    }
}

impl Expedient {
    /// The date by which the expedient ages: the date of its latest order,
    /// or its own date where it has no order.
    pub open spec fn newest(self) -> i64 {
        if self.orders@.len() == 0 {
            self.date@
        } else {
            latest(self.orders@, i64::MIN)
        }
    }

    /// The date of the latest order, or the date of the expedient where it
    /// has no order.
    pub fn newest_date(&self) -> (date: UtcDate)
        ensures
            date@ == self.newest(),
    {
        if self.orders.len() == 0 {
            return self.date;
        }
        let mut best: i64 = i64::MIN;
        let mut i: usize = 0;
        while i < self.orders.len()
            invariant
                i <= self.orders.len(),
                best == latest(self.orders@.take(i as int), i64::MIN),
            decreases self.orders.len() - i,
        {
            proof {
                assert(self.orders@.take(i + 1).drop_last() =~= self.orders@.take(i as int));
            }
            let hash = self.orders[i].date.date_hash();
            if hash > best {
                best = hash;
            }
            i += 1;
        }
        proof {
            assert(self.orders@.take(self.orders@.len() as int) =~= self.orders@);
        }
        UtcDate::from_hash(best)
    }
}

impl Item for Expedient {
    open spec fn date_spec(&self) -> i64 {
        self.newest()
    }

    fn date(&self) -> (date: i64) {
        self.newest_date().date_hash()
    }
}

} // verus!

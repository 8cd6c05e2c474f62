//! The queries that subscribers ask for: lists of orders and lists of
//! texts, filtered, ordered and cut to a length.
//!
//! A query runs in steps and stops between two steps once it has been
//! asked to.

use crate::chunked::Uid;
use crate::date::UtcDate;
use crate::expedient::{Expedient, OrderState};
use crate::filter::{keywords_of, score, subject_of, Filter};
use crate::id_map::Id;
use crate::listing::{arrange, arranged, keep_if, kept_if};
use crate::observable::AsyncCallbackProcess;
use crate::text::{
    chars_of, lowercased, same_chars, string_of, strip_char, stripped, texts, to_lowercase,
};
use vstd::prelude::*;

verus! {

/// Handle to a subscription, tagged with the kind of its query.
#[derive(Debug, Clone, Copy, PartialEq, Eq, Structural)]
pub enum HookId {
    Expedient(Id),
    ListExpedients(Id),
    ListExpedientOrders(Id),
    ListFilter(Id),
}

/// What a query for expedients asks for: the expedient to be alike, and
/// the length of the list.
#[derive(Debug, Clone)]
pub struct ListExpedientsHookOptions {
    pub filter: Expedient,
    pub max_list_len: usize,
}

/// The filters of a query for orders: texts to match, and the popularity
/// of the user.
#[derive(Debug, Clone)]
pub struct ListOrdersHookFilter {
    pub car_code: String,
    pub user: String,
    pub body: String,
    pub popularity: i32,
}

impl ListOrdersHookFilter {
    /// Puts the texts of the filter in lower case.
    pub fn to_lowercase(&mut self)
        ensures
            final(self).car_code@ == lowercased(old(self).car_code@),
            final(self).user@ == lowercased(old(self).user@),
            final(self).body@ == lowercased(old(self).body@),
            final(self).popularity == old(self).popularity,
    {
        self.car_code = to_lowercase(self.car_code.as_str());
        self.user = to_lowercase(self.user.as_str());
        self.body = to_lowercase(self.body.as_str());
    }
}

/// The order of a list of orders.
#[derive(Debug, Clone, Copy, PartialEq, Eq, Structural)]
pub enum ListOrdersHookOptionsSortBy {
    Oldest,
    Newest,
}

/// What a query for orders asks for.
#[derive(Debug, Clone)]
pub struct ListOrdersHookOptions {
    pub filter: Option<ListOrdersHookFilter>,
    pub sort_by: ListOrdersHookOptionsSortBy,
    pub max_list_len: usize,
    pub from_date: UtcDate,
    pub show_urgent: bool,
    pub show_todo: bool,
    pub show_awaiting: bool,
    pub show_instore: bool,
    pub show_done: bool,
}

/// A vehicle code without its separators: no `_` and no space.
pub open spec fn code_of(text: Seq<char>) -> Seq<char> {
    stripped(stripped(text, '_'), ' ')
}

/// The name under which the expedients of a user are counted: lower case,
/// without spaces.
pub open spec fn user_key(user: Seq<char>) -> Seq<char> {
    stripped(lowercased(user), ' ')
}

/// Whether a text matches the filter that a filter text names.
pub open spec fn text_matches(filter: Seq<char>, text: Seq<char>) -> bool {
    score(keywords_of(filter), subject_of(text)) > 0
}

/// The expedient passes the filter of vehicle codes: there is none, or
/// its license plate or its VIN matches it.
pub open spec fn code_wanted(options: ListOrdersHookOptions, expedient: Expedient) -> bool {
    match options.filter {
        Some(filter) => filter.car_code@.len() == 0 || text_matches(
            code_of(filter.car_code@),
            code_of(expedient.license_plate@),
        ) || text_matches(code_of(filter.car_code@), code_of(expedient.vin@)),
        None => true,
    }
}

/// The expedient passes the filter of users: there is none, or its user
/// matches it.
pub open spec fn user_wanted(options: ListOrdersHookOptions, expedient: Expedient) -> bool {
    match options.filter {
        Some(filter) => filter.user@.len() == 0 || text_matches(filter.user@, expedient.user@),
        None => true,
    }
}

/// The date of a listed order; the earliest date there is where the
/// expedient has no such order.
pub open spec fn order_date(expedient: Expedient, order: usize) -> i64 {
    if order < expedient.orders@.len() {
        expedient.orders@[order as int].date@
    } else {
        i64::MIN
    }
}

/// The order is shown: it is not later than the date asked for, and its
/// state is among the states asked for.
pub open spec fn order_shown(options: ListOrdersHookOptions, expedient: Expedient, order: usize)
    -> bool {
    order < expedient.orders@.len() && expedient.orders@[order as int].date@
        <= options.from_date@ && (match expedient.orders@[order as int].state {
        OrderState::Urgent => options.show_urgent,
        OrderState::Todo => options.show_todo,
        OrderState::Awaiting => options.show_awaiting,
        OrderState::InStore => options.show_instore,
        OrderState::Done => options.show_done,
    })
}

/// The order passes the filter of texts: there is none, or the model or
/// description of the expedient or the title or description of the order
/// matches it.
pub open spec fn body_wanted(options: ListOrdersHookOptions, expedient: Expedient, order: usize)
    -> bool {
    match options.filter {
        Some(filter) => filter.body@.len() == 0 || (order < expedient.orders@.len() && (
        text_matches(filter.body@, expedient.model@) || text_matches(
            filter.body@,
            expedient.description@,
        ) || text_matches(filter.body@, expedient.orders@[order as int].title@) || text_matches(
            filter.body@,
            expedient.orders@[order as int].description@,
        ))),
        None => true,
    }
}

/// Whether a user who has been counted `count` times is as popular as
/// asked for: at least `popularity` times where that is positive, at most
/// `-popularity` times where it is negative.
pub open spec fn popular(popularity: i32, count: int) -> bool {
    if popularity > 0 {
        count >= popularity
    } else {
        count <= -popularity
    }
}

/// A count after one more sighting: the first sighting counts as two, each
/// further one as one more, as far as the count goes.
pub open spec fn bumped(count: int) -> int {
    if count == 0 {
        2
    } else if count < usize::MAX {
        count + 1
    } else {
        count
    }
}

/// How often the users have been counted.
#[derive(Debug)]
pub struct UserCounts {
    names: Vec<Vec<char>>,
    counts: Vec<usize>,
}

impl UserCounts {
    /// Every user is counted at one place.
    pub closed spec fn wf(&self) -> bool {
        &&& self.names@.len() == self.counts@.len()
        &&& forall|i: int, j: int|
            0 <= i < j < self.names@.len() ==> (#[trigger] self.names@[i])@ != (
            #[trigger] self.names@[j])@
    }

    /// The count of a user; 0 for a user who has not been counted.
    pub closed spec fn occurrences(&self, name: Seq<char>) -> int {
        if exists|i: int| 0 <= i < self.names@.len() && (#[trigger] self.names@[i])@ == name {
            self.counts@[choose|i: int|
                0 <= i < self.names@.len() && (#[trigger] self.names@[i])@ == name] as int
        } else {
            0
        }
    }

    /// No user has been counted.
    pub fn new() -> (counts: UserCounts)
        ensures
            counts.wf(),
            forall|name: Seq<char>| counts.occurrences(name) == 0,
    {
        UserCounts { names: Vec::new(), counts: Vec::new() }
    }

    fn place_of(&self, name: &Vec<char>) -> (place: Option<usize>)
        requires
            self.wf(),
        ensures
            match place {
                Some(i) => i < self.names@.len() && self.names@[i as int]@ == name@
                    && self.occurrences(name@) == self.counts@[i as int],
                None => (forall|i: int|
                    0 <= i < self.names@.len() ==> (#[trigger] self.names@[i])@ != name@)
                    && self.occurrences(name@) == 0,
            },
    {
        let mut i: usize = 0;
        while i < self.names.len()
            invariant
                i <= self.names.len(),
                self.wf(),
                forall|k: int| 0 <= k < i ==> (#[trigger] self.names@[k])@ != name@,
            decreases self.names.len() - i,
        {
            if same_chars(&self.names[i], name) {
                proof {
                    let w = choose|w: int|
                        0 <= w < self.names@.len() && (#[trigger] self.names@[w])@ == name@;
                    if w < i {
                        assert(self.names@[w]@ != self.names@[i as int]@);
                    } else if w > i {
                        assert(self.names@[i as int]@ != self.names@[w]@);
                    }
                }
                return Some(i);
            }
            i += 1;
        }
        None
    }

    /// The count of a user; 0 for a user who has not been counted.
    pub fn count_of(&self, name: &Vec<char>) -> (count: usize)
        requires
            self.wf(),
        ensures
            count == self.occurrences(name@),
    {
        match self.place_of(name) {
            Some(i) => self.counts[i],
            None => 0,
        }
    }

    /// Counts a user: the first time as two, each further time as one
    /// more, as far as the count goes.
    pub fn count(&mut self, name: Vec<char>)
        requires
            old(self).wf(),
        ensures
            final(self).wf(),
            final(self).occurrences(name@) == bumped(old(self).occurrences(name@)),
            forall|other: Seq<char>|
                other != name@ ==> final(self).occurrences(other) == old(self).occurrences(other),
    {
        let ghost before = *self;
        match self.place_of(&name) {
            Some(i) => {
                let seen = self.counts[i];
                let next = if seen == 0 {
                    2
                } else if seen < usize::MAX {
                    seen + 1
                } else {
                    seen
                };
                self.counts.set(i, next);
                proof {
                    self.lemma_occurrences(i as int);
                    assert forall|other: Seq<char>| other != name@ implies self.occurrences(other)
                        == before.occurrences(other) by {
                        if exists|k: int|
                            0 <= k < self.names@.len() && (#[trigger] self.names@[k])@ == other {
                            let k = choose|k: int|
                                0 <= k < self.names@.len() && (#[trigger] self.names@[k])@
                                    == other;
                            self.lemma_occurrences(k);
                            before.lemma_occurrences(k);
                        }
                    }
                }
            },
            None => {
                self.names.push(name);
                self.counts.push(2);
                proof {
                    let last = self.names@.len() - 1;
                    assert forall|i: int, j: int| 0 <= i < j < self.names@.len() implies (
                    #[trigger] self.names@[i])@ != (#[trigger] self.names@[j])@ by {
                        if j == last {
                            assert(self.names@[i] == before.names@[i]);
                        } else {
                            assert(self.names@[i] == before.names@[i]);
                            assert(self.names@[j] == before.names@[j]);
                        }
                    }
                    self.lemma_occurrences(last);
                    assert forall|other: Seq<char>| other != name@ implies self.occurrences(other)
                        == before.occurrences(other) by {
                        if exists|k: int|
                            0 <= k < self.names@.len() && (#[trigger] self.names@[k])@ == other {
                            let k = choose|k: int|
                                0 <= k < self.names@.len() && (#[trigger] self.names@[k])@
                                    == other;
                            assert(k < last);
                            assert(before.names@[k] == self.names@[k]);
                            self.lemma_occurrences(k);
                            before.lemma_occurrences(k);
                        } else {
                            if exists|k: int|
                                0 <= k < before.names@.len() && (#[trigger] before.names@[k])@
                                    == other {
                                let k = choose|k: int|
                                    0 <= k < before.names@.len() && (#[trigger] before.names@[k])@
                                        == other;
                                assert(self.names@[k] == before.names@[k]);
                            }
                        }
                    }
                }
            },
        }
    }

    proof fn lemma_occurrences(&self, at: int)
        requires
            self.wf(),
            0 <= at < self.names@.len(),
        ensures
            self.occurrences(self.names@[at]@) == self.counts@[at],
    {
        let name = self.names@[at]@;
        let w = choose|w: int| 0 <= w < self.names@.len() && (#[trigger] self.names@[w])@ == name;
        if w < at {
            assert(self.names@[w]@ != self.names@[at]@);
        } else if w > at {
            assert(self.names@[at]@ != self.names@[w]@);
        }
    }
}

/// The code of a vehicle without its separators.
pub fn code_text(text: &str) -> (code: String)
    ensures
        code@ == code_of(text@),
{
    string_of(&strip_char(&strip_char(&chars_of(text), '_'), ' '))
}

/// The name under which the expedients of a user are counted.
pub fn user_name(user: &str) -> (name: Vec<char>)
    ensures
        name@ == user_key(user@),
{
    let lower = to_lowercase(user);
    strip_char(&chars_of(lower.as_str()), ' ')
}

/// The date of the order, or the earliest date there is where the
/// expedient has no such order.
pub fn date_of_order(expedient: &Expedient, order: usize) -> (date: i64)
    ensures
        date == order_date(*expedient, order),
{
    if order < expedient.orders.len() {
        expedient.orders[order].date.date_hash()
    } else {
        i64::MIN
    }
}

/// The filter of vehicle codes as a rule on listed expedients.
pub open spec fn code_rule<'b>(options: ListOrdersHookOptions) -> spec_fn(
    (Uid, &'b Expedient),
) -> bool {
    |item: (Uid, &'b Expedient)| code_wanted(options, *item.1)
}

/// The filter of users as a rule on listed expedients.
pub open spec fn user_rule<'b>(options: ListOrdersHookOptions) -> spec_fn(
    (Uid, &'b Expedient),
) -> bool {
    |item: (Uid, &'b Expedient)| user_wanted(options, *item.1)
}

/// The choice of shown orders as a rule on listed orders.
pub open spec fn shown_rule<'b>(options: ListOrdersHookOptions) -> spec_fn(
    (Uid, usize, &'b Expedient),
) -> bool {
    |item: (Uid, usize, &'b Expedient)| order_shown(options, *item.2, item.1)
}

/// The filter of texts as a rule on listed orders.
pub open spec fn body_rule<'b>(options: ListOrdersHookOptions) -> spec_fn(
    (Uid, usize, &'b Expedient),
) -> bool {
    |item: (Uid, usize, &'b Expedient)| body_wanted(options, *item.2, item.1)
}

/// The order passes the filter of popularity: there is none, or the user
/// of its expedient is as popular as asked for.
pub open spec fn popularity_rule<'b>(options: ListOrdersHookOptions, counts: UserCounts) -> spec_fn(
    (Uid, usize, &'b Expedient),
) -> bool {
    |item: (Uid, usize, &'b Expedient)|
        match options.filter {
            Some(filter) => filter.popularity == 0 || popular(
                filter.popularity,
                counts.occurrences(user_key(item.2.user@)),
            ),
            None => true,
        }
}

/// The order in which the list is put: by falling date for the newest
/// first, by rising date for the oldest first.
pub open spec fn date_order<'b>(sort_by: ListOrdersHookOptionsSortBy) -> spec_fn(
    (Uid, usize, &'b Expedient),
    (Uid, usize, &'b Expedient),
) -> bool {
    |a: (Uid, usize, &'b Expedient), b: (Uid, usize, &'b Expedient)|
        match sort_by {
            ListOrdersHookOptionsSortBy::Newest => order_date(*a.2, a.1) > order_date(*b.2, b.1),
            ListOrdersHookOptionsSortBy::Oldest => order_date(*a.2, a.1) < order_date(*b.2, b.1),
        }
}

/// The first `count` orders of an expedient.
pub open spec fn orders_upto<'b>(item: (Uid, &'b Expedient), count: int) -> Seq<
    (Uid, usize, &'b Expedient),
> {
    Seq::new(count as nat, |i: int| (item.0, i as usize, item.1))
}

/// All orders of some expedients, expedient after expedient.
pub open spec fn orders_of<'b>(list: Seq<(Uid, &'b Expedient)>) -> Seq<(Uid, usize, &'b Expedient)>
    decreases list.len(),
{
    if list.len() == 0 {
        Seq::empty()
    } else {
        orders_of(list.drop_last()) + orders_upto(
            list.last(),
            list.last().1.orders@.len() as int,
        )
    }
}

/// A list cut to a length.
pub open spec fn cut<T>(list: Seq<T>, length: usize) -> Seq<T> {
    if length < list.len() {
        list.take(length as int)
    } else {
        list
    }
}

/// The list of orders that a query asks for: the orders of the expedients
/// that pass the filters of codes and users, as far as they are shown and
/// pass the filter of texts; with the list `concat` behind them; of these
/// the ones that pass the filter of popularity, put in order by date and
/// cut to the length asked for.
pub open spec fn orders_listing<'b>(
    options: ListOrdersHookOptions,
    expedients: Seq<(Uid, &'b Expedient)>,
    concat: Seq<(Uid, usize, &'b Expedient)>,
    counts: UserCounts,
) -> Seq<(Uid, usize, &'b Expedient)> {
    let chosen = kept_if(kept_if(expedients, code_rule(options)), user_rule(options));
    let found = kept_if(kept_if(orders_of(chosen), shown_rule(options)), body_rule(options));
    let popular = kept_if(found + concat, popularity_rule(options, counts));
    cut(arranged(popular, date_order(options.sort_by)), options.max_list_len)
}

fn expand<'b>(list: &Vec<(Uid, &'b Expedient)>) -> (orders: Vec<(Uid, usize, &'b Expedient)>)
    ensures
        orders@ == orders_of(list@),
{
    let mut orders: Vec<(Uid, usize, &'b Expedient)> = Vec::new();
    let mut i: usize = 0;
    while i < list.len()
        invariant
            i <= list.len(),
            orders@ == orders_of(list@.take(i as int)),
        decreases list.len() - i,
    {
        let item = list[i];
        let ghost done = orders@;
        let count = item.1.orders.len();
        let mut k: usize = 0;
        proof {
            assert(done + orders_upto(item, 0) =~= done);
        }
        while k < count
            invariant
                k <= count,
                count == item.1.orders@.len(),
                orders@ == done + orders_upto(item, k as int),
            decreases count - k,
        {
            orders.push((item.0, k, item.1));
            proof {
                assert(done + orders_upto(item, k + 1) =~= (done + orders_upto(item, k as int)).push(
                    (item.0, k, item.1),
                ));
            }
            k += 1;
        }
        proof {
            assert(list@.take(i + 1).drop_last() =~= list@.take(i as int));
            assert(list@.take(i + 1).last() == item);
        }
        i += 1;
    }
    proof {
        assert(list@.take(list@.len() as int) =~= list@);
    }
    orders
}

/// The checkpoint lets the work go on at every step before `step`.
pub open spec fn passes_before<F: Fn(usize) -> Option<()>>(checkpoint: F, step: usize) -> bool {
    forall|k: usize| k < step ==> #[trigger] call_ensures(checkpoint, (k,), Some(()))
}

/// The checkpoint stops the work at `step`, and not before.
pub open spec fn stops_at<F: Fn(usize) -> Option<()>>(checkpoint: F, step: usize) -> bool {
    call_ensures(checkpoint, (step,), None::<()>) && passes_before(checkpoint, step)
}

/// Where a checkpoint stops the work at `first` and at no step before,
/// whatever it is asked there, `first` is the only step at which a run can
/// be stopped, and no run gets past it.
pub proof fn lemma_first_stop<F: Fn(usize) -> Option<()>>(checkpoint: F, first: usize)
    requires
        forall|go_on: Option<()>| call_ensures(checkpoint, (first,), go_on) ==> go_on.is_none(),
        forall|k: usize, go_on: Option<()>|
            k < first && call_ensures(checkpoint, (k,), go_on) ==> go_on.is_some(),
    ensures
        forall|step: usize| #[trigger] stops_at(checkpoint, step) ==> step == first,
        forall|steps: usize| first < steps ==> !#[trigger] passes_before(checkpoint, steps),
{
    assert forall|step: usize| #[trigger] stops_at(checkpoint, step) implies step == first by {
        if step > first {
            assert(call_ensures(checkpoint, (first,), Some(())));
        }
    }
    assert forall|steps: usize| first < steps implies !#[trigger] passes_before(
        checkpoint,
        steps,
    ) by {
        if passes_before(checkpoint, steps) {
            assert(call_ensures(checkpoint, (first,), Some(())));
        }
    }
}

/// Asks the checkpoint at a step of the work.
pub(crate) fn pass<F: Fn(usize) -> Option<()>>(checkpoint: &F, step: usize) -> (go_on: Option<()>)
    requires
        call_requires(*checkpoint, (step,)),
        passes_before(*checkpoint, step),
        step < usize::MAX,
    ensures
        match go_on {
            Some(_) => passes_before(*checkpoint, (step + 1) as usize),
            None => stops_at(*checkpoint, step),
        },
{
    let go_on = checkpoint(step);
    proof {
        if go_on.is_some() {
            assert(go_on == Some(()));
            assert forall|k: usize| k < step + 1 implies #[trigger] call_ensures(
                *checkpoint,
                (k,),
                Some(()),
            ) by {
                if k < step {
                } else {
                    assert(k == step);
                }
            }
        }
    }
    go_on
}

/// Each answer that `inner` gives at one of its first `steps` steps is an
/// answer that `outer` gives `shift` steps later.
pub open spec fn asks_later<F: Fn(usize) -> Option<()>, G: Fn(usize) -> Option<()>>(
    inner: F,
    outer: G,
    shift: usize,
    steps: usize,
) -> bool {
    forall|k: usize, go_on: Option<()>|
        k < steps && #[trigger] call_ensures(inner, (k,), go_on) ==> call_ensures(
            outer,
            ((k + shift) as usize,),
            go_on,
        )
}

/// Where `inner` asks `outer` at later steps, and `outer` has let the work
/// go on up to there, what `inner` has let pass or stopped, `outer` has
/// let pass or stopped at the later step.
pub(crate) proof fn lemma_asks_later<F: Fn(usize) -> Option<()>, G: Fn(usize) -> Option<()>>(
    inner: F,
    outer: G,
    shift: usize,
    steps: usize,
    step: usize,
)
    requires
        asks_later(inner, outer, shift, steps),
        passes_before(outer, shift),
        step <= steps,
        shift + steps <= usize::MAX,
    ensures
        passes_before(inner, step) ==> passes_before(outer, (step + shift) as usize),
        step < steps && stops_at(inner, step) ==> stops_at(outer, (step + shift) as usize),
{
    if passes_before(inner, step) {
        assert forall|j: usize| j < step + shift implies #[trigger] call_ensures(
            outer,
            (j,),
            Some(()),
        ) by {
            if j >= shift {
                let k = (j - shift) as usize;
                assert(call_ensures(inner, (k,), Some(())));
                assert((k + shift) as usize == j);
            }
        }
    }
}

/// The number of checkpoints of a query for orders: on entry, and after
/// each of its steps.
pub const ORDERS_CHECKPOINTS: usize = 9;

/// The first checkpoint of a query for orders at which the list handed in
/// has been taken over.
pub const ORDERS_TAKEN_OVER: usize = 5;

/// Lists the orders that a query asks for (see [`orders_listing`]), asking
/// `checkpoint` on entry and after each step whether to go on. The list
/// `concat_with` is taken over into the result.
///
/// Where every checkpoint lets the work go on, the result is the list.
/// Where one stops it, the result is `None`; the list handed in is then as
/// it was if the work was stopped before it was taken over, and empty
/// else.
pub fn list_orders_with<'b, F: Fn(usize) -> Option<()>>(
    options: &ListOrdersHookOptions,
    expedients: &Vec<(Uid, &'b Expedient)>,
    concat_with: &mut Vec<(Uid, usize, &'b Expedient)>,
    checkpoint: F,
    user_occurrences: &UserCounts,
) -> (list: Option<Vec<(Uid, usize, &'b Expedient)>>)
    requires
        user_occurrences.wf(),
        forall|step: usize| call_requires(checkpoint, (step,)),
    ensures
        match list {
            Some(orders) => orders@ == orders_listing(
                *options,
                expedients@,
                old(concat_with)@,
                *user_occurrences,
            ) && final(concat_with)@.len() == 0 && passes_before(checkpoint, ORDERS_CHECKPOINTS),
            None => exists|step: usize|
                step < ORDERS_CHECKPOINTS && #[trigger] stops_at(checkpoint, step)
                    && final(concat_with)@ == (if step < ORDERS_TAKEN_OVER {
                    old(concat_with)@
                } else {
                    Seq::empty()
                }),
        },
{
    pass(&checkpoint, 0)?;

    let code_filter = match &options.filter {
        Some(filter) => if filter.car_code.as_str().is_empty() {
            None
        } else {
            Some(Filter::new(code_text(filter.car_code.as_str()).as_str()))
        },
        None => None,
    };
    let keep_code = |item: &(Uid, &'b Expedient)| -> (keep: bool)
        ensures
            keep == code_wanted(*options, *item.1),
        {
            match &code_filter {
                Some(filter) => {
                    let plate = code_text(item.1.license_plate.as_str());
                    let vin = code_text(item.1.vin.as_str());
                    filter.test(plate.as_str()) > 0 || filter.test(vin.as_str()) > 0
                },
                None => true,
            }
        };
    let by_code = keep_if(expedients, keep_code, Ghost(code_rule(*options)));

    pass(&checkpoint, 1)?;

    let user_filter = match &options.filter {
        Some(filter) => if filter.user.as_str().is_empty() {
            None
        } else {
            Some(Filter::new(filter.user.as_str()))
        },
        None => None,
    };
    let keep_user = |item: &(Uid, &'b Expedient)| -> (keep: bool)
        ensures
            keep == user_wanted(*options, *item.1),
        {
            match &user_filter {
                Some(filter) => filter.test(item.1.user.as_str()) > 0,
                None => true,
            }
        };
    let by_user = keep_if(&by_code, keep_user, Ghost(user_rule(*options)));

    pass(&checkpoint, 2)?;

    let all_orders = expand(&by_user);
    let keep_shown = |item: &(Uid, usize, &'b Expedient)| -> (keep: bool)
        ensures
            keep == order_shown(*options, *item.2, item.1),
        {
            if item.1 < item.2.orders.len() {
                let order = &item.2.orders[item.1];
                order.date.date_hash() <= options.from_date.date_hash() && match order.state {
                    OrderState::Urgent => options.show_urgent,
                    OrderState::Todo => options.show_todo,
                    OrderState::Awaiting => options.show_awaiting,
                    OrderState::InStore => options.show_instore,
                    OrderState::Done => options.show_done,
                }
            } else {
                false
            }
        };
    let shown = keep_if(&all_orders, keep_shown, Ghost(shown_rule(*options)));

    pass(&checkpoint, 3)?;

    let body_filter = match &options.filter {
        Some(filter) => if filter.body.as_str().is_empty() {
            None
        } else {
            Some(Filter::new(filter.body.as_str()))
        },
        None => None,
    };
    let keep_body = |item: &(Uid, usize, &'b Expedient)| -> (keep: bool)
        ensures
            keep == body_wanted(*options, *item.2, item.1),
        {
            match &body_filter {
                Some(filter) => {
                    if item.1 < item.2.orders.len() {
                        let order = &item.2.orders[item.1];
                        filter.test(item.2.model.as_str()) > 0 || filter.test(
                            item.2.description.as_str(),
                        ) > 0 || filter.test(order.title.as_str()) > 0 || filter.test(
                            order.description.as_str(),
                        ) > 0
                    } else {
                        false
                    }
                },
                None => true,
            }
        };
    let mut list_orders = keep_if(&shown, keep_body, Ghost(body_rule(*options)));

    pass(&checkpoint, 4)?;

    list_orders.append(concat_with);
    pass(&checkpoint, 5)?;

    let popularity: i32 = match &options.filter {
        Some(filter) => filter.popularity,
        None => 0,
    };
    let keep_popular = |item: &(Uid, usize, &'b Expedient)| -> (keep: bool)
        ensures
            keep == popularity_rule(*options, *user_occurrences)(*item),
        {
            if popularity == 0 {
                true
            } else {
                let username = user_name(item.2.user.as_str());
                let occurrances = user_occurrences.count_of(&username);
                if popularity > 0 {
                    occurrances >= popularity as usize
                } else if popularity == i32::MIN {
                    occurrances <= 2147483648usize
                } else {
                    occurrances <= (-popularity) as usize
                }
            }
        };
    let list_orders = keep_if(
        &list_orders,
        keep_popular,
        Ghost(popularity_rule(*options, *user_occurrences)),
    );

    pass(&checkpoint, 6)?;

    let newest = match options.sort_by {
        ListOrdersHookOptionsSortBy::Newest => true,
        ListOrdersHookOptionsSortBy::Oldest => false,
    };
    let by_date = |a: &(Uid, usize, &'b Expedient), b: &(Uid, usize, &'b Expedient)| -> (first:
        bool)
        ensures
            first == date_order(options.sort_by)(*a, *b),
        {
            if newest {
                date_of_order(a.2, a.1) > date_of_order(b.2, b.1)
            } else {
                date_of_order(a.2, a.1) < date_of_order(b.2, b.1)
            }
        };
    let mut list_orders = arrange(&list_orders, by_date, Ghost(date_order(options.sort_by)));

    pass(&checkpoint, 7)?;

    list_orders.truncate(options.max_list_len);

    pass(&checkpoint, 8)?;

    Some(list_orders)
}

/// Lists the orders that a query asks for (see [`orders_listing`]). The
/// list `concat_with` is taken over into the result.
///
/// The work stops at a checkpoint once `process` has been asked to stop
/// (see [`list_orders_with`]); the result is `None` then, and
/// `concat_with` is as it was or has been emptied. A process that nobody
/// can ask to stop always gets its list.
pub fn list_orders<'b>(
    options: &ListOrdersHookOptions,
    expedients: &Vec<(Uid, &'b Expedient)>,
    concat_with: &mut Vec<(Uid, usize, &'b Expedient)>,
    process: &AsyncCallbackProcess,
    user_occurrences: &UserCounts,
) -> (list: Option<Vec<(Uid, usize, &'b Expedient)>>)
    requires
        user_occurrences.wf(),
    ensures
        match list {
            Some(orders) => orders@ == orders_listing(
                *options,
                expedients@,
                old(concat_with)@,
                *user_occurrences,
            ) && final(concat_with)@.len() == 0,
            None => process.can_be_stopped() && (final(concat_with)@ == old(concat_with)@
                || final(concat_with)@.len() == 0),
        },
{
    let checkpoint = |step: usize| -> (go_on: Option<()>)
        ensures
            !process.can_be_stopped() ==> go_on.is_some(),
        { process.terminate_if_requested() };
    list_orders_with(options, expedients, concat_with, checkpoint, user_occurrences)
}

/// The count of a user after the expedients of a list have been counted.
pub open spec fn tally<'b>(list: Seq<(Uid, &'b Expedient)>, name: Seq<char>) -> int
    decreases list.len(),
{
    if list.len() == 0 {
        0
    } else {
        let before = tally(list.drop_last(), name);
        if user_key(list.last().1.user@) == name {
            bumped(before)
        } else {
            before
        }
    }
}

/// Counts the users of some expedients on top of what has been counted.
pub(crate) fn count_users<'b>(counts: &mut UserCounts, list: &Vec<(Uid, &'b Expedient)>, Ghost(done): Ghost<
    Seq<(Uid, &'b Expedient)>,
>)
    requires
        old(counts).wf(),
        forall|name: Seq<char>| old(counts).occurrences(name) == tally(done, name),
    ensures
        final(counts).wf(),
        forall|name: Seq<char>| final(counts).occurrences(name) == tally(done + list@, name),
{
    let mut i: usize = 0;
    proof {
        assert(done + list@.take(0) =~= done);
    }
    while i < list.len()
        invariant
            i <= list.len(),
            counts.wf(),
            forall|name: Seq<char>|
                counts.occurrences(name) == tally(done + list@.take(i as int), name),
        decreases list.len() - i,
    {
        let ghost before = *counts;
        let name = user_name(list[i].1.user.as_str());
        proof {
            let longer = done + list@.take(i + 1);
            assert(longer.drop_last() =~= done + list@.take(i as int));
            assert(longer.last() == list@[i as int]);
        }
        counts.count(name);
        i += 1;
    }
    proof {
        assert(list@.take(list@.len() as int) =~= list@);
    }
}

/// What a query for orders has done when it has run to its end: it has
/// counted the users where popularity is asked for, it has called back
/// with the list of the dynamic part, and then with the list of both
/// parts.
pub open spec fn orders_query_ran<'b, F: Fn(&Vec<(Uid, usize, &'b Expedient)>)>(
    options: ListOrdersHookOptions,
    dynamic: Seq<(Uid, &'b Expedient)>,
    ancient: Seq<(Uid, &'b Expedient)>,
    callback: F,
    counts: UserCounts,
    first: Vec<(Uid, usize, &'b Expedient)>,
    full: Vec<(Uid, usize, &'b Expedient)>,
) -> bool {
    &&& counts.wf()
    &&& forall|name: Seq<char>| #[trigger]
        counts.occurrences(name) == (if options.filter matches Some(filter) && filter.popularity
            != 0 {
            tally(dynamic + ancient, name)
        } else {
            0
        })
    &&& first@ == orders_listing(options, dynamic, Seq::empty(), counts)
    &&& call_ensures(callback, (&first,), ())
    &&& full@ == orders_listing(options, ancient, first@, counts)
    &&& call_ensures(callback, (&full,), ())
}

/// What a query for orders has done when it has called back for the
/// first time: it has counted the users where popularity is asked for, and
/// it has called back with the list of the dynamic part.
pub open spec fn orders_query_began<'b, F: Fn(&Vec<(Uid, usize, &'b Expedient)>)>(
    options: ListOrdersHookOptions,
    dynamic: Seq<(Uid, &'b Expedient)>,
    ancient: Seq<(Uid, &'b Expedient)>,
    callback: F,
    counts: UserCounts,
    first: Vec<(Uid, usize, &'b Expedient)>,
) -> bool {
    &&& counts.wf()
    &&& forall|name: Seq<char>| #[trigger]
        counts.occurrences(name) == (if options.filter matches Some(filter) && filter.popularity
            != 0 {
            tally(dynamic + ancient, name)
        } else {
            0
        })
    &&& first@ == orders_listing(options, dynamic, Seq::empty(), counts)
    &&& call_ensures(callback, (&first,), ())
}

/// The number of checkpoints of a query for orders over two parts: one
/// after the users have been counted, and those of the two lists.
pub const ORDERS_QUERY_CHECKPOINTS: usize = 19;

/// The first checkpoint of a query for orders over two parts that comes
/// after the first call back.
pub const ORDERS_QUERY_BEGUN: usize = 10;

/// Runs a query for orders over the two parts of a collection, asking
/// `checkpoint` whether to go on: once the users have been counted, and
/// at each checkpoint of the two lists (see [`list_orders_with`]). The list
/// of the dynamic part is called back first, the list of both parts
/// second.
///
/// Where every checkpoint lets the work go on, both lists have been called
/// back. Where one stops it, the result is `None`, and the first list has
/// been called back if the work was stopped after it.
pub fn list_orders_query_with<
    'b,
    F: Fn(&Vec<(Uid, usize, &'b Expedient)>),
    C: Fn(usize) -> Option<()>,
>(
    options: &ListOrdersHookOptions,
    dynamic: &Vec<(Uid, &'b Expedient)>,
    ancient: &Vec<(Uid, &'b Expedient)>,
    checkpoint: C,
    callback: F,
) -> (done: Option<()>)
    requires
        forall|list: &Vec<(Uid, usize, &'b Expedient)>| call_requires(callback, (list,)),
        forall|step: usize| call_requires(checkpoint, (step,)),
    ensures
        match done {
            Some(_) => passes_before(checkpoint, ORDERS_QUERY_CHECKPOINTS) && exists|
                counts: UserCounts,
                first: Vec<(Uid, usize, &'b Expedient)>,
                full: Vec<(Uid, usize, &'b Expedient)>,
            | orders_query_ran(*options, dynamic@, ancient@, callback, counts, first, full),
            None => exists|step: usize|
                step < ORDERS_QUERY_CHECKPOINTS && #[trigger] stops_at(checkpoint, step) && (step
                    >= ORDERS_QUERY_BEGUN ==> exists|
                    counts: UserCounts,
                    first: Vec<(Uid, usize, &'b Expedient)>,
                | orders_query_began(*options, dynamic@, ancient@, callback, counts, first)),
        },
{
    let mut user_occurrences = UserCounts::new();
    let counted = match &options.filter {
        Some(filter) => filter.popularity != 0,
        None => false,
    };
    if counted {
        proof {
            assert(Seq::<(Uid, &'b Expedient)>::empty() + dynamic@ =~= dynamic@);
        }
        count_users(&mut user_occurrences, dynamic, Ghost(Seq::empty()));
        count_users(&mut user_occurrences, ancient, Ghost(dynamic@));
    }
    pass(&checkpoint, 0)?;

    let mut nothing: Vec<(Uid, usize, &'b Expedient)> = Vec::new();
    let ask = &checkpoint;
    let first_list = |step: usize| -> (go_on: Option<()>)
        ensures
            step < ORDERS_CHECKPOINTS ==> call_ensures(*ask, ((step + 1) as usize,), go_on),
        {
            if step < ORDERS_CHECKPOINTS {
                ask(step + 1)
            } else {
                Some(())
            }
        };
    let listed = list_orders_with(options, dynamic, &mut nothing, first_list, &user_occurrences);
    proof {
        assert(asks_later(first_list, checkpoint, 1, ORDERS_CHECKPOINTS));
        if listed.is_none() {
            let step = choose|step: usize|
                step < ORDERS_CHECKPOINTS && #[trigger] stops_at(first_list, step);
            lemma_asks_later(first_list, checkpoint, 1, ORDERS_CHECKPOINTS, step);
            assert(stops_at(checkpoint, (step + 1) as usize));
        } else {
            lemma_asks_later(first_list, checkpoint, 1, ORDERS_CHECKPOINTS, ORDERS_CHECKPOINTS);
        }
    }
    let mut dynamic_list = listed?;
    callback(&dynamic_list);
    let ghost first = dynamic_list;
    proof {
        assert(orders_query_began(
            *options,
            dynamic@,
            ancient@,
            callback,
            user_occurrences,
            first,
        ));
    }

    let second_list = |step: usize| -> (go_on: Option<()>)
        ensures
            step < ORDERS_CHECKPOINTS ==> call_ensures(*ask, ((step + 10) as usize,), go_on),
        {
            if step < ORDERS_CHECKPOINTS {
                ask(step + 10)
            } else {
                Some(())
            }
        };
    let listed = list_orders_with(
        options,
        ancient,
        &mut dynamic_list,
        second_list,
        &user_occurrences,
    );
    proof {
        assert(asks_later(second_list, checkpoint, 10, ORDERS_CHECKPOINTS));
        if listed.is_none() {
            let step = choose|step: usize|
                step < ORDERS_CHECKPOINTS && #[trigger] stops_at(second_list, step);
            lemma_asks_later(second_list, checkpoint, 10, ORDERS_CHECKPOINTS, step);
            assert(stops_at(checkpoint, (step + 10) as usize));
        } else {
            lemma_asks_later(second_list, checkpoint, 10, ORDERS_CHECKPOINTS, ORDERS_CHECKPOINTS);
        }
    }
    let full_list = listed?;
    callback(&full_list);
    proof {
        assert(orders_query_ran(
            *options,
            dynamic@,
            ancient@,
            callback,
            user_occurrences,
            first,
            full_list,
        ));
    }
    Some(())
}

/// Runs a query for orders over the two parts of a collection. The list
/// of the dynamic part is called back first, the list of both parts
/// second. `None` where the query has been asked to stop on the way (see
/// [`list_orders_query_with`]), which cannot happen to a process that
/// nobody can ask to stop.
pub fn list_orders_query<'b, F: Fn(&Vec<(Uid, usize, &'b Expedient)>)>(
    options: &ListOrdersHookOptions,
    dynamic: &Vec<(Uid, &'b Expedient)>,
    ancient: &Vec<(Uid, &'b Expedient)>,
    process: &AsyncCallbackProcess,
    callback: F,
) -> (done: Option<()>)
    requires
        forall|list: &Vec<(Uid, usize, &'b Expedient)>| call_requires(callback, (list,)),
    ensures
        done is Some ==> exists|
            counts: UserCounts,
            first: Vec<(Uid, usize, &'b Expedient)>,
            full: Vec<(Uid, usize, &'b Expedient)>,
        | orders_query_ran(*options, dynamic@, ancient@, callback, counts, first, full),
        done is None ==> process.can_be_stopped(),
{
    let checkpoint = |step: usize| -> (go_on: Option<()>)
        ensures
            !process.can_be_stopped() ==> go_on.is_some(),
        { process.terminate_if_requested() };
    list_orders_query_with(options, dynamic, ancient, checkpoint, callback)
}

/// Runs a query for one expedient: calls back with the expedient that the
/// handle names, or with `None` where it names none.
pub fn expedient_query<'b, F: Fn(Option<&'b Expedient>)>(
    database: &'b crate::chunked::ChunkedDatabase<Expedient>,
    expedient_id: Uid,
    callback: F,
)
    requires
        forall|found: Option<&'b Expedient>| call_requires(callback, (found,)),
    ensures
        exists|found: Option<&'b Expedient>|
            #[trigger] call_ensures(callback, (found,), ()) && (match found {
                Some(expedient) => database.get(expedient_id) == Some(*expedient),
                None => database.get(expedient_id).is_none(),
            }),
{
    let expedient = database.read(expedient_id);
    callback(expedient);
}

} // verus!

use archive_core::chunked::{ChunkedDatabase, Item, Uid};
use archive_core::date::UtcDate;
use archive_core::expedient::{eq_ignore_whitespace_case, Expedient, Order, OrderState};
use archive_core::filter::Filter;
use archive_core::hooks::{
    code_text, expedient_query, list_orders, list_orders_query, list_orders_query_with,
    list_orders_with, user_name, HookId, ListOrdersHookFilter, ListOrdersHookOptions,
    ListOrdersHookOptionsSortBy, UserCounts, ORDERS_CHECKPOINTS, ORDERS_QUERY_BEGUN,
    ORDERS_QUERY_CHECKPOINTS, ORDERS_TAKEN_OVER,
};
use archive_core::id_map::{Id, IdMap};
use archive_core::observable::{Callback, Observable};
use archive_core::observable::AsyncCallbackProcess;
use archive_core::restore::{
    archive_date, archive_expedient, compress_date_hash, format_license_plate, format_user,
    titlecase,
};
use archive_core::statistics::done_commands_count_vs_days;
use archive_core::suggestions::{
    hook_list_license_plates, hook_list_models, hook_list_order_titles, hook_list_users,
    hook_list_vins, list_filter, list_filter_query, list_filter_query_with, list_filter_with,
    ListField, TEXTS_CHECKPOINTS, TEXTS_QUERY_BEGUN, TEXTS_QUERY_CHECKPOINTS, TEXTS_TAKEN_OVER,
};
use std::cell::RefCell;
use std::rc::Rc;
use std::sync::atomic::{AtomicBool, Ordering};
use std::sync::Arc;

fn order(date: UtcDate, title: &str, description: &str, state: OrderState) -> Order {
    Order {
        date,
        title: title.into(),
        description: description.into(),
        state,
    }
}

fn expedient(user: &str, model: &str, plate: &str, vin: &str, orders: Vec<Order>) -> Expedient {
    Expedient {
        user: user.into(),
        model: model.into(),
        license_plate: plate.into(),
        vin: vin.into(),
        description: "".into(),
        orders,
        date: UtcDate::ymdh(2010, 1, 3, 23),
    }
}

fn running() -> AsyncCallbackProcess {
    AsyncCallbackProcess::new(Arc::new(AtomicBool::new(false)))
}

fn stopped() -> AsyncCallbackProcess {
    AsyncCallbackProcess::new(Arc::new(AtomicBool::new(true)))
}

fn options(filter: Option<ListOrdersHookFilter>) -> ListOrdersHookOptions {
    ListOrdersHookOptions {
        filter,
        sort_by: ListOrdersHookOptionsSortBy::Newest,
        max_list_len: 10,
        from_date: UtcDate::ymdh(2030, 1, 1, 0),
        show_urgent: true,
        show_todo: true,
        show_awaiting: true,
        show_instore: true,
        show_done: true,
    }
}

fn filter_of(car_code: &str, user: &str, body: &str, popularity: i32) -> ListOrdersHookFilter {
    ListOrdersHookFilter {
        car_code: car_code.into(),
        user: user.into(),
        body: body.into(),
        popularity,
    }
}

fn garage() -> Vec<Expedient> {
    vec![
        expedient(
            "Pepa Pera",
            "Audi A3",
            "1234 ABC",
            "2HGES16503H591599",
            vec![
                order(UtcDate::ymdh(2022, 10, 2, 0), "Pastilles Fre", "XL", OrderState::Done),
                order(UtcDate::ymdh(2022, 10, 5, 0), "Oli", "5W30", OrderState::Todo),
            ],
        ),
        expedient(
            "Mario Bro",
            "Seat Ibiza",
            "5678_DEF",
            "1RGEF16503R521594",
            vec![order(UtcDate::ymdh(2022, 10, 3, 0), "Frena Ara", "", OrderState::Urgent)],
        ),
        expedient("pepa pera", "Bmw", "9999 ZZZ", "", vec![]),
        expedient(
            "Juan",
            "Seat Leon",
            "0001 AAA",
            "",
            vec![order(UtcDate::ymdh(2022, 10, 4, 0), "Fre", "Me aburro", OrderState::Done)],
        ),
    ]
}

fn dynamic_ids(list: &[Expedient]) -> Vec<(Uid, &Expedient)> {
    list.iter()
        .enumerate()
        .map(|(i, e)| (Uid::DYNAMIC(Id { index: i, identifier: i + 1 }), e))
        .collect()
}

fn titles(list: &[(Uid, usize, &Expedient)]) -> Vec<String> {
    list.iter().map(|(_, i, e)| e.orders[*i].title.clone()).collect()
}

#[test]
fn filter() {
    let filter = Filter::new("a B");
    assert!(0 == filter.test("A"));
    assert!(0 == filter.test("B"));
    assert!(0 == filter.test("C"));
    assert!(1 < filter.test("A B"));
    assert!(0 < filter.test("B A C"));

    let filter = Filter::new("A_B");
    assert!(0 == filter.test("A"));
    assert!(0 == filter.test("B"));
    assert!(0 == filter.test("C"));
    // the keyword `a b` stands in the text, and is no word of it
    assert!(1 == filter.test("A B"));
    assert!(0 == filter.test("B A C"));
}

#[test]
fn filter_scores() {
    let filter = Filter::new("a B");
    // both keywords are words of the text, at their places: 1 + 3 + 3
    assert_eq!(7, filter.test("A B"));
    // both stand in the text, none at its place
    assert_eq!(1, filter.test("B A C"));
    // the first word begins with the first keyword: 1 + 1
    assert_eq!(2, filter.test("Ab xb"));
    assert_eq!(5, filter.test("a bc"));
    assert_eq!(0, filter.test(""));
    // a filter without keywords matches every text
    assert_eq!(1, Filter::new("  ").test("anything"));
    assert_eq!(1, Filter::new("").test(""));
    // `_` in a text counts as a space
    assert_eq!(7, filter.test("a_b"));
    // only the first sixteen words of a text are scored
    let long = Filter::new("x x x x x x x x x x x x x x x x x x");
    assert_eq!(1 + 16 * 3, long.test("x x x x x x x x x x x x x x x x x x"));
}

#[test]
fn texts_are_compared_without_white_space_and_case() {
    assert!(eq_ignore_whitespace_case("", ""));
    assert!(eq_ignore_whitespace_case(" a B\tc\n", "AbC"));
    assert!(eq_ignore_whitespace_case("Pastilles de fre", "pastillesDEfre"));
    assert!(!eq_ignore_whitespace_case("abc", "abd"));
    assert!(!eq_ignore_whitespace_case("abc", "ab"));
    // only ASCII letters lose their case
    assert!(!eq_ignore_whitespace_case("É", "é"));
    let a = expedient("Pepa", "Audi", "1234 ABC", "", vec![]);
    let mut b = expedient(" pepa ", "AUDI", "1234ABC", "", vec![]);
    assert_eq!(a, b);
    b.date = UtcDate::ymdh(2010, 1, 3, 22);
    assert_ne!(a, b);
    let with_order = expedient(
        "Pepa",
        "Audi",
        "1234 ABC",
        "",
        vec![order(UtcDate::ymdh(2022, 1, 1, 0), "T", "", OrderState::Done)],
    );
    assert_ne!(a, with_order);
    let other_state = expedient(
        "Pepa",
        "Audi",
        "1234 ABC",
        "",
        vec![order(UtcDate::ymdh(2022, 1, 1, 0), "t ", "", OrderState::Todo)],
    );
    assert_ne!(with_order, other_state);
}

#[test]
fn date_hash() {
    let date_a = UtcDate::ymdh(2021, 12, 23, 9);
    let date_b = UtcDate::ymdh(2021, 12, 23, 9);

    let expedient = Expedient {
        description: "".into(),
        license_plate: "".into(),
        model: "".into(),
        orders: vec![
            order(date_a, ":)", "", OrderState::Urgent),
            order(date_b, "", "few ew fgwegfwe", OrderState::Done),
        ],
        user: "".into(),
        vin: "".into(),
        date: UtcDate::ymdh(2010, 1, 3, 23),
    };

    assert_eq!(date_a.date_hash(), expedient.date());
    let no_orders = Expedient { orders: vec![], ..expedient.clone() };
    assert_eq!(UtcDate::ymdh(2010, 1, 3, 23), no_orders.newest_date());
    let older_order = Expedient {
        orders: vec![order(UtcDate::ymdh(2001, 1, 1, 0), "", "", OrderState::Done)],
        ..expedient.clone()
    };
    assert_eq!(UtcDate::ymdh(2001, 1, 1, 0), older_order.newest_date());
}

#[test]
fn sort_expedients() {
    let make = |orders: Vec<Order>| Expedient {
        description: "any stuff".into(),
        license_plate: "very".into(),
        model: "any stuff".into(),
        orders,
        user: "".into(),
        vin: "2HGES16503H591599".into(),
        date: UtcDate::ymdh(2010, 1, 3, 23),
    };
    let sorted_expedients = vec![
        make(vec![
            order(UtcDate::ymdh(2022, 10, 2, 0), "Placa", "Pastilles de fre XL\n\n34€ en Sasr", OrderState::Done),
            order(UtcDate::ymdh(2022, 10, 2, 10), "Coses Rares", "Pastilles de fre XL\n\n34€ en Sasr", OrderState::Done),
        ]),
        make(vec![order(
            UtcDate::ymdh(2022, 10, 2, 0),
            "Ell",
            "Pastilles de fre XL\n\n34€ en Sasr",
            OrderState::Done,
        )]),
        make(vec![]),
    ];
    let mut unsorted_expedients = vec![
        sorted_expedients[1].clone(),
        sorted_expedients[2].clone(),
        sorted_expedients[0].clone(),
    ];

    unsorted_expedients.sort_unstable_by_key(|e| -e.date());

    assert_eq!(sorted_expedients, unsorted_expedients,);
}

#[test]
fn ymd_hash_date_difference() {
    let date_a = UtcDate::ymdh(2010, 3, 4, 0).date_hash();
    let date_b = UtcDate::ymdh(2010, 3, 14, 20).date_hash();
    let date_c = UtcDate::ymdh(2011, 11, 24, 3).date_hash();
    let date_d = UtcDate::ymdh(2056, 2, 3, 23).date_hash();

    assert!(date_a < date_b);
    assert!(date_b < date_c);
    assert!(date_c < date_d);
    assert_eq!(0, UtcDate::ymdh(1970, 1, 1, 0).date_hash());
    assert_eq!(3_600_000, UtcDate::ymdh(1970, 1, 1, 1).date_hash());
    assert_eq!(date_b, UtcDate::from_hash(date_b).date_hash());
}

#[test]
fn days_of_dates() {
    let date_a = UtcDate::ymdh(2010, 3, 3, 23).day_hash();
    let date_b = UtcDate::ymdh(2010, 3, 4, 0).day_hash();
    let date_c = UtcDate::ymdh(2010, 3, 4, 23).day_hash();
    let date_d = UtcDate::ymdh(2010, 3, 5, 0).day_hash();
    let date_e = UtcDate::ymdh(2011, 11, 14, 2).day_hash();
    let date_f = UtcDate::ymdh(2056, 2, 3, 13).day_hash();
    let date_g = UtcDate::ymdh(2056, 2, 3, 23).day_hash();

    assert_eq!(date_b - date_a, 1);
    assert_eq!(date_b, date_c);
    assert_eq!(date_d - date_c, 1);
    assert!(date_d < date_e);
    assert!(date_e < date_f);
    assert_eq!(date_f, date_g);
    // days are rounded towards the start of 1970
    assert_eq!(0, UtcDate::from_hash(-1).day_hash());
    assert_eq!(-1, UtcDate::from_hash(-86_400_000).day_hash());
    assert_eq!(1, UtcDate::from_hash(86_400_000).day_hash());
    assert_eq!(-106751991167, UtcDate::from_hash(i64::MIN).day_hash());
    assert_eq!(106751991167, UtcDate::from_hash(i64::MAX).day_hash());
}

#[test]
fn orders_are_listed_newest_first() {
    let garage = garage();
    let all = dynamic_ids(&garage);
    let list = list_orders(&options(None), &all, &mut vec![], &running(), &UserCounts::new())
        .unwrap();
    assert_eq!(vec!["Oli", "Fre", "Frena Ara", "Pastilles Fre"], titles(&list));
    assert_eq!(all[0].0, list[0].0);
    assert_eq!(1, list[0].1);
}

#[test]
fn orders_are_listed_oldest_first_and_cut() {
    let garage = garage();
    let all = dynamic_ids(&garage);
    let mut options = options(None);
    options.sort_by = ListOrdersHookOptionsSortBy::Oldest;
    options.max_list_len = 3;
    let list = list_orders(&options, &all, &mut vec![], &running(), &UserCounts::new()).unwrap();
    assert_eq!(vec!["Pastilles Fre", "Frena Ara", "Fre"], titles(&list));
}

#[test]
fn orders_are_filtered_by_state_and_date() {
    let garage = garage();
    let all = dynamic_ids(&garage);
    let mut options = options(None);
    options.show_done = false;
    let list = list_orders(&options, &all, &mut vec![], &running(), &UserCounts::new()).unwrap();
    assert_eq!(vec!["Oli", "Frena Ara"], titles(&list));
    options.show_done = true;
    options.from_date = UtcDate::ymdh(2022, 10, 3, 0);
    let list = list_orders(&options, &all, &mut vec![], &running(), &UserCounts::new()).unwrap();
    assert_eq!(vec!["Frena Ara", "Pastilles Fre"], titles(&list));
}

#[test]
fn orders_are_filtered_by_code_user_and_body() {
    let garage = garage();
    let all = dynamic_ids(&garage);
    let none = UserCounts::new();
    let by = |filter: ListOrdersHookFilter| {
        titles(&list_orders(&options(Some(filter)), &all, &mut vec![], &running(), &none).unwrap())
    };
    // the code is held against plate and VIN without their separators
    assert_eq!(vec!["Frena Ara"], by(filter_of("56 78_d", "", "", 0)));
    assert_eq!(vec!["Oli", "Pastilles Fre"], by(filter_of("2hges", "", "", 0)));
    assert_eq!(vec!["Oli", "Pastilles Fre"], by(filter_of("", "pera", "", 0)));
    assert_eq!(vec!["Fre", "Frena Ara"], by(filter_of("", "", "seat", 0)));
    assert_eq!(vec!["Fre", "Frena Ara", "Pastilles Fre"], by(filter_of("", "", "fre", 0)));
    assert_eq!(vec!["Fre"], by(filter_of("", "", "aburro", 0)));
    assert_eq!(Vec::<String>::new(), by(filter_of("0001", "mario", "", 0)));
}

#[test]
fn orders_are_filtered_by_the_popularity_of_their_users() {
    let garage = garage();
    let all = dynamic_ids(&garage);
    let mut counts = UserCounts::new();
    for (_, e) in all.iter() {
        counts.count(user_name(&e.user));
    }
    assert_eq!(3, counts.count_of(&user_name("Pepa Pera")));
    assert_eq!(2, counts.count_of(&user_name("juan")));
    assert_eq!(0, counts.count_of(&user_name("nobody")));
    let by = |popularity: i32| {
        titles(
            &list_orders(
                &options(Some(filter_of("", "", "", popularity))),
                &all,
                &mut vec![],
                &running(),
                &counts,
            )
            .unwrap(),
        )
    };
    assert_eq!(vec!["Oli", "Pastilles Fre"], by(3));
    assert_eq!(vec!["Fre", "Frena Ara"], by(-2));
    assert_eq!(4, by(2).len());
    assert_eq!(4, by(0).len());
    assert_eq!(4, by(i32::MIN).len());
    assert_eq!(0, by(i32::MAX).len());
}

#[test]
fn a_list_is_taken_over_into_the_next() {
    let garage = garage();
    let all = dynamic_ids(&garage);
    let (dynamic, ancient) = all.split_at(2);
    let none = UserCounts::new();
    let mut first =
        list_orders(&options(None), &dynamic.to_vec(), &mut vec![], &running(), &none).unwrap();
    assert_eq!(vec!["Oli", "Frena Ara", "Pastilles Fre"], titles(&first));
    let full =
        list_orders(&options(None), &ancient.to_vec(), &mut first, &running(), &none).unwrap();
    assert!(first.is_empty());
    assert_eq!(vec!["Oli", "Fre", "Frena Ara", "Pastilles Fre"], titles(&full));
}

#[test]
fn a_stopped_query_lists_nothing() {
    let garage = garage();
    let all = dynamic_ids(&garage);
    assert!(list_orders(&options(None), &all, &mut vec![], &stopped(), &UserCounts::new()).is_none());
    let calls = RefCell::new(0);
    let done = list_orders_query(&options(None), &all, &vec![], &stopped(), |_| {
        *calls.borrow_mut() += 1;
    });
    assert_eq!(None, done);
    assert_eq!(0, *calls.borrow());
    assert!(list_filter(&Filter::new(""), &vec![], &mut vec![], &stopped()).is_none());
}

#[test]
fn a_query_for_orders_calls_back_twice() {
    let garage = garage();
    let all = dynamic_ids(&garage);
    let (dynamic, ancient) = all.split_at(2);
    let seen: RefCell<Vec<Vec<String>>> = RefCell::new(vec![]);
    let mut options = options(Some(filter_of("", "", "", 3)));
    if let Some(filter) = options.filter.as_mut() {
        filter.to_lowercase();
    }
    let done = list_orders_query(
        &options,
        &dynamic.to_vec(),
        &ancient.to_vec(),
        &running(),
        |list| seen.borrow_mut().push(titles(list)),
    );
    assert_eq!(Some(()), done);
    // the users are counted over both parts: only Pepa has two expedients
    assert_eq!(
        vec![vec!["Oli", "Pastilles Fre"], vec!["Oli", "Pastilles Fre"]],
        *seen.borrow()
    );
}

#[test]
fn the_filter_of_a_query_is_put_in_lower_case() {
    let mut filter = filter_of("12 AB", "PePa", "FRE", -4);
    filter.to_lowercase();
    assert_eq!("12 ab", filter.car_code);
    assert_eq!("pepa", filter.user);
    assert_eq!("fre", filter.body);
    assert_eq!(-4, filter.popularity);
    assert_eq!("12AB", code_text(" 1_2 A_B "));
    assert_eq!("pepapera".chars().collect::<Vec<char>>(), user_name(" Pepa  PERA"));
}

#[test]
fn create_hook_update_and_delete_expedient() {
    let expedient_a = expedient("Eduardo Dato", "", "", "", vec![]);
    let expedient_b = expedient("Eduardo Pedro", "", "", "", vec![]);
    let call_count = RefCell::new(0);
    let mut db = ChunkedDatabase::<Expedient>::create(6000);
    let id = db.push(expedient_a.clone());
    let check = |exp: Option<&Expedient>| {
        *call_count.borrow_mut() += 1;
        match *call_count.borrow() {
            1 => assert_eq!(Some(&expedient_a.clone()), exp),
            2 => assert_eq!(Some(&expedient_b.clone()), exp),
            3 => assert_eq!(None, exp),
            _ => panic!("To many calls"),
        };
    };
    expedient_query(&db, id, &check);
    db.update(id, expedient_b.clone());
    expedient_query(&db, id, &check);
    db.delete(id);
    expedient_query(&db, id, &check);
    assert_eq!(3, *call_count.borrow(), "Expected only 3 calls");
    assert_ne!(HookId::Expedient(Id { index: 0, identifier: 1 }), HookId::ListFilter(Id { index: 0, identifier: 1 }));
}

#[test]
fn suggestions_are_the_best_five_texts() {
    let d = |day: u32| UtcDate::ymdh(2022, 1, day, 0);
    let source = vec![
        (" Seat Ibiza ", d(1)),
        ("Seat Leon", d(3)),
        ("", d(9)),
        ("   ", d(9)),
        ("Audi", d(9)),
        ("seat", d(2)),
        ("Seat Ibiza", d(5)),
        ("Seat Leon", d(1)),
        ("Sea Tiger", d(8)),
        ("Seat Arona", d(3)),
        ("Seat Toledo", d(2)),
        ("Seat Ateca", d(1)),
    ];
    let found = list_filter(&Filter::new("seat"), &source, &mut vec![], &running()).unwrap();
    let names: Vec<&str> = found.iter().map(|(name, _)| *name).collect();
    // all of them have the keyword as their first word; of equal scores
    // the later date comes first, of equal dates the text that comes
    // first; of a text that comes twice the first entry stays
    assert_eq!(vec!["Seat Arona", "Seat Leon", "Seat Toledo", "seat", "Seat Ateca"], names);
    assert_eq!(d(3), found[1].1);

    let mut first = found;
    let more = vec![("SEAT 600", d(20)), ("Seat Leon", d(25))];
    let full = list_filter(&Filter::new("seat"), &more, &mut first, &running()).unwrap();
    assert!(first.is_empty());
    let names: Vec<&str> = full.iter().map(|(name, _)| *name).collect();
    assert_eq!(vec!["Seat Leon", "SEAT 600", "Seat Arona", "Seat Toledo", "seat"], names);
    assert_eq!(d(25), full[0].1);

    // a text that begins with the keyword scores less than one that has it
    // as a word, and more than one that only holds it
    let source = vec![("Mi seat", d(9)), ("Seatbelt", d(1)), ("Seat", d(1))];
    let found = list_filter(&Filter::new("seat"), &source, &mut vec![], &running()).unwrap();
    let names: Vec<&str> = found.iter().map(|(name, _)| *name).collect();
    assert_eq!(vec!["Seat", "Seatbelt", "Mi seat"], names);
}

#[test]
fn suggestions_draw_on_one_kind_of_text() {
    let garage = garage();
    let all = dynamic_ids(&garage);
    let (dynamic, ancient) = all.split_at(2);
    let seen: RefCell<Vec<Vec<String>>> = RefCell::new(vec![]);
    let note = |list: &Vec<&str>| {
        seen.borrow_mut()
            .push(list.iter().map(|s| s.to_string()).collect())
    };
    let dynamic = dynamic.to_vec();
    let ancient = ancient.to_vec();

    assert_eq!(Some(()), hook_list_users("pe", &dynamic, &ancient, &running(), &note));
    assert_eq!(vec![vec!["Pepa Pera"], vec!["Pepa Pera", "pepa pera"]], *seen.borrow());
    seen.borrow_mut().clear();

    assert_eq!(Some(()), hook_list_models("seat", &dynamic, &ancient, &running(), &note));
    assert_eq!(vec![vec!["Seat Ibiza"], vec!["Seat Leon", "Seat Ibiza"]], *seen.borrow());
    seen.borrow_mut().clear();

    assert_eq!(Some(()), hook_list_license_plates("0001", &dynamic, &ancient, &running(), &note));
    assert_eq!(vec![vec![], vec!["0001 AAA"]], *seen.borrow());
    seen.borrow_mut().clear();

    assert_eq!(Some(()), hook_list_vins("2hg", &dynamic, &ancient, &running(), &note));
    assert_eq!(vec![vec!["2HGES16503H591599"], vec!["2HGES16503H591599"]], *seen.borrow());
    seen.borrow_mut().clear();

    assert_eq!(Some(()), hook_list_order_titles("fre", &dynamic, &ancient, &running(), &note));
    assert_eq!(
        vec![vec!["Frena Ara", "Pastilles Fre"], vec!["Fre", "Frena Ara", "Pastilles Fre"]],
        *seen.borrow()
    );
    seen.borrow_mut().clear();

    assert_eq!(None, hook_list_users("pe", &dynamic, &ancient, &stopped(), &note));
    assert!(seen.borrow().is_empty());
}

#[test]
fn done_orders_are_counted_by_day() {
    let garage = garage();
    let all = dynamic_ids(&garage);
    // done: 2022-10-02 and 2022-10-04
    assert_eq!(
        vec![1, 0, 1, 0],
        done_commands_count_vs_days(UtcDate::ymdh(2022, 10, 5, 12), &all)
    );
    assert_eq!(
        vec![1, 0, 1],
        done_commands_count_vs_days(UtcDate::ymdh(2022, 10, 4, 0), &all)
    );
    // a later day is left out
    assert_eq!(vec![1], done_commands_count_vs_days(UtcDate::ymdh(2022, 10, 2, 23), &all));
    assert_eq!(
        Vec::<usize>::new(),
        done_commands_count_vs_days(UtcDate::ymdh(2022, 10, 1, 0), &all)
    );
    let twice = vec![all[0], all[0], all[3]];
    assert_eq!(
        vec![2, 0, 1],
        done_commands_count_vs_days(UtcDate::ymdh(2022, 10, 4, 0), &twice)
    );
}

#[test]
fn texts_of_an_older_archive_are_taken_over_as_titles() {
    assert_eq!("Pepa La Pera", titlecase("  pepa la pera "));
    assert_eq!("PEPA", titlecase("PEPA"));
    assert_eq!("Seat-ibiza 2 Tdi", titlecase("seat-ibiza 2 tdi"));
    assert_eq!("BMW 320d", titlecase("bmw 320d"));
    assert_eq!("BMW", titlecase("Bmw"));
    assert_eq!("Ña  Écija", titlecase("ña  écija"));
    assert_eq!("SSa", titlecase("ßa"));
    assert_eq!("", titlecase(""));
    assert_eq!("Mario Bro", format_user("mario bro"));
}

#[test]
fn license_plates_are_spaced() {
    assert_eq!("B1234 XY", format_license_plate(" b1234xy "));
    assert_eq!("1234ABC", format_license_plate("1234abc"));
    assert_eq!("12345 A", format_license_plate("12345a"));
    assert_eq!("12345", format_license_plate("12345"));
    assert_eq!("ABCDE", format_license_plate("abcde"));
    assert_eq!("B1234 XY", format_license_plate("B1234 XY"));
    assert_eq!("1234", format_license_plate("1234"));
    assert_eq!("", format_license_plate(""));
    assert_eq!("ÑÑÑÑ5A", format_license_plate("ññññ5a"));
}

#[test]
fn date_hashes_are_compressed() {
    assert_eq!("0", compress_date_hash(0));
    assert_eq!("Z", compress_date_hash(35));
    assert_eq!("10", compress_date_hash(36));
    assert_eq!("ZZ", compress_date_hash(36 * 36 - 1));
    assert_eq!("21I3V9", compress_date_hash(123456789));
    assert_eq!("1Y2P0IJ32E8E7", compress_date_hash(i64::MAX));
}

#[test]
fn an_item_ages_by_its_date() {
    let e = expedient(
        "",
        "",
        "",
        "",
        vec![order(UtcDate::ymdh(2022, 1, 1, 0), "", "", OrderState::Done)],
    );
    assert_eq!(UtcDate::ymdh(2022, 1, 1, 0).date_hash(), e.date());
    let mut db = ChunkedDatabase::<Expedient>::create(1);
    db.push(garage()[1].clone());
    db.push(garage()[0].clone());
    db.push(garage()[2].clone());
    let plan = db.save();
    assert!(plan.dynamic && plan.ancient);
    // the two oldest have moved: the one without orders and the one of 2022-10-03
    let kept: Vec<&str> = db.iter().iter().map(|(_, e)| e.user.as_str()).collect();
    assert_eq!(vec!["Pepa Pera"], kept);
    let moved: Vec<&str> = db.iter_ancient().iter().map(|(_, e)| e.user.as_str()).collect();
    assert_eq!(vec!["pepa pera", "Mario Bro"], moved);
    let all: Vec<&str> = db.iter_all().iter().map(|(_, e)| e.user.as_str()).collect();
    assert_eq!(vec!["Pepa Pera", "pepa pera", "Mario Bro"], all);
}

#[test]
fn dates_that_do_not_exist_are_refused() {
    assert_eq!(Some(UtcDate::ymdh(2024, 2, 29, 8)), UtcDate::try_ymdh(2024, 2, 29, 8));
    assert_eq!(None, UtcDate::try_ymdh(2023, 2, 29, 8));
    assert_eq!(None, UtcDate::try_ymdh(2023, 2, 28, 24));
    assert_eq!(None, UtcDate::try_ymdh(2023, 0, 1, 0));
    assert_eq!(None, UtcDate::try_ymdh(400000, 1, 1, 0));
}

#[test]
fn a_collection_tells_whether_it_has_room() {
    let mut db = ChunkedDatabase::<Expedient>::create(0);
    assert!(db.can_push());
    assert!(db.has_room_to_rebalance());
    assert_eq!(Some(0), db.checked_len());
    db.push(garage()[0].clone());
    assert!(db.has_room_to_rebalance());
    assert_eq!(Some(1), db.checked_len());
}

/// What a hook on one expedient holds: the collection, the handle of the
/// expedient and the callback.
struct HookContext {
    database: Rc<RefCell<ChunkedDatabase<Expedient>>>,
    expedient_id: Uid,
    callback: Box<dyn Fn(Option<&Expedient>)>,
}

fn run_hook(context: &HookContext) {
    let database = context.database.borrow();
    expedient_query(&database, context.expedient_id, |found| (context.callback)(found));
}

fn hook_on(
    database: &Rc<RefCell<ChunkedDatabase<Expedient>>>,
    expedient_id: Uid,
    callback: impl Fn(Option<&Expedient>) + 'static,
) -> Callback<HookContext, fn(&HookContext)> {
    Callback::new(
        HookContext { database: database.clone(), expedient_id, callback: Box::new(callback) },
        run_hook as fn(&HookContext),
    )
}

#[test]
fn create_and_hook_expedient() {
    let expedient = expedient("", "", "", "", vec![]);
    let seen: Rc<RefCell<Option<Expedient>>> = Rc::new(RefCell::new(None));

    let database = Rc::new(RefCell::new(ChunkedDatabase::<Expedient>::create(6000)));
    let id = database.borrow_mut().push(expedient.clone());
    let mut hooks = Observable::<HookContext, fn(&HookContext)>::default();
    let sink = seen.clone();
    hooks.subscrive(hook_on(&database, id, move |exp| *sink.borrow_mut() = exp.cloned()), true);

    assert_eq!(expedient, seen.borrow().clone().unwrap());
}

#[test]
fn release_hook() {
    let expedient_a = expedient("Eduardo Dato", "", "", "", vec![]);
    let expedient_b = expedient("Eduardo Pedro", "", "", "", vec![]);
    let call_count = Rc::new(RefCell::new(0));

    let database = Rc::new(RefCell::new(ChunkedDatabase::<Expedient>::create(6000)));
    let id = database.borrow_mut().push(expedient_a.clone());
    let mut hooks = Observable::<HookContext, fn(&HookContext)>::default();
    let count = call_count.clone();
    let hook_id = hooks.subscrive(
        hook_on(&database, id, move |exp| {
            *count.borrow_mut() += 1;
            match *count.borrow() {
                1 => assert_eq!(Some(&expedient_a.clone()), exp),
                _ => panic!("To many calls"),
            }
        }),
        true,
    );
    hooks.unsubscrive(hook_id);
    database.borrow_mut().update(id, expedient_b.clone());
    hooks.trigger();
    database.borrow_mut().delete(id);
    hooks.trigger();
    assert_eq!(1, *call_count.borrow(), "Expected only 1 call");
}

#[test]
fn release_all_hooks() {
    let expedient_a = expedient("Eduardo Dato", "", "", "", vec![]);
    let expedient_b = expedient("Eduardo Pedro", "", "", "", vec![]);
    let call_count_a = Rc::new(RefCell::new(0));
    let call_count_b = Rc::new(RefCell::new(0));

    let database = Rc::new(RefCell::new(ChunkedDatabase::<Expedient>::create(6000)));
    let id = database.borrow_mut().push(expedient_a.clone());
    let mut hooks = Observable::<HookContext, fn(&HookContext)>::default();
    for count in [call_count_a.clone(), call_count_b.clone()] {
        let expected = expedient_a.clone();
        hooks.subscrive(
            hook_on(&database, id, move |exp| {
                *count.borrow_mut() += 1;
                match *count.borrow() {
                    1 => assert_eq!(Some(&expected), exp),
                    _ => panic!("To many calls"),
                }
            }),
            true,
        );
    }
    hooks = Default::default();
    database.borrow_mut().update(id, expedient_b.clone());
    hooks.trigger();
    database.borrow_mut().delete(id);
    hooks.trigger();
    assert_eq!(1, *call_count_a.borrow(), "Expected only one call per hook");
    assert_eq!(1, *call_count_b.borrow(), "Expected only one call per hook");
}

#[test]
fn create_close_and_open_database() {
    let mut created = ChunkedDatabase::<Expedient>::create(6000);
    let id = created.push(garage()[0].clone());
    let plan = created.save();
    assert!(plan.dynamic && plan.ancient);

    // what is written of a part, and what is read of it again
    let part = created.dynamic_chunk().items();
    let slots: Vec<(usize, Option<Expedient>)> = (0..part.slot_count())
        .map(|index| {
            let (generation, value) = part.slot(index);
            (generation, value.cloned())
        })
        .collect();
    let read = IdMap::from_parts(slots, part.free_slots().clone(), part.last_generation()).unwrap();

    let opened = ChunkedDatabase::from_chunks(
        archive_core::chunked::Chunk::from_items(read, false),
        archive_core::chunked::Chunk::from_items(IdMap::new(), false),
        6000,
    );
    assert_eq!(Some(&garage()[0]), opened.read(id));
    assert_eq!(1, opened.len());
}

#[test]
fn save_do_not_create_files_when_data_is_not_changed() {
    let mut database = ChunkedDatabase::<Expedient>::create(6000);
    let mut written = (0, 0);
    let mut save = |database: &mut ChunkedDatabase<Expedient>| {
        let plan = database.save();
        written.0 += plan.dynamic as usize;
        written.1 += plan.ancient as usize;
        database.mark_stored(plan);
        written
    };
    assert_eq!((1, 1), save(&mut database));
    database.push(garage()[0].clone());
    assert_eq!((2, 1), save(&mut database));
    assert_eq!((2, 1), save(&mut database));
    assert_eq!((2, 1), save(&mut database));
}

#[test]
fn a_query_that_cannot_be_stopped_runs_to_its_end() {
    let garage = garage();
    let all = dynamic_ids(&garage);
    let process = AsyncCallbackProcess::unstoppable();
    let list = list_orders(&options(None), &all, &mut vec![], &process, &UserCounts::new());
    assert_eq!(vec!["Oli", "Fre", "Frena Ara", "Pastilles Fre"], titles(&list.unwrap()));

    let source = vec![("Seat", UtcDate::ymdh(2022, 1, 1, 0))];
    let found = list_filter(&Filter::new("seat"), &source, &mut vec![], &process).unwrap();
    assert_eq!(source, found);

    let calls = RefCell::new(0);
    let done = list_orders_query(&options(None), &all, &vec![], &process, |_| {
        *calls.borrow_mut() += 1;
    });
    assert_eq!(Some(()), done);
    assert_eq!(2, *calls.borrow());
    let done = hook_list_vins("2hg", &all, &vec![], &process, |_| {
        *calls.borrow_mut() += 1;
    });
    assert_eq!(Some(()), done);
    assert_eq!(4, *calls.borrow());
}

#[test]
fn a_stopped_query_leaves_the_list_to_take_over_as_it_was() {
    let garage = garage();
    let all = dynamic_ids(&garage);
    let mut first =
        list_orders(&options(None), &all, &mut vec![], &running(), &UserCounts::new()).unwrap();
    let before = first.len();
    assert!(list_orders(&options(None), &all, &mut first, &stopped(), &UserCounts::new()).is_none());
    assert_eq!(before, first.len());

    let mut texts = vec![("Seat", UtcDate::ymdh(2022, 1, 1, 0))];
    assert!(list_filter(&Filter::new("seat"), &vec![], &mut texts, &stopped()).is_none());
    assert_eq!(1, texts.len());
}

fn stop_at(step: usize) -> impl Fn(usize) -> Option<()> {
    move |now| if now == step { None } else { Some(()) }
}

#[test]
fn a_query_for_orders_that_is_stopped_on_entry_leaves_the_list_untouched() {
    let garage = garage();
    let all = dynamic_ids(&garage);
    let counts = UserCounts::new();
    let taken = list_orders_with(&options(None), &all, &mut vec![], |_| Some(()), &counts).unwrap();
    assert!(!taken.is_empty());

    let mut first = taken.clone();
    let asked = RefCell::new(Vec::new());
    let list = list_orders_with(
        &options(None),
        &all,
        &mut first,
        |step| {
            asked.borrow_mut().push(step);
            None
        },
        &counts,
    );
    assert!(list.is_none());
    assert_eq!(vec![0], *asked.borrow());
    assert_eq!(taken, first);
}

#[test]
fn a_query_for_orders_stops_at_the_first_checkpoint_that_says_so() {
    let garage = garage();
    let all = dynamic_ids(&garage);
    let counts = UserCounts::new();
    let taken = list_orders_with(&options(None), &all, &mut vec![], |_| Some(()), &counts).unwrap();

    for step in 0..ORDERS_CHECKPOINTS {
        let mut first = taken.clone();
        let asked = RefCell::new(Vec::new());
        let list = list_orders_with(
            &options(None),
            &all,
            &mut first,
            |now| {
                asked.borrow_mut().push(now);
                stop_at(step)(now)
            },
            &counts,
        );
        assert!(list.is_none());
        assert_eq!((0..=step).collect::<Vec<_>>(), *asked.borrow());
        if step < ORDERS_TAKEN_OVER {
            assert_eq!(taken, first);
        } else {
            assert!(first.is_empty());
        }
    }

    let mut first = taken.clone();
    let asked = RefCell::new(Vec::new());
    let list = list_orders_with(
        &options(None),
        &all,
        &mut first,
        |now| {
            asked.borrow_mut().push(now);
            stop_at(ORDERS_CHECKPOINTS)(now)
        },
        &counts,
    );
    assert_eq!((0..ORDERS_CHECKPOINTS).collect::<Vec<_>>(), *asked.borrow());
    assert!(first.is_empty());
    let through_flag = list_orders(&options(None), &all, &mut taken.clone(), &running(), &counts);
    assert_eq!(through_flag, list);
}

#[test]
fn a_query_for_texts_stops_at_the_first_checkpoint_that_says_so() {
    let seen = vec![("Seat Ibiza", UtcDate::ymdh(2022, 1, 1, 0)), ("Audi", UtcDate::ymdh(2022, 2, 1, 0))];
    let taken = vec![("Seat Leon", UtcDate::ymdh(2021, 1, 1, 0))];

    for step in 0..TEXTS_CHECKPOINTS {
        let mut first = taken.clone();
        let list = list_filter_with(&Filter::new("seat"), &seen, &mut first, stop_at(step));
        assert!(list.is_none());
        if step < TEXTS_TAKEN_OVER {
            assert_eq!(taken, first);
        } else {
            assert!(first.is_empty());
        }
    }

    let mut first = taken.clone();
    let list = list_filter_with(&Filter::new("seat"), &seen, &mut first, |_| Some(()));
    assert!(first.is_empty());
    assert_eq!(list_filter(&Filter::new("seat"), &seen, &mut taken.clone(), &running()), list);
    let names: Vec<&str> = list.unwrap().iter().map(|(name, _)| *name).collect();
    assert!(names.contains(&"Seat Ibiza"));
    assert!(names.contains(&"Seat Leon"));
    assert!(!names.contains(&"Audi"));
}

#[test]
fn a_process_whose_flag_is_set_on_entry_stops_the_query_before_it_takes_the_list_over() {
    let garage = garage();
    let all = dynamic_ids(&garage);
    let counts = UserCounts::new();
    let taken = list_orders(&options(None), &all, &mut vec![], &running(), &counts).unwrap();
    let mut first = taken.clone();
    let flag = Arc::new(AtomicBool::new(false));
    let process = AsyncCallbackProcess::new(flag.clone());
    flag.store(true, Ordering::Relaxed);
    assert!(list_orders(&options(None), &all, &mut first, &process, &counts).is_none());
    assert_eq!(taken, first);
}

#[test]
fn the_date_of_an_older_record_is_read() {
    assert_eq!(Some(UtcDate::ymdh(2019, 3, 21, 8)), archive_date("21/3/2019", 0));
    assert_eq!(Some(UtcDate::ymdh(2019, 3, 21, 8)), archive_date("21/03/2019", 0));
    assert_eq!(Some(UtcDate::ymdh(2019, 3, 21, 8)), archive_date("+21/+3/+2019", 0));
    assert_eq!(Some(UtcDate::ymdh(2020, 2, 29, 8)), archive_date("29/2/2020", 0));
    assert_eq!(Some(UtcDate::ymdh(2019, 3, 21, 8)), archive_date("21/3/2019/7", 0));
    assert_eq!(
        Some(UtcDate::from_hash(UtcDate::ymdh(2019, 3, 21, 8).date_hash() + 5)),
        archive_date("21/3/2019", 5)
    );
    assert_eq!(
        Some(UtcDate::from_hash(UtcDate::ymdh(1970, 1, 1, 8).date_hash() - 1)),
        archive_date("1/1/1970", -1)
    );
    assert_eq!(8 * 3_600_000, archive_date("1/1/1970", 0).unwrap().date_hash());
}

#[test]
fn a_date_of_an_older_record_that_cannot_be_read_is_refused() {
    assert_eq!(None, archive_date("", 0));
    assert_eq!(None, archive_date("21/3", 0));
    assert_eq!(None, archive_date("21-3-2019", 0));
    assert_eq!(None, archive_date("21/3/2019/", 0));
    assert_eq!(None, archive_date("21/3/2019/x", 0));
    assert_eq!(None, archive_date("21/ 3/2019", 0));
    assert_eq!(None, archive_date("21/-3/2019", 0));
    assert_eq!(None, archive_date("21//2019", 0));
    assert_eq!(None, archive_date("+/3/2019", 0));
    assert_eq!(None, archive_date("21/3/4294967296", 0));
    assert_eq!(None, archive_date("29/2/2019", 0));
    assert_eq!(None, archive_date("31/4/2019", 0));
    assert_eq!(None, archive_date("0/4/2019", 0));
    assert_eq!(None, archive_date("1/13/2019", 0));
    assert_eq!(None, archive_date("1/1/400000", 0));
    assert_eq!(None, archive_date("1/1/2019", i64::MAX));
}

#[test]
fn a_year_above_the_signed_range_is_read_as_a_year_before_the_first() {
    assert_eq!(Some(UtcDate::ymdh(-1, 1, 1, 8)), archive_date("1/1/4294967295", 0));
    assert_eq!(Some(UtcDate::ymdh(0, 12, 31, 8)), archive_date("31/12/0", 0));
}

#[test]
fn a_record_of_an_older_archive_is_taken_over() {
    let date = archive_date("21/3/2019", 3).unwrap();
    let made = archive_expedient("pepa  PERA", "seat ibiza", "vf1abc", "1234abc", "colze", date);
    assert_eq!(format_user("pepa  PERA"), made.user);
    assert_eq!(titlecase("seat ibiza"), made.model);
    assert_eq!("Seat Ibiza", made.model);
    assert_eq!("VF1ABC", made.vin);
    assert_eq!(format_license_plate("1234abc"), made.license_plate);
    assert_eq!("colze", made.description);
    assert_eq!(date, made.date);
    assert_eq!(
        vec![order(date, "Antic", "", OrderState::Done)],
        made.orders
    );
}

fn civil_days(year: i64, month: i64, day: i64) -> i64 {
    let y = if month <= 2 { year - 1 } else { year };
    let era = y.div_euclid(400);
    let year_of_era = y - era * 400;
    let month_from_march = if month > 2 { month - 3 } else { month + 9 };
    let day_of_year = (153 * month_from_march + 2) / 5 + day - 1;
    let day_of_era = year_of_era * 365 + year_of_era / 4 - year_of_era / 100 + day_of_year;
    era * 146097 + day_of_era - 719468
}

#[test]
fn the_hash_of_a_date_counts_the_milliseconds_of_the_calendar() {
    assert_eq!(0, UtcDate::ymdh(1970, 1, 1, 0).date_hash());
    assert_eq!(951_868_800_000 + 8 * 3_600_000, UtcDate::ymdh(2000, 3, 1, 8).date_hash());
    assert_eq!(-86_400_000, UtcDate::ymdh(1969, 12, 31, 0).date_hash());
    let lengths = [31, 28, 31, 30, 31, 30, 31, 31, 30, 31, 30, 31];
    for year in (-401..=401).chain(1580..=1620).chain(1890..=2110).chain([-200_000, 200_000]) {
        let leap = year % 4 == 0 && (year % 100 != 0 || year % 400 == 0);
        for month in 1..=12u32 {
            let last = lengths[month as usize - 1] + if leap && month == 2 { 1 } else { 0 };
            for (day, hour) in [(1, 0), (15, 13), (last, 23)] {
                let expected = (civil_days(year as i64, month as i64, day as i64) * 24
                    + hour as i64)
                    * 3_600_000;
                assert_eq!(
                    expected,
                    UtcDate::ymdh(year, month, day, hour).date_hash(),
                    "{year}-{month}-{day} {hour}h"
                );
            }
        }
    }
}

#[test]
fn a_later_hour_has_the_greater_hash() {
    let hours = [
        UtcDate::ymdh(-1, 12, 31, 23),
        UtcDate::ymdh(0, 1, 1, 0),
        UtcDate::ymdh(1999, 12, 31, 23),
        UtcDate::ymdh(2000, 1, 1, 0),
        UtcDate::ymdh(2000, 2, 29, 23),
        UtcDate::ymdh(2000, 3, 1, 0),
        UtcDate::ymdh(2000, 3, 1, 1),
        UtcDate::ymdh(2001, 2, 28, 23),
        UtcDate::ymdh(2001, 3, 1, 0),
    ];
    for pair in hours.windows(2) {
        assert!(pair[0].date_hash() < pair[1].date_hash());
    }
}

#[test]
fn a_query_for_orders_over_two_parts_calls_back_until_it_is_stopped() {
    let garage = garage();
    let all = dynamic_ids(&garage);
    let (dynamic, ancient) = all.split_at(2);
    let (dynamic, ancient) = (dynamic.to_vec(), ancient.to_vec());
    let mut options = options(Some(filter_of("", "", "", 3)));
    if let Some(filter) = options.filter.as_mut() {
        filter.to_lowercase();
    }
    let through_flag: RefCell<Vec<Vec<String>>> = RefCell::new(vec![]);
    let done = list_orders_query(&options, &dynamic, &ancient, &running(), |list| {
        through_flag.borrow_mut().push(titles(list))
    });
    assert_eq!(Some(()), done);
    assert_eq!(2, through_flag.borrow().len());

    for step in 0..=ORDERS_QUERY_CHECKPOINTS {
        let seen: RefCell<Vec<Vec<String>>> = RefCell::new(vec![]);
        let asked = RefCell::new(Vec::new());
        let done = list_orders_query_with(
            &options,
            &dynamic,
            &ancient,
            |now| {
                asked.borrow_mut().push(now);
                stop_at(step)(now)
            },
            |list| seen.borrow_mut().push(titles(list)),
        );
        if step == ORDERS_QUERY_CHECKPOINTS {
            assert_eq!(Some(()), done);
            assert_eq!((0..step).collect::<Vec<_>>(), *asked.borrow());
            assert_eq!(*through_flag.borrow(), *seen.borrow());
        } else {
            assert_eq!(None, done);
            assert_eq!((0..=step).collect::<Vec<_>>(), *asked.borrow());
            let called = if step < ORDERS_QUERY_BEGUN { 0 } else { 1 };
            assert_eq!(through_flag.borrow()[..called], seen.borrow()[..]);
        }
    }
}

#[test]
fn a_query_for_texts_over_two_parts_calls_back_until_it_is_stopped() {
    let garage = garage();
    let all = dynamic_ids(&garage);
    let (dynamic, ancient) = all.split_at(2);
    let (dynamic, ancient) = (dynamic.to_vec(), ancient.to_vec());
    let through_flag: RefCell<Vec<Vec<String>>> = RefCell::new(vec![]);
    let done = list_filter_query(ListField::Users, "pe", &dynamic, &ancient, &running(), |list| {
        through_flag.borrow_mut().push(list.iter().map(|name| name.to_string()).collect())
    });
    assert_eq!(Some(()), done);
    assert_eq!(2, through_flag.borrow().len());
    assert!(!through_flag.borrow()[1].is_empty());

    for step in 0..=TEXTS_QUERY_CHECKPOINTS {
        let seen: RefCell<Vec<Vec<String>>> = RefCell::new(vec![]);
        let asked = RefCell::new(Vec::new());
        let done = list_filter_query_with(
            ListField::Users,
            "pe",
            &dynamic,
            &ancient,
            |now| {
                asked.borrow_mut().push(now);
                stop_at(step)(now)
            },
            |list| seen.borrow_mut().push(list.iter().map(|name| name.to_string()).collect()),
        );
        if step == TEXTS_QUERY_CHECKPOINTS {
            assert_eq!(Some(()), done);
            assert_eq!((0..step).collect::<Vec<_>>(), *asked.borrow());
            assert_eq!(*through_flag.borrow(), *seen.borrow());
        } else {
            assert_eq!(None, done);
            assert_eq!((0..=step).collect::<Vec<_>>(), *asked.borrow());
            let called = if step < TEXTS_QUERY_BEGUN { 0 } else { 1 };
            assert_eq!(through_flag.borrow()[..called], seen.borrow()[..]);
        }
    }
}

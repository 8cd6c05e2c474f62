use archive_core::date_map::{DateMap, UtcDate};

#[test]
fn date_map_utc_from_hash() {
    let date = UtcDate::utc_ymdh(2000, 1, 1, 0);
    assert_eq!(UtcDate::from_day_hash(date.day_hash(), 0), date);

    let date = UtcDate::utc_ymdh(2000, 1, 1, 18);
    assert_eq!(UtcDate::from_day_hash(date.day_hash(), 18), date);

    let date = UtcDate::utc_ymdh(2011, 11, 14, 22);
    assert_eq!(UtcDate::from_day_hash(date.day_hash(), 22), date);
}

#[test]
fn date_map_ymd_hash_is_zero_on_2000() {
    assert_eq!(UtcDate::utc_ymdh(2000, 1, 1, 0).day_hash(), 0);
    assert_eq!(UtcDate::utc_ymdh(2000, 1, 1, 3).day_hash(), 0);
    assert_eq!(UtcDate::utc_ymdh(2000, 1, 1, 16).day_hash(), 0);
}

#[test]
fn date_map_ymd_hash_day_difference() {
    let date_a = UtcDate::utc_ymdh(2010, 3, 4, 0).day_hash();
    let date_b = UtcDate::utc_ymdh(2010, 3, 14, 20).day_hash();
    let date_c = UtcDate::utc_ymdh(2011, 11, 24, 3).day_hash();
    let date_d = UtcDate::utc_ymdh(2056, 2, 3, 23).day_hash();

    assert_eq!(10 + date_a, date_b);
    assert_eq!(630 + date_a, date_c);
    assert_eq!(16772 + date_a, date_d);
    assert_eq!(620 + date_b, date_c);
    assert_eq!(16762 + date_b, date_d);
    assert_eq!(16142 + date_c, date_d);
}

#[test]
fn every_day_of_four_centuries_is_found_again() {
    let mut hash = UtcDate::utc_ymdh(1999, 12, 31, 0).day_hash();
    assert_eq!(-1, hash);
    for year in 2000..2400i16 {
        for month in 1..=12u8 {
            let leap = year % 4 == 0 && (year % 100 != 0 || year % 400 == 0);
            let days = match month {
                2 => {
                    if leap {
                        29
                    } else {
                        28
                    }
                }
                4 | 6 | 9 | 11 => 30,
                _ => 31,
            };
            for day in 1..=days {
                let date = UtcDate::utc_ymdh(year, month, day, 7);
                hash += 1;
                assert_eq!(hash, date.day_hash());
                assert_eq!(date, UtcDate::from_day_hash(hash, 7));
            }
        }
    }
}

#[test]
fn date_map_iter_empty_datemap() {
    let datemap = DateMap::<f32>::new();
    assert!(datemap.iter().next().is_none());
}

#[test]
fn single_push_and_iter_datemap() {
    let v = 3.1415;
    let date = UtcDate::utc_ymdh(2021, 12, 2, 6);

    let mut datemap = DateMap::new();
    datemap.push(date, v);

    let mut datemap_iter = datemap.iter();

    let item = datemap_iter.next().unwrap();
    assert_eq!(date, item.date);
    assert_eq!(v, *item.data);

    assert!(datemap_iter.next().is_none());
}

#[test]
fn multiple_push_and_iter_datemap() {
    let items = [
        (UtcDate::utc_ymdh(2021, 12, 2, 6), 3.1415927),
        (UtcDate::utc_ymdh(2021, 12, 2, 9), 1.231),
        (UtcDate::utc_ymdh(2021, 12, 3, 22), 100231.2),
        (UtcDate::utc_ymdh(2022, 2, 1, 0), 31.2),
        (UtcDate::utc_ymdh(2022, 12, 3, 22), 0.000122),
    ];

    let mut datemap = DateMap::new();
    for item in items {
        datemap.push(item.0, item.1);
    }

    let mut datemap_iter = datemap.iter();

    for real_item in items {
        let map_item = datemap_iter.next().unwrap();
        assert_eq!(real_item.0, map_item.date);
        assert_eq!(real_item.1, *map_item.data);
    }
    assert!(datemap_iter.next().is_none());
}

#[test]
fn values_are_yielded_by_day_whatever_the_order_of_their_coming() {
    let mut datemap = DateMap::new();
    datemap.push(UtcDate::utc_ymdh(2021, 12, 2, 6), 'a');
    datemap.push(UtcDate::utc_ymdh(2021, 12, 4, 1), 'b');
    datemap.push(UtcDate::utc_ymdh(2021, 12, 3, 9), 'c');
    datemap.push(UtcDate::utc_ymdh(2021, 12, 2, 3), 'd');
    let mut iter = datemap.iter();
    let mut seen = vec![];
    while let Some(item) = iter.next() {
        seen.push((item.date.day, item.date.hour, *item.data));
    }
    assert_eq!(vec![(2, 6, 'a'), (2, 3, 'd'), (3, 9, 'c'), (4, 1, 'b')], seen);
}

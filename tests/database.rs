use screen_name_db::accounts::{AccountTableCounts, AccountTable};
use screen_name_db::database::Database;
use screen_name_db::date::{date_to_day_id, day_id_to_date, Date, EPOCH_DAY_NUMBER};
use screen_name_db::error::Error;
use screen_name_db::screen_names::ScreenNameTableCounts;
use screen_name_db::table::{ReadOnly, Writeable};
use std::collections::HashMap;

fn date(y: i32, m: u32, d: u32) -> Date {
    Date::from_ymd(y, m, d).unwrap()
}

fn by_id(db: &Database<Writeable>, id: u64) -> HashMap<String, Vec<Date>> {
    db.lookup_by_user_id(id).unwrap().into_iter().collect()
}

#[test]
fn mod_insert() {
    let mut db = Database::<Writeable>::open();
    db.insert(123, "foo", vec![]).unwrap();
    db.insert(123, "bar", vec![]).unwrap();
    db.insert(456, "foo", vec![]).unwrap();
    db.insert(123, "foo", vec![]).unwrap();

    let mut expected_by_id = HashMap::new();
    expected_by_id.insert("foo".to_string(), vec![]);
    expected_by_id.insert("bar".to_string(), vec![]);

    let expected_pairs = vec![
        (123, "bar".to_string(), vec![]),
        (123, "foo".to_string(), vec![]),
        (456, "foo".to_string(), vec![]),
    ];

    let expected_counts = (
        AccountTableCounts {
            id_count: 2,
            pair_count: 3,
        },
        ScreenNameTableCounts {
            screen_name_count: 2,
            mapping_count: 3,
        },
    );

    assert_eq!(db.lookup_by_screen_name("foo").unwrap(), vec![123, 456]);
    assert_eq!(by_id(&db, 123), expected_by_id);
    assert_eq!(db.get_counts().unwrap(), expected_counts);
    assert_eq!(db.accounts.pairs().unwrap(), expected_pairs);

    db.accounts.compact_ranges().unwrap();

    assert_eq!(db.lookup_by_screen_name("foo").unwrap(), vec![123, 456]);
    assert_eq!(by_id(&db, 123), expected_by_id);
    assert_eq!(db.get_counts().unwrap(), expected_counts);
    assert_eq!(db.accounts.pairs().unwrap(), expected_pairs);
}

#[test]
fn mod_lookup_by_screen_name_prefix() {
    let mut db = Database::<Writeable>::open();
    db.insert(123, "foo", vec![]).unwrap();
    db.insert(123, "bar", vec![]).unwrap();
    db.insert(1000, "for", vec![]).unwrap();
    db.insert(1001, "baz", vec![]).unwrap();
    db.insert(1002, "follow", vec![]).unwrap();
    db.insert(1003, "FOR", vec![]).unwrap();

    let expected = vec![
        ("follow".to_string(), vec![1002]),
        ("foo".to_string(), vec![123]),
        ("for".to_string(), vec![1000, 1003]),
    ];

    assert_eq!(
        db.lookup_by_screen_name_prefix("fo", 128).unwrap(),
        expected
    );
}

#[test]
fn lookup_insert() {
    let mut db = Database::<Writeable>::open();
    db.insert(123, "foo", vec![]).unwrap();
    db.insert(123, "bar", vec![]).unwrap();
    db.insert(456, "foo", vec![]).unwrap();
    db.insert(123, "foo", vec![]).unwrap();

    let mut expected_by_id = HashMap::new();
    expected_by_id.insert("foo".to_string(), vec![]);
    expected_by_id.insert("bar".to_string(), vec![]);

    let expected_pairs = vec![
        (123, "bar".to_string(), vec![]),
        (123, "foo".to_string(), vec![]),
        (456, "foo".to_string(), vec![]),
    ];

    let counts = |db: &Database<Writeable>| {
        let (accounts, screen_names) = db.get_counts().unwrap();
        (accounts.pair_count, accounts.id_count, screen_names.screen_name_count)
    };

    assert_eq!(db.lookup_by_screen_name("foo").unwrap(), vec![123, 456]);
    assert_eq!(by_id(&db, 123), expected_by_id);
    assert_eq!(counts(&db), (3, 2, 2));
    assert_eq!(db.accounts.pairs().unwrap(), expected_pairs);

    db.accounts.compact_ranges().unwrap();

    assert_eq!(db.lookup_by_screen_name("foo").unwrap(), vec![123, 456]);
    assert_eq!(by_id(&db, 123), expected_by_id);
    assert_eq!(counts(&db), (3, 2, 2));
    assert_eq!(db.accounts.pairs().unwrap(), expected_pairs);
}

#[test]
fn lookup_returns_sorted_distinct_dates() {
    let mut db = Database::<Writeable>::open();
    let a = date(2020, 5, 1);
    let b = date(2019, 1, 2);
    let c = date(2021, 12, 31);
    db.insert(7, "Alice_1", vec![a, b, a, c, b]).unwrap();
    assert_eq!(db.lookup_by_user_id(7).unwrap(), vec![("Alice_1".to_string(), vec![b, a, c])]);
}

#[test]
fn split_and_repeated_inserts_give_the_union() {
    let a = date(2010, 1, 1);
    let b = date(2011, 2, 3);
    let c = date(2012, 4, 5);
    let mut once = Database::<Writeable>::open();
    once.insert(1, "x", vec![a, b, c]).unwrap();
    let mut split = Database::<Writeable>::open();
    split.insert(1, "x", vec![c, a]).unwrap();
    split.insert(1, "x", vec![b, a]).unwrap();
    split.insert(1, "x", vec![b, a]).unwrap();
    assert_eq!(once.lookup_by_user_id(1).unwrap(), split.lookup_by_user_id(1).unwrap());
    assert_eq!(split.lookup_by_user_id(1).unwrap(), vec![("x".to_string(), vec![a, b, c])]);
}

#[test]
fn screen_name_lookup_ignores_case() {
    let mut db = Database::<Writeable>::open();
    db.insert(5, "Foo", vec![]).unwrap();
    db.insert(6, "fOO", vec![]).unwrap();
    assert_eq!(db.lookup_by_screen_name("Foo").unwrap(), vec![5, 6]);
    assert_eq!(db.lookup_by_screen_name("foo").unwrap(), vec![5, 6]);
    assert_eq!(db.lookup_by_screen_name("FOO").unwrap(), vec![5, 6]);
    assert_eq!(db.lookup_by_screen_name("bar").unwrap(), Vec::<u64>::new());
}

#[test]
fn invalid_screen_name_is_refused() {
    let mut db = Database::<Writeable>::open();
    assert_eq!(
        db.insert(1, "no spaces", vec![]),
        Err(Error::InvalidScreenName("no spaces".to_string()))
    );
    assert_eq!(db.insert(1, "été", vec![]), Err(Error::InvalidScreenName("été".to_string())));
    assert_eq!(db.get_counts().unwrap().0.pair_count, 0);
    assert_eq!(db.get_counts().unwrap().1.screen_name_count, 0);
}

#[test]
fn date_outside_the_window_is_refused() {
    let mut db = Database::<Writeable>::open();
    let before = date(2006, 3, 20);
    assert_eq!(db.insert(1, "ok", vec![date(2007, 1, 1), before]), Err(Error::InvalidDay(-1)));
    let after = date(2185, 8, 25);
    assert_eq!(db.insert(1, "ok", vec![after]), Err(Error::InvalidDay(65536)));
    assert_eq!(db.get_counts().unwrap().0.pair_count, 0);
}

#[test]
fn removal_drifts_until_rebuild() {
    let mut db = Database::<Writeable>::open();
    db.insert(1, "Same", vec![]).unwrap();
    db.insert(2, "same", vec![]).unwrap();
    db.insert(2, "other", vec![]).unwrap();
    db.accounts.remove(1, "Same").unwrap();
    assert_eq!(db.lookup_by_screen_name("same").unwrap(), vec![1, 2]);
    db.rebuild_index().unwrap();
    assert_eq!(db.lookup_by_screen_name("same").unwrap(), vec![2]);
    assert_eq!(db.lookup_by_screen_name("other").unwrap(), vec![2]);
    let (_, index) = db.get_counts().unwrap();
    assert_eq!(index, ScreenNameTableCounts { screen_name_count: 2, mapping_count: 2 });
}

#[test]
fn compaction_keeps_the_range() {
    let mut db = Database::<Writeable>::open();
    let d1 = date(2010, 1, 1);
    let d2 = date(2012, 1, 1);
    let d3 = date(2014, 1, 1);
    let d4 = date(2016, 1, 1);
    db.insert(9, "many", vec![d3, d1, d4, d2]).unwrap();
    db.insert(9, "two", vec![d2, d1]).unwrap();
    db.insert(9, "one", vec![d3]).unwrap();
    db.accounts.compact_ranges().unwrap();
    let expected = vec![
        ("many".to_string(), vec![d1, d4]),
        ("one".to_string(), vec![d3]),
        ("two".to_string(), vec![d1, d2]),
    ];
    assert_eq!(db.lookup_by_user_id(9).unwrap(), expected);
    db.accounts.compact_ranges().unwrap();
    assert_eq!(db.lookup_by_user_id(9).unwrap(), expected);
}

#[test]
fn limited_lookup_keeps_recent_names() {
    let mut db = Database::<Writeable>::open();
    db.insert(3, "old", vec![date(2008, 1, 1)]).unwrap();
    db.insert(3, "new", vec![date(2008, 1, 1), date(2020, 6, 1)]).unwrap();
    db.insert(3, "none", vec![]).unwrap();
    let limited = db.limited_lookup_by_user_id(3, Some(date(2019, 1, 1))).unwrap();
    assert_eq!(limited, vec![("new".to_string(), vec![date(2008, 1, 1), date(2020, 6, 1)])]);
    let all = db.limited_lookup_by_user_id(3, None).unwrap();
    assert_eq!(all.len(), 3);
}

#[test]
fn date_counts_histogram() {
    let mut table = AccountTable::<Writeable>::open();
    let a = date(2010, 1, 1);
    let b = date(2011, 1, 1);
    table.insert(1, "x", vec![b, a]).unwrap();
    table.insert(2, "y", vec![a]).unwrap();
    table.insert(2, "z", vec![]).unwrap();
    assert_eq!(table.get_date_counts().unwrap(), vec![(a, 2), (b, 1)]);
    assert_eq!(table.validate_screen_names().unwrap(), vec![]);
}

#[test]
fn most_screen_names_ranks_accounts() {
    let mut table = AccountTable::<Writeable>::open();
    table.insert(1, "a", vec![]).unwrap();
    table.insert(2, "b", vec![]).unwrap();
    table.insert(2, "c", vec![]).unwrap();
    table.insert(2, "d", vec![]).unwrap();
    table.insert(3, "e", vec![]).unwrap();
    table.insert(3, "f", vec![]).unwrap();
    assert_eq!(
        table.get_most_screen_names(2).unwrap(),
        vec![
            (2, vec!["b".to_string(), "c".to_string(), "d".to_string()]),
            (3, vec!["e".to_string(), "f".to_string()]),
        ]
    );
    assert_eq!(table.get_most_screen_names(0).unwrap(), vec![]);
    assert_eq!(table.get_most_screen_names(10).unwrap().len(), 3);
}

#[test]
fn most_reused_ranks_screen_names() {
    let mut db = Database::<Writeable>::open();
    db.insert(1, "popular", vec![]).unwrap();
    db.insert(2, "Popular", vec![]).unwrap();
    db.insert(3, "POPULAR", vec![]).unwrap();
    db.insert(4, "rare", vec![]).unwrap();
    db.insert(5, "twice", vec![]).unwrap();
    db.insert(6, "twice", vec![]).unwrap();
    assert_eq!(
        db.screen_names.get_most_reused(2).unwrap(),
        vec![("popular".to_string(), vec![1, 2, 3]), ("twice".to_string(), vec![5, 6])]
    );
}

#[test]
fn prefix_lookup_respects_limit() {
    let mut db = Database::<Writeable>::open();
    db.insert(1, "aa", vec![]).unwrap();
    db.insert(2, "ab", vec![]).unwrap();
    db.insert(3, "ac", vec![]).unwrap();
    db.insert(4, "b", vec![]).unwrap();
    assert_eq!(
        db.lookup_by_screen_name_prefix("A", 2).unwrap(),
        vec![("aa".to_string(), vec![1]), ("ab".to_string(), vec![2])]
    );
    assert_eq!(db.lookup_by_screen_name_prefix("c", 5).unwrap(), vec![]);
}

#[test]
fn epoch_and_day_ids() {
    assert_eq!(date(2006, 3, 21).day_number, EPOCH_DAY_NUMBER);
    assert_eq!(date_to_day_id(&date(2006, 3, 21)), Ok(0));
    assert_eq!(date_to_day_id(&date(2006, 3, 22)), Ok(1));
    assert_eq!(date_to_day_id(&date(2185, 8, 24)), Ok(65535));
    assert_eq!(day_id_to_date(65535), date(2185, 8, 24));
    assert_eq!(day_id_to_date(365), date(2007, 3, 21));
    let d = date(2016, 2, 29);
    assert_eq!(day_id_to_date(date_to_day_id(&d).unwrap()), d);
    assert_eq!(d.ymd(), Some((2016, 2, 29)));
    assert_eq!(Date::from_ymd(2015, 2, 29), None);
}

#[test]
fn read_only_handle_opens_empty() {
    let db = Database::<ReadOnly>::open();
    assert!(db.accounts.is_read_only());
    assert_eq!(db.lookup_by_user_id(1).unwrap(), vec![]);
}

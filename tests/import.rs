use screen_name_db::database::Database;
use screen_name_db::date::Date;
use screen_name_db::import::{ScreenNameEntry, Session, UpdateMode};
use screen_name_db::table::Writeable;

fn date(y: i32, m: u32, d: u32) -> Date {
    Date::from_ymd(y, m, d).unwrap()
}

#[test]
fn entry_from_fields() {
    let entry = ScreenNameEntry::from_fields("123", "Foo", "1262304000").unwrap();
    assert_eq!(entry.id, 123);
    assert_eq!(entry.screen_name, "Foo");
    assert_eq!(entry.snapshots, vec![date(2010, 1, 1)]);
    assert_eq!(ScreenNameEntry::from_fields("12x", "Foo", "0"), None);
    assert_eq!(ScreenNameEntry::from_fields("1", "Foo", "zero"), None);
    assert_eq!(ScreenNameEntry::from_fields("1", "Foo", "-86400").unwrap().snapshots, vec![date(1969, 12, 31)]);
}

#[test]
fn session_groups_and_writes_ranges() {
    let mut session = Session::new();
    for (id, name, day) in [(1, "a", 1), (1, "a", 5), (2, "b", 3), (1, "a", 3), (1, "a", 5), (3, "bad name", 2)] {
        session.add_entry(&ScreenNameEntry {
            id,
            screen_name: name.to_string(),
            snapshots: vec![date(2010, 1, day)],
        });
    }
    let mut db = Database::<Writeable>::open();
    assert_eq!(session.update(&mut db, UpdateMode::Range), Ok(3));
    assert_eq!(db.lookup_by_user_id(1).unwrap(), vec![("a".to_string(), vec![date(2010, 1, 1), date(2010, 1, 5)])]);
    assert_eq!(db.lookup_by_user_id(2).unwrap(), vec![("b".to_string(), vec![date(2010, 1, 3)])]);
    assert_eq!(db.lookup_by_user_id(3).unwrap(), vec![]);

    let mut all = Database::<Writeable>::open();
    assert_eq!(session.update(&mut all, UpdateMode::All), Ok(3));
    assert_eq!(
        all.lookup_by_user_id(1).unwrap(),
        vec![("a".to_string(), vec![date(2010, 1, 1), date(2010, 1, 3), date(2010, 1, 5)])]
    );
}

#[test]
fn session_stops_on_unrepresentable_date() {
    let mut session = Session::new();
    session.add_entry(&ScreenNameEntry { id: 1, screen_name: "a".to_string(), snapshots: vec![date(2000, 1, 1)] });
    let mut db = Database::<Writeable>::open();
    assert_eq!(
        session.update(&mut db, UpdateMode::All),
        Err(screen_name_db::error::Error::InvalidDay(-2271))
    );
}

#[test]
fn session_passes_over_invalid_names_before_dates() {
    let mut session = Session::new();
    session.add_entry(&ScreenNameEntry { id: 1, screen_name: "not valid".to_string(), snapshots: vec![date(2000, 1, 1)] });
    session.add_entry(&ScreenNameEntry { id: 2, screen_name: "ok".to_string(), snapshots: vec![date(2010, 1, 1)] });
    let mut db = Database::<Writeable>::open();
    assert_eq!(session.update(&mut db, UpdateMode::All), Ok(2));
    assert_eq!(db.lookup_by_user_id(2).unwrap(), vec![("ok".to_string(), vec![date(2010, 1, 1)])]);
}

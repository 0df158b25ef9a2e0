use assert_fs::prelude::FileTouch;
use assert_fs::prelude::PathChild;
use keysync::schedule::Schedule;
use keysync::schedule::ValidationError;
use keysync::store::Database;
use keysync::store::StoreError;

/// Tests that schedule only excepts good data
#[test]
fn test_new_schedule() {
    Schedule::new(None, "budd", "foo", "bar").expect_err("Bad data should error");
    Schedule::new(None, "budd", "foo", "https://github.com").expect_err("Bad data should error");
    Schedule::new(None, "budd", "@daily", "bar").expect_err("Bad data should error");
    Schedule::new(Some(1), "budd", "@daily", "https://github.com").expect("Data should pass");
}

/// A bad cron expression is reported ahead of a bad URL.
#[test]
fn test_new_schedule_error_kinds() {
    let e = Schedule::new(None, "budd", "foo", "bar").unwrap_err();
    assert!(matches!(e, ValidationError::BadCron));
    let e = Schedule::new(None, "budd", "@daily", "bar").unwrap_err();
    assert!(matches!(e, ValidationError::BadUrl));
    let s = Schedule::new(Some(7), "budd", "@daily", "https://github.com").unwrap();
    assert_eq!(s.id, Some(7));
    assert_eq!(s.user, "budd");
    assert_eq!(s.cron, "@daily");
    assert_eq!(s.url, "https://github.com");
}

/// Tests that the db file is properly created
#[test]
fn test_db_creation() {
    let temp = assert_fs::TempDir::new().unwrap();
    Database::open_path(temp.path().join("file.db").to_str().unwrap())
        .expect("Should create the database file"); // No file the first time
    let db = temp.child("file2.db");
    db.touch().unwrap();
    Database::open_path(db.path().to_str().unwrap())
        .expect("Should setup database on empty file");
    let db_text = temp.child("file2.txt"); // Also try bad file ext
    db_text.touch().unwrap();
    Database::open_path(db.path().to_str().unwrap())
        .expect("Should setup database on empty file, even for text");
}

/// Tests that the db file is properly created
#[test]
fn test_add_schedule() {
    let temp = assert_fs::TempDir::new().unwrap();
    let mut db = Database::open_path(temp.path().join("file.db").to_str().unwrap())
        .expect("Should create the database file");
    assert!(db
        .add_schedule("budd", "@daily", "https://github.com")
        .expect("No problems here"));
    assert!(!db
        .add_schedule("budd", "@daily", "https://github.com")
        .expect("Duplicates! return false"));
    assert!(db
        .add_schedule("budd", "@monthly", "https://github.com")
        .expect("new data no problem"));
}

/// Tests that we can read the schedule that we have created
#[test]
fn test_get_schedule() {
    let temp = assert_fs::TempDir::new().unwrap();
    let mut db = Database::open_path(temp.path().join("file.db").to_str().unwrap())
        .expect("Should create the database file");
    assert!(db
        .add_schedule("budd", "@daily", "https://github.com")
        .expect("No problems here"));
    assert!(db
        .add_schedule("budd", "@monthly", "https://github.com")
        .expect("No problem"));

    assert_eq!(db.get_schedules().unwrap().len(), 2);

    assert!(db
        .add_schedule("budd", "@weekly", "https://github.com")
        .expect("No problem"));

    assert_eq!(db.get_schedules().unwrap().len(), 3);
}

/// Tests that we can remove the schedule and it will error if we remove too much
#[test]
fn test_remove_schedule() {
    let temp = assert_fs::TempDir::new().unwrap();
    let mut db = Database::open_path(temp.path().join("file.db").to_str().unwrap())
        .expect("Should create the database file");
    assert!(db
        .add_schedule("budd", "@daily", "https://github.com")
        .expect("No problems here"));
    assert!(db
        .add_schedule("budd", "@monthly", "https://github.com")
        .expect("No problem"));

    assert!(db
        .add_schedule("budd", "@weekly", "https://github.com")
        .expect("No problem"));

    assert_eq!(db.get_schedules().unwrap().len(), 3);

    for i in db.get_schedules().expect("Should get") {
        let int = i.id.unwrap();
        db.delete_schedule(int).expect("They exist so they should delete");
    }

    assert_eq!(db.get_schedules().unwrap().len(), 0);

    db.delete_schedule(0).expect("Can't remove when there are none");
}

/// A seeded store takes a triple once: the second identical add reports
/// `false` and the list still holds one row.
#[test]
fn test_store_add_once_scenario() {
    let temp = assert_fs::TempDir::new().unwrap();
    let mut db = Database::open_path(temp.path().join("seeded.db").to_str().unwrap()).unwrap();
    assert!(db
        .add_schedule("alice", "@daily", "https://github.com/alice.keys")
        .unwrap());
    assert!(!db
        .add_schedule("alice", "@daily", "https://github.com/alice.keys")
        .unwrap());
    let rows = db.get_schedules().unwrap();
    assert_eq!(rows.len(), 1);
    assert_eq!(rows[0].user, "alice");
    assert_eq!(rows[0].cron, "@daily");
    assert_eq!(rows[0].url, "https://github.com/alice.keys");
}

/// Validation failures never reach the file: a bad cron expression and a
/// bad URL are refused and nothing is stored.
#[test]
fn test_store_rejects_invalid() {
    let temp = assert_fs::TempDir::new().unwrap();
    let mut db = Database::open_path(temp.path().join("v.db").to_str().unwrap()).unwrap();
    let e = db.add_schedule("budd", "not-cron", "https://github.com").unwrap_err();
    assert!(matches!(e, StoreError::Invalid(ValidationError::BadCron)));
    let e = db.add_schedule("budd", "@daily", "not a url").unwrap_err();
    assert!(matches!(e, StoreError::Invalid(ValidationError::BadUrl)));
    assert_eq!(db.get_schedules().unwrap().len(), 0);
}

/// Jobs are built only from rows whose cron and URL parse, binding each
/// row's fields by value.
#[test]
fn test_build_jobs_skips_invalid() {
    let good = Schedule::new(Some(1), "alice", "@daily", "https://github.com/alice.keys").unwrap();
    let bad = Schedule {
        id: Some(2),
        user: "bob".to_owned(),
        cron: "nonsense".to_owned(),
        url: "https://github.com/bob.keys".to_owned(),
    };
    let jobs = keysync::daemon::build_jobs(&vec![good, bad]);
    assert_eq!(jobs.len(), 1);
    assert_eq!(jobs[0].user, "alice");
    assert_eq!(jobs[0].cron, "@daily");
    assert_eq!(jobs[0].url, "https://github.com/alice.keys");
}

/// The display line has the exact bracketed form, with and without an id.
#[test]
fn test_schedule_display_string() {
    let s = Schedule::new(Some(42), "budd", "@daily", "https://github.com").unwrap();
    assert_eq!(
        s.display_string(),
        "[id: 42, user: budd, cron: @daily, url: https://github.com]"
    );
    let s = Schedule::new(None, "budd", "@daily", "https://github.com").unwrap();
    assert_eq!(
        s.display_string(),
        "[user: budd, cron: @daily, url: https://github.com]"
    );
    assert_eq!(keysync::schedule::u32_to_string(0), "0");
    assert_eq!(keysync::schedule::u32_to_string(4294967295), "4294967295");
}

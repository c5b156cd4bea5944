use caterer::search::search;
use caterer::SearchError;
use rusqlite::Connection;

fn open_catalog() -> Connection {
    let db = Connection::open_in_memory().unwrap();
    rusqlite::vtab::array::load_module(&db).unwrap();
    db.execute_batch(
        "BEGIN;
        CREATE TABLE shows (
            id             INTEGER PRIMARY KEY,
            title          TEXT,
            title_type     TEXT,
            start_year     TEXT,
            genres         TEXT,
            rating         TEXT,
            parent_show_id INTEGER
        );
        CREATE TABLE peeps (
            id     INTEGER PRIMARY KEY,
            name   TEXT,
            born   TEXT
        );
        CREATE TABLE principals (
            id INTEGER PRIMARY KEY AUTOINCREMENT,
            peep_id     INTEGER NOT NULL,
            show_id     INTEGER NOT NULL,
            category    TEXT,
            job         TEXT
        );
        COMMIT;",
    )
    .unwrap();
    db
}

fn add_show(db: &Connection, id: i64, title: &str, rating: Option<&str>) {
    db.execute(
        "INSERT INTO shows (id, title, title_type, start_year, genres, rating) VALUES (?1, ?2, ?3, ?4, ?5, ?6)",
        (id, title, "movie", "2000", "Drama", rating),
    )
    .unwrap();
}

fn add_peep(db: &Connection, id: i64, name: &str) {
    db.execute(
        "INSERT INTO peeps (id, name, born) VALUES (?1, ?2, ?3)",
        (id, name, "1970"),
    )
    .unwrap();
}

fn add_credit(db: &Connection, peep_id: i64, show_id: i64, category: &str, job: &str) {
    db.execute(
        "INSERT INTO principals (peep_id, show_id, category, job) VALUES (?1, ?2, ?3, ?4)",
        (peep_id, show_id, category, job),
    )
    .unwrap();
}

#[test]
fn three_work_catalog_ranks_shared_candidate() {
    let db = open_catalog();
    // Root A (tt1) with director Alice; root B (tt2) with composer Bob.
    // Candidate C (tt3) credits both; E (tt5) credits only Alice.
    // D (tt4) is fully disjoint and must not appear at all.
    add_show(&db, 1, "Root A", None);
    add_show(&db, 2, "Root B", Some("8.1"));
    add_show(&db, 3, "Candidate C", Some("7.0"));
    add_show(&db, 4, "Disjoint D", None);
    add_show(&db, 5, "Candidate E", None);
    add_peep(&db, 10, "Alice");
    add_peep(&db, 11, "Bob");
    add_peep(&db, 12, "Carol");
    add_credit(&db, 10, 1, "director", "\\N");
    add_credit(&db, 11, 2, "composer", "\\N");
    add_credit(&db, 10, 3, "director", "\\N");
    add_credit(&db, 11, 3, "composer", "\\N");
    add_credit(&db, 12, 4, "director", "\\N");
    add_credit(&db, 10, 5, "director", "\\N");

    let titles = vec!["tt1".to_string(), "tt2".to_string()];
    let outcome = match search(&db, &titles) {
        Ok(o) => o,
        Err(_) => panic!("search should succeed"),
    };
    assert_eq!(outcome.affinities.len(), 2);
    // C shares the director with A (50*50) and the composer with B
    // (60*60): 2500 + 3600 = 6100 weight-squared units.
    assert_eq!(outcome.affinities[0].show.id, 3);
    assert_eq!(outcome.affinities[0].score, 6_100_000_000u128);
    // E shares only the director with A.
    assert_eq!(outcome.affinities[1].show.id, 5);
    assert_eq!(outcome.affinities[1].score, 2_500_000_000u128);
    // D never appears.
    assert!(outcome.affinities.iter().all(|a| a.show.id != 4));
    assert!(outcome.skipped.is_empty());
}

#[test]
fn sub_work_resolution_and_proportion() {
    let db = open_catalog();
    // Root series tt1 with two episodes; Alice directs one episode.
    add_show(&db, 1, "Root Series", None);
    db.execute(
        "INSERT INTO shows (id, title, title_type, start_year, genres, parent_show_id) VALUES (?1, ?2, ?3, ?4, ?5, ?6)",
        (101i64, "Ep 1", "tvEpisode", "2000", "Drama", 1i64),
    )
    .unwrap();
    db.execute(
        "INSERT INTO shows (id, title, title_type, start_year, genres, parent_show_id) VALUES (?1, ?2, ?3, ?4, ?5, ?6)",
        (102i64, "Ep 2", "tvEpisode", "2000", "Drama", 1i64),
    )
    .unwrap();
    add_show(&db, 3, "Other Film", None);
    add_peep(&db, 10, "Alice");
    add_credit(&db, 10, 101, "director", "\\N");
    add_credit(&db, 10, 3, "director", "\\N");

    let titles = vec!["tt1".to_string()];
    let outcome = search(&db, &titles).ok().unwrap();
    // Alice directed 1 of 2 episodes: full weight (at least half).
    // Root-side score 50_000, candidate-side 50_000.
    assert_eq!(outcome.affinities.len(), 1);
    assert_eq!(outcome.affinities[0].show.id, 3);
    assert_eq!(outcome.affinities[0].score, 2_500_000_000u128);
    let credit = &outcome.affinities[0].credits[0];
    assert_eq!(credit.root_episode_count, 1);
    assert_eq!(credit.root_episode_total, 2);
}

#[test]
fn malformed_identifier_is_reported_before_store_access() {
    let db = open_catalog();
    let titles = vec!["ttx9".to_string()];
    match search(&db, &titles) {
        Err(SearchError::MalformedIdentifier(t)) => assert_eq!(t, "ttx9"),
        _ => panic!("expected a malformed-identifier error"),
    }
}

#[test]
fn missing_root_aborts_with_work_not_found() {
    let db = open_catalog();
    let titles = vec!["tt42".to_string()];
    match search(&db, &titles) {
        Err(SearchError::WorkNotFound(id)) => assert_eq!(id, 42),
        _ => panic!("expected a work-not-found error"),
    }
}

#[test]
fn unusable_store_reports_store_unavailable() {
    // No tables at all: the first query fails.
    let db = Connection::open_in_memory().unwrap();
    rusqlite::vtab::array::load_module(&db).unwrap();
    let titles = vec!["tt1".to_string()];
    match search(&db, &titles) {
        Err(SearchError::StoreUnavailable) => {}
        _ => panic!("expected a store-unavailable error"),
    }
}

//! Trusted boundary to the catalog store: a relational store holding
//! works, persons, and credit edges, reached through rusqlite. What a
//! query returns depends on what is in the store, so these wrappers
//! promise nothing about the rows; every function that consumes them
//! is verified for all possible rows.

use vstd::prelude::*;

use crate::show_tree::{CreditRow, ShowRow};

verus! {

/// The catalog store's connection handle.
#[verifier::external_type_specification]
#[verifier::external_body]
pub struct ExConnection(rusqlite::Connection);

/// The store failed to answer a query.
pub struct StoreError;

/// Relies on rusqlite's `Connection::query_row`: one work's base
/// attributes by identifier; `Ok(None)` when no row matches.
#[verifier::external_body]
pub(crate) fn query_show_row(db: &rusqlite::Connection, show_id: u64) -> (r: Result<
    Option<ShowRow>,
    StoreError,
>) {
    let q = db.query_row(
        "SELECT id, title, start_year, title_type, genres, rating FROM shows WHERE id=(?1);",
        [show_id as i64],
        |row| Ok(ShowRow {
            title: row.get(1)?, start_year: row.get(2)?, title_type: row.get(3)?,
            genres: row.get(4)?, rating: row.get(5)?,
        }),
    );
    match q {
        Ok(s) => Ok(Some(s)),
        Err(rusqlite::Error::QueryReturnedNoRows) => Ok(None),
        Err(_) => Err(StoreError),
    }
}

/// Relies on rusqlite's `Statement::query_map`: all work identifiers
/// whose parent is the given work.
#[verifier::external_body]
pub(crate) fn query_episode_ids(db: &rusqlite::Connection, show_id: u64) -> (r: Result<
    Vec<u64>,
    StoreError,
>) {
    let go = || -> rusqlite::Result<Vec<u64>> {
        let mut q = db.prepare(
            "SELECT id, parent_show_id FROM shows WHERE parent_show_id IN (?1);",
        )?;
        let rows = q.query_map([show_id as i64], |row| Ok(row.get::<_, i64>(0)? as u64))?;
        rows.collect()
    };
    go().map_err(|_| StoreError)
}

/// Relies on rusqlite's `Statement::query_map`: all credit edges on
/// the given work, joined to the person's display name.
#[verifier::external_body]
pub(crate) fn query_direct_credits(db: &rusqlite::Connection, show_id: u64) -> (r: Result<
    Vec<CreditRow>,
    StoreError,
>) {
    let go = || -> rusqlite::Result<Vec<CreditRow>> {
        let mut q = db.prepare(
            "SELECT principals.peep_id, principals.show_id, principals.category, principals.job, peeps.name FROM principals JOIN peeps ON principals.peep_id = peeps.id WHERE principals.show_id IN (?1);",
        )?;
        let rows = q.query_map([show_id as i64], |row| Ok(CreditRow {
            peep_id: row.get::<_, i64>(0)? as u64,
            category: row.get(2)?, job: row.get(3)?, name: row.get(4)?,
        }))?;
        rows.collect()
    };
    go().map_err(|_| StoreError)
}

/// Relies on rusqlite's `Statement::query_map` with the `rarray`
/// table-valued function: all credit edges on any of the given works,
/// joined to the person's display name.
#[verifier::external_body]
pub(crate) fn query_subwork_credits(db: &rusqlite::Connection, ids: &Vec<u64>) -> (r: Result<
    Vec<CreditRow>,
    StoreError,
>) {
    let arr: std::rc::Rc<Vec<rusqlite::types::Value>> = std::rc::Rc::new(
        ids.iter().map(|i| rusqlite::types::Value::from(*i as i64)).collect(),
    );
    let go = || -> rusqlite::Result<Vec<CreditRow>> {
        let mut q = db.prepare(
            "SELECT principals.peep_id, principals.show_id, principals.category, principals.job, peeps.name FROM principals JOIN peeps ON principals.peep_id = peeps.id WHERE principals.show_id IN rarray(?1);",
        )?;
        let rows = q.query_map([&arr], |row| Ok(CreditRow {
            peep_id: row.get::<_, i64>(0)? as u64,
            category: row.get(2)?, job: row.get(3)?, name: row.get(4)?,
        }))?;
        rows.collect()
    };
    go().map_err(|_| StoreError)
}

/// Relies on rusqlite's `Statement::query_map` with the `rarray`
/// table-valued function: the work identifiers of every credit edge
/// whose person identifier is in the given set.
#[verifier::external_body]
pub(crate) fn query_personnel_works(db: &rusqlite::Connection, peep_ids: &Vec<u64>) -> (r: Result<
    Vec<u64>,
    StoreError,
>) {
    let arr: std::rc::Rc<Vec<rusqlite::types::Value>> = std::rc::Rc::new(
        peep_ids.iter().map(|i| rusqlite::types::Value::from(*i as i64)).collect(),
    );
    let go = || -> rusqlite::Result<Vec<u64>> {
        let mut q = db.prepare(
            "SELECT principals.show_id, principals.peep_id FROM principals JOIN peeps ON principals.peep_id = peeps.id WHERE principals.peep_id IN rarray(?1);",
        )?;
        let rows = q.query_map([&arr], |row| Ok(row.get::<_, i64>(0)? as u64))?;
        rows.collect()
    };
    go().map_err(|_| StoreError)
}

/// Relies on rusqlite's `Connection::query_row`: a work's parent
/// identifier; `Ok(None)` when the work does not exist, `Ok(Some(None))`
/// when it has no parent.
#[verifier::external_body]
pub(crate) fn query_parent(db: &rusqlite::Connection, show_id: u64) -> (r: Result<
    Option<Option<u64>>,
    StoreError,
>) {
    let q = db.query_row(
        "SELECT id, parent_show_id FROM shows WHERE id=(?1);",
        [show_id as i64],
        |row| row.get::<_, Option<i64>>(1),
    );
    match q {
        Ok(p) => Ok(Some(p.map(|x| x as u64))),
        Err(rusqlite::Error::QueryReturnedNoRows) => Ok(None),
        Err(_) => Err(StoreError),
    }
}

} // verus!

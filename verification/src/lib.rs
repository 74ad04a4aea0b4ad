//! A verified core for a small administrative vocabulary service.
//!
//! The service manages two related record types, languages and the
//! vocabulary entries belonging to them, behind a list/create/update/delete
//! surface per type. This crate holds everything the service decides:
//! the store model with its integrity rules, the validation of incoming
//! bodies, the scoping of updates and deletes by identifier, and the order
//! of listings. The surrounding process — HTTP, the database driver, JSON
//! framing — only moves plain values in and out of these functions.

use vstd::prelude::*;

pub mod db;
pub mod models;
pub mod order;
pub mod routes;

use crate::db::Store;

verus! {

/// Assembles the state the request handlers operate on: an empty,
/// well-formed store with both identifier counters at their starting value.
pub fn rocket() -> (s: Store)
    ensures
        s.wf(),
        s.languages@ =~= Seq::<crate::models::Language>::empty(),
        s.vocabulary@ =~= Seq::<crate::models::VocabularyEntry>::empty(),
        s.next_language_id == 1,
        s.next_word_id == 1,
{
    Store::new()
}

} // verus!

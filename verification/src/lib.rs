//! A store of notes: a tree of notebooks, the notes in them, tags, search and
//! backlinks. The store is held in memory as four tables of rows; every
//! operation keeps the constraints between them, and its contract says what
//! it returns and how it changes the store.

pub mod db;
pub mod models;
pub mod notebooks;
pub mod notes;
pub mod order;
pub mod search;
pub mod seqs;
pub mod store;
pub mod tags;
pub mod text;
pub mod tree;

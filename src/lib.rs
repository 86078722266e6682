//! Tier lists: items ranked into ordered tiers plus an unranked pool, with
//! the rule that every registered item lives in exactly one place, and the
//! conversion of a whole list to and from the rows of a relational store.

pub mod engine;
pub mod seq_facts;
pub mod store;
pub mod tierlist;

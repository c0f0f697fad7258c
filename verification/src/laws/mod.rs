//! What holds of the library as a whole.

pub mod additions;
pub mod caching;
pub mod complete;
pub mod directories;
pub mod entries;
pub mod goodbye_entries;
pub mod items;
pub mod layout;
pub mod lookup;
pub mod outcomes;
pub mod paths;
pub mod reading;
pub mod refusals;
pub mod steps;
pub mod tables;
pub mod tree;
pub mod views;
pub mod written;

//! Per-project memory: facts that are added, edited, listed, searched and curated.

pub mod asking;
pub mod changes;
pub mod clock;
pub mod commands;
pub mod config;
pub mod curating;
pub mod date;
pub mod editor;
pub mod fact;
pub mod form;
pub mod given;
pub mod id;
pub mod keeping;
pub mod layout;
pub mod measure;
pub mod number;
pub mod order;
pub mod output;
pub mod projects;
pub mod rank;
pub mod reading;
pub mod refusal;
pub mod report;
pub mod search;
pub mod session;
pub mod sheet;
pub mod showing;
pub mod store;
pub mod tally;
pub mod text;
pub mod words;
pub mod written;

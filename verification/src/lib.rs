//! Dated plain-text notes kept under version control: the path conventions of
//! the note tree, the statistics derived from checkbox markup, the scan for
//! unfinished tasks of earlier days, and the decisions of the synchronisation
//! and conflict workflow.

pub mod calendar;
pub mod config;
pub mod daily;
pub mod file_manager;
pub mod hierarchy;
pub mod past_tasks;
pub mod pattern;
pub mod stats;
pub mod store;
pub mod text;

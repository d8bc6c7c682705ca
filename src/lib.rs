//! Recurring-task scheduling: a catalog of tasks with repeat intervals, a
//! schedule of per-account due dates, and the reconciliation that keeps the
//! two aligned.
pub mod account;
pub mod catalog;
pub mod date;
pub mod jitter;
pub mod order;
pub mod reconcile;
pub mod schedule;

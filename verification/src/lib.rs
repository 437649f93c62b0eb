//! A declarative integration-test harness for SQL: directive comments in a
//! case file pick interceptors, interceptors rewrite the query before it is
//! run and the output after, and the outcome is held against the expectation
//! recorded in the file.

pub mod case;
pub mod context;
pub mod diff;
pub mod directive;
pub mod interceptor;
pub mod runner;
pub mod text;

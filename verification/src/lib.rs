use vstd::prelude::*;

pub mod text;
pub mod command;
pub mod config;
pub mod parser;
pub mod demo;
pub mod report;
pub mod watch;
pub mod chain;
pub mod engine;
pub mod tally;

verus! {
}

//! Byte sizes with unit suffixes, and the bookkeeping of one compression
//! benchmark run.

pub mod byte_size;
pub mod command;
pub mod decimal;
pub mod display;
pub mod grammar;
pub mod report;
pub mod round_trip;
pub mod runner;
pub mod text;
pub mod unit;

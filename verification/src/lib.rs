//! Spike-in normalisation of a batch of coverage tracks.
//!
//! The library derives one scaling factor per sample from spike-in read
//! counts, makes sure that each factor is handed on as a numeral that denotes
//! it, divides the machine's parallel slots among the conversion tasks, builds
//! the argument list of each conversion command, follows the run of the
//! conversions to its verdict, and lays out the file that records the factors.
//! Reading files, printing numbers and starting processes is left to the
//! caller.

pub mod binary64;
pub mod dispatch;
pub mod factors;
pub mod natural;
pub mod numeral;
pub mod planner;
pub mod run;
pub mod scale;
pub mod writer;

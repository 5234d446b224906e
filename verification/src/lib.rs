//! Streaming quality-control statistics for sequencing reads.
//!
//! Reads are fed one at a time to an [`Aggregator`], which keeps running
//! totals by position and by value and is finally turned into a [`Report`].
//! Every total is specified as a [`tally`] of a [`Metric`] over the reads
//! seen so far, and every ratio is kept exact as a pair of integers.

pub mod read;
pub mod metric;
pub mod report;
pub mod aggregator;
pub mod reader;
pub mod cli;
pub mod laws;

pub use crate::read::Read;
pub use crate::metric::{Metric, contribution, tally};
pub use crate::report::{Ratio, Percent, Overrepresented, Report};
pub use crate::aggregator::{Aggregator, Slot};
pub use crate::reader::{analyze_fastq, estimated_bytes};
pub use crate::cli::{Args, Format};

//! Screening assembled contigs against a reference database: the query text
//! handed to the aligner, the reading of its twelve-column tabular output into
//! hits, the metrics derived from each hit (coverage percent, coverage sketch,
//! gene name), and the canonical tab-separated report.
use vstd::prelude::*;

pub mod digits;
pub mod fields;
pub mod decimal;
pub mod hit;
pub mod store;
pub mod fasta;
pub mod metrics;
pub mod enrich;
pub mod report;
pub mod laws;

verus! {

} // verus!

//! Per-key min/mean/max aggregation over `key;value` lines, split into
//! line-aligned partitions that are parsed independently and merged.
use vstd::prelude::*;

pub mod aggregate;
pub mod value;
pub mod lines;
pub mod partition;
pub mod table;
pub mod chunk;
pub mod schedule;
pub mod report;

use crate::chunk::{all_lines_ok, ParseError};
use crate::lines::lines;
use crate::report::{lemma_describes_summaries, line_summaries, render, report_text};
use crate::schedule::aggregate;

verus! {

/// Aggregates the buffer over at most `parts` partitions and renders the report.
/// Fails exactly when some line has a separator but no valid value; the text does
/// not depend on `parts`.
pub fn summarize(buf: &[u8], parts: usize) -> (r: Result<Vec<u8>, ParseError>)
    requires
        parts >= 1,
        buf.len() < usize::MAX,
    ensures
        r.is_ok() == all_lines_ok(lines(buf@)),
        r matches Ok(out) ==> out@ == report_text(line_summaries(lines(buf@))),
{
    match aggregate(buf, parts) {
        Ok(t) => {
            proof {
                lemma_describes_summaries(t@, lines(buf@));
            }
            Ok(render(&t))
        },
        Err(e) => Err(e),
    }
}

} // verus!

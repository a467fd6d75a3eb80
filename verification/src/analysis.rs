//! The reconstruction of an image in one run: the classified header
//! table, the partition of the data area, and the bytes that were
//! recovered outside the written parts of live blocks.

use vstd::prelude::*;
use crate::classify::SentinelRule;
use crate::error::{Diagnostic, HeaderError};
use crate::headers::{reconstruct, Headers};
use crate::layout::MAX_IMAGE_LEN;
use crate::residual::{freed_cells, overlay_of};
use crate::segment::{segment_allocations, segmentation, segmentation_findings, Segment};

verus! {

/// What the reconstruction of an image recovers.
pub struct Analysis {
    /// The classified header table.
    pub headers: Headers,
    /// The partition of the data area.
    pub segments: Vec<Segment>,
    /// The recovered bytes, by offset.
    pub cells: Vec<Option<u8>>,
}

/// Reconstructs an image: the header table is decoded and classified, the
/// data area is partitioned, and the bytes outside the written parts of
/// live blocks are recorded. A hard error ends the run and leaves
/// `diagnostics` as it was; otherwise the findings of the segmentation are
/// appended to it.
pub fn analyse(
    rule: SentinelRule,
    form: &[u8],
    diagnostics: &mut Vec<Diagnostic>,
) -> (r: Result<Analysis, HeaderError>)
    requires
        form@.len() <= MAX_IMAGE_LEN,
    ensures
        match reconstruct(rule, form@) {
            Err(e) => r == Err::<Analysis, HeaderError>(e) && final(diagnostics)@ == old(
                diagnostics,
            )@,
            Ok((parsed, used)) => {
                &&& r is Ok
                &&& r->Ok_0.headers.headers@ == parsed
                &&& r->Ok_0.headers.used == used
                &&& r->Ok_0.headers.wf()
                &&& r->Ok_0.headers.within(form@.len() as int)
                &&& r->Ok_0.segments@ == segmentation(parsed.take(used), form@.len() as int)
                &&& r->Ok_0.cells@ == overlay_of(form@, r->Ok_0.segments@)
                &&& final(diagnostics)@ == old(diagnostics)@ + segmentation_findings(
                    parsed.take(used),
                    form@.len() as int,
                )
            },
        },
{
    let headers = match Headers::from_form_by(rule, form) {
        Err(e) => {
            return Err(e);
        },
        Ok(headers) => headers,
    };
    let segments = segment_allocations(&headers, form.len() as u16, diagnostics);
    let cells = freed_cells(form, &segments);
    Ok(Analysis { headers, segments, cells })
}

} // verus!

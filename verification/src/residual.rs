//! The residual consistency check: text that is expected in the bytes
//! that no live block holds is compared with what the segmentation
//! recovered there.

use vstd::prelude::*;
use vstd::math::min;
use vstd::slice::{slice_subrange, slice_to_vec};
use crate::segment::{Segment, State};

verus! {

/// Text that is expected at an offset of the image.
#[derive(Clone, Debug, PartialEq, Eq)]
pub struct Expectation {
    /// Offset of the first byte.
    pub offset: usize,
    /// The expected bytes.
    pub text: Vec<u8>,
}

/// The first byte at which recovered bytes differ from an expectation.
#[derive(Clone, Debug, PartialEq, Eq)]
pub struct ResidualMismatch {
    /// Offset of the expectation that fails.
    pub offset: usize,
    /// Index of the differing byte in the expected text.
    pub index: usize,
    /// The expected text.
    pub expected: Vec<u8>,
    /// The bytes of the image in the window of the expectation; the window
    /// is cut at the end of the image.
    pub raw: Vec<u8>,
    /// The recovered bytes in the same window.
    pub overlay: Vec<Option<u8>>,
}

/// Where a list of expectations is not well-formed JSON of the expected
/// structure.
#[derive(Clone, Copy, Debug, PartialEq, Eq, Structural)]
pub struct MalformedExpectations {
    /// One-based line at which the fault was detected.
    pub line: usize,
    /// Column at which the fault was detected.
    pub column: usize,
}

/// Whether the byte at `at` was recovered: a segment that is not the
/// written part of a live block covers it.
pub open spec fn recovered(segments: Seq<Segment>, at: int) -> bool {
    exists|k: int|
        0 <= k < segments.len() && (#[trigger] segments[k]).state != State::Alloc
            && segments[k].start <= at < segments[k].end
}

/// The recovered bytes of an image, by offset: the byte of the image where
/// it was recovered, nothing elsewhere.
pub open spec fn overlay_of(image: Seq<u8>, segments: Seq<Segment>) -> Seq<Option<u8>> {
    Seq::new(
        image.len(),
        |at: int|
            if recovered(segments, at) {
                Some(image[at])
            } else {
                None
            },
    )
}

/// Whether byte `i` of an expectation differs from a recovered byte. Where
/// nothing was recovered, or the image has ended, nothing differs.
pub open spec fn differs(overlay: Seq<Option<u8>>, offset: int, text: Seq<u8>, i: int) -> bool {
    &&& 0 <= i < text.len()
    &&& offset + i < overlay.len()
    &&& overlay[offset + i] matches Some(b) && b != text[i]
}

/// The index of the first byte from `from` on that differs, or the length
/// of the text where none does.
pub open spec fn first_difference(
    overlay: Seq<Option<u8>>,
    offset: int,
    text: Seq<u8>,
    from: int,
) -> int
    decreases text.len() - from,
{
    if from >= text.len() {
        text.len() as int
    } else if differs(overlay, offset, text, from) {
        from
    } else {
        first_difference(overlay, offset, text, from + 1)
    }
}

/// Whether no byte of the expectation differs from a recovered byte.
pub open spec fn agrees(overlay: Seq<Option<u8>>, expectation: Expectation) -> bool {
    first_difference(overlay, expectation.offset as int, expectation.text@, 0)
        == expectation.text@.len()
}

/// The index of the first expectation from `from` on with a byte that
/// differs, or the number of expectations where there is none.
pub open spec fn first_disagreeing(
    overlay: Seq<Option<u8>>,
    expectations: Seq<Expectation>,
    from: int,
) -> int
    decreases expectations.len() - from,
{
    if from >= expectations.len() {
        expectations.len() as int
    } else if !agrees(overlay, expectations[from]) {
        from
    } else {
        first_disagreeing(overlay, expectations, from + 1)
    }
}

/// The part of `s` in the window of `len` places at `offset`, cut at the
/// end of `s`.
pub open spec fn window<T>(s: Seq<T>, offset: int, len: int) -> Seq<T> {
    s.subrange(min(offset, s.len() as int), min(offset + len, s.len() as int))
}

/// `first_difference` names a byte that differs, before which, from `from`
/// on, none does, or the length of the text where none does.
pub proof fn lemma_first_difference(
    overlay: Seq<Option<u8>>,
    offset: int,
    text: Seq<u8>,
    from: int,
)
    requires
        0 <= from <= text.len(),
    ensures
        from <= first_difference(overlay, offset, text, from) <= text.len(),
        forall|i: int|
            from <= i < first_difference(overlay, offset, text, from) ==> !differs(
                overlay,
                offset,
                text,
                i,
            ),
        first_difference(overlay, offset, text, from) < text.len() ==> differs(
            overlay,
            offset,
            text,
            first_difference(overlay, offset, text, from),
        ),
    decreases text.len() - from,
{
    if from < text.len() && !differs(overlay, offset, text, from) {
        lemma_first_difference(overlay, offset, text, from + 1);
    }
}

/// `first_disagreeing` names an expectation with a byte that differs,
/// before which, from `from` on, every expectation agrees, or the number of
/// expectations where all agree.
pub proof fn lemma_first_disagreeing(
    overlay: Seq<Option<u8>>,
    expectations: Seq<Expectation>,
    from: int,
)
    requires
        0 <= from <= expectations.len(),
    ensures
        from <= first_disagreeing(overlay, expectations, from) <= expectations.len(),
        forall|k: int|
            from <= k < first_disagreeing(overlay, expectations, from) ==> agrees(
                overlay,
                #[trigger] expectations[k],
            ),
        first_disagreeing(overlay, expectations, from) < expectations.len() ==> !agrees(
            overlay,
            expectations[first_disagreeing(overlay, expectations, from)],
        ),
    decreases expectations.len() - from,
{
    if from < expectations.len() && agrees(overlay, expectations[from]) {
        lemma_first_disagreeing(overlay, expectations, from + 1);
    }
}

/// Records the bytes of the image that the segments recovered: every byte
/// inside the image that a segment other than the written part of a live
/// block covers.
pub fn freed_cells(image: &[u8], segments: &Vec<Segment>) -> (cells: Vec<Option<u8>>)
    ensures
        cells@ == overlay_of(image@, segments@),
{
    let total: usize = image.len();
    let mut cells: Vec<Option<u8>> = Vec::new();
    let mut n: usize = 0;
    while n < total
        invariant
            n <= total,
            cells@.len() == n,
            forall|at: int| 0 <= at < n ==> cells@[at] is None,
        decreases total - n,
    {
        cells.push(None);
        n += 1;
    }
    let mut k: usize = 0;
    while k < segments.len()
        invariant
            k <= segments.len(),
            total == image@.len(),
            cells@.len() == total,
            forall|at: int|
                0 <= at < total ==> #[trigger] cells@[at] == (if recovered(
                    segments@.take(k as int),
                    at,
                ) {
                    Some(image@[at])
                } else {
                    None
                }),
        decreases segments.len() - k,
    {
        let segment = segments[k];
        let ghost done = segments@.take(k as int);
        let ghost grown = segments@.take(k + 1);
        let covers = match segment.state {
            State::Alloc => false,
            _ => true,
        };
        let from: usize = if (segment.start as usize) < total {
            segment.start as usize
        } else {
            total
        };
        let to: usize = if !covers {
            from
        } else if (segment.end as usize) < total {
            segment.end as usize
        } else {
            total
        };
        let mut at: usize = from;
        while at < to
            invariant
                from <= at,
                at <= to || at == from,
                to <= total,
                total == image@.len(),
                cells@.len() == total,
                forall|p: int|
                    0 <= p < total ==> #[trigger] cells@[p] == (if recovered(done, p) || from <= p
                        < at {
                        Some(image@[p])
                    } else {
                        None
                    }),
            decreases to - at,
        {
            cells.set(at, Some(image[at]));
            at += 1;
        }
        proof {
            assert forall|p: int| 0 <= p < total implies (recovered(grown, p) <==> recovered(
                done,
                p,
            ) || from <= p < at) by {
                if recovered(done, p) {
                    let j = choose|j: int|
                        0 <= j < done.len() && (#[trigger] done[j]).state != State::Alloc
                            && done[j].start <= p < done[j].end;
                    assert(grown[j] == done[j]);
                }
                if from <= p < at {
                    assert(grown[k as int] == segment);
                }
                if recovered(grown, p) {
                    let j = choose|j: int|
                        0 <= j < grown.len() && (#[trigger] grown[j]).state != State::Alloc
                            && grown[j].start <= p < grown[j].end;
                    if j < k {
                        assert(done[j] == grown[j]);
                    }
                }
            }
        }
        k += 1;
    }
    proof {
        assert(segments@.take(k as int) =~= segments@);
        assert(cells@ =~= overlay_of(image@, segments@));
    }
    cells
}

/// The index of the first byte of an expectation that differs from a
/// recovered byte, if one does.
pub fn find_difference(overlay: &Vec<Option<u8>>, expectation: &Expectation) -> (r: Option<usize>)
    ensures
        r is None <==> agrees(overlay@, *expectation),
        r matches Some(i) ==> i == first_difference(
            overlay@,
            expectation.offset as int,
            expectation.text@,
            0,
        ),
{
    let offset: usize = expectation.offset;
    let total: usize = overlay.len();
    let mut i: usize = 0;
    while i < expectation.text.len()
        invariant
            i <= expectation.text@.len(),
            offset == expectation.offset,
            total == overlay@.len(),
            first_difference(overlay@, offset as int, expectation.text@, i as int)
                == first_difference(overlay@, offset as int, expectation.text@, 0),
        decreases expectation.text.len() - i,
    {
        if offset < total && i < total - offset {
            match overlay[offset + i] {
                Some(b) => {
                    if b != expectation.text[i] {
                        return Some(i);
                    }
                },
                None => {},
            }
        }
        i += 1;
    }
    None
}

/// Compares every expectation with the recovered bytes, in the order of
/// the list, and fails at the first byte that was recovered and differs.
/// A byte that was not recovered, or that lies past the end of the image,
/// is passed over. The failure carries the expected text and the bytes of
/// the image and of the recovered bytes in its window.
pub fn check_residual(
    image: &[u8],
    overlay: &Vec<Option<u8>>,
    expectations: &Vec<Expectation>,
) -> (r: Result<(), ResidualMismatch>)
    ensures
        r is Ok <==> first_disagreeing(overlay@, expectations@, 0) == expectations@.len(),
        r matches Err(m) ==> {
            let failing = expectations@[first_disagreeing(overlay@, expectations@, 0)];
            &&& m.offset == failing.offset
            &&& m.index == first_difference(overlay@, failing.offset as int, failing.text@, 0)
            &&& m.expected@ == failing.text@
            &&& m.raw@ == window(image@, failing.offset as int, failing.text@.len() as int)
            &&& m.overlay@ == window(overlay@, failing.offset as int, failing.text@.len() as int)
        },
{
    let mut k: usize = 0;
    while k < expectations.len()
        invariant
            k <= expectations.len(),
            first_disagreeing(overlay@, expectations@, k as int) == first_disagreeing(
                overlay@,
                expectations@,
                0,
            ),
        decreases expectations.len() - k,
    {
        let expectation = &expectations[k];
        match find_difference(overlay, expectation) {
            Some(index) => {
                let len: usize = expectation.text.len();
                return Err(
                    ResidualMismatch {
                        offset: expectation.offset,
                        index,
                        expected: slice_to_vec(expectation.text.as_slice()),
                        raw: cut(image, expectation.offset, len),
                        overlay: cut(overlay.as_slice(), expectation.offset, len),
                    },
                );
            },
            None => {},
        }
        k += 1;
    }
    Ok(())
}

/// Copies the part of `s` in the window of `len` places at `offset`, cut at
/// the end of `s`.
pub fn cut<T: Copy>(s: &[T], offset: usize, len: usize) -> (part: Vec<T>)
    ensures
        part@ == window(s@, offset as int, len as int),
{
    let total: usize = s.len();
    let from: usize = if offset < total {
        offset
    } else {
        total
    };
    let to: usize = if len < total - from {
        from + len
    } else {
        total
    };
    slice_to_vec(slice_subrange(s, from, to))
}

} // verus!

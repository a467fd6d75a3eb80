//! The allocation segmenter: the classified headers of an image become
//! typed segments, and these are completed to a gapless partition of the
//! data area.

use vstd::prelude::*;
use vstd::arithmetic::power2::is_pow2;
use crate::classify::Header;
use crate::error::Diagnostic;
use crate::headers::Headers;
use crate::layout::{DATA_SIZE, HEADERS_SIZE, HEADER_COUNT};
use crate::partition::{
    apart, ascending, lemma_apart_no_overlaps, lemma_order_total, lemma_sorted_by_start,
    lemma_tiling_covers, lemma_tiling_keeps_items, lemma_tiling_tiles, order, overlaps, sorted,
    tile, tiles, tiling, Span,
};

verus! {

/// What the bytes of a segment are.
#[derive(Clone, Copy, Debug, PartialEq, Eq, Structural)]
pub enum State {
    /// Written bytes of a live block.
    Alloc,
    /// Bytes of a live block behind its write cursor.
    Slack,
    /// Bytes of a free block.
    KnownFreed,
    /// Bytes that no block header accounts for.
    Unknown,
}

/// A typed range of bytes of the image.
#[derive(Clone, Copy, Debug, PartialEq, Eq, Structural)]
pub struct Segment {
    /// Offset of the first byte.
    pub start: u16,
    /// Offset one past the last byte.
    pub end: u16,
    /// What the bytes are.
    pub state: State,
    /// Set on a free block that claims bytes past the end of the image;
    /// its text ends with the image.
    pub truncated: bool,
}

impl State {
    /// The place of a state in the order of segments that start and end
    /// alike.
    pub open spec fn rank(self) -> int {
        match self {
            State::Alloc => 0,
            State::Slack => 1,
            State::KnownFreed => 2,
            State::Unknown => 3,
        }
    }

    /// The place of a state in the order of segments that start and end
    /// alike.
    pub fn rank_of(self) -> (r: u8)
        ensures
            r == self.rank(),
    {
        match self {
            State::Alloc => 0,
            State::Slack => 1,
            State::KnownFreed => 2,
            State::Unknown => 3,
        }
    }
}

impl Span for Segment {
    open spec fn lo(&self) -> int {
        self.start as int
    }

    open spec fn hi(&self) -> int {
        self.end as int
    }

    /// Segments are ordered by their start, then by their end, then by
    /// their state, and last the untruncated before the truncated.
    open spec fn before(&self, other: &Self) -> bool {
        ||| self.start < other.start
        ||| self.start == other.start && self.end < other.end
        ||| self.start == other.start && self.end == other.end && self.state.rank()
            < other.state.rank()
        ||| self.start == other.start && self.end == other.end && self.state == other.state && (
        !self.truncated || other.truncated)
    }

    open spec fn gap_of(lo: int, hi: int) -> Self {
        Segment { start: lo as u16, end: hi as u16, state: State::Unknown, truncated: false }
    }

    open spec fn is_gap(&self) -> bool {
        self.state == State::Unknown
    }

    open spec fn overlap_of(start: int, covered: int) -> Diagnostic {
        Diagnostic::OverlappingAllocations { start: start as u16, covered: covered as u32 }
    }

    fn start(&self) -> (r: u16) {
        self.start
    }

    fn end(&self) -> (r: u32) {
        self.end as u32
    }

    fn precedes(&self, other: &Self) -> (b: bool) {
        if self.start != other.start {
            self.start < other.start
        } else if self.end != other.end {
            self.end < other.end
        } else if self.state.rank_of() != other.state.rank_of() {
            self.state.rank_of() < other.state.rank_of()
        } else {
            !self.truncated || other.truncated
        }
    }

    fn gap(lo: u16, hi: u16) -> (g: Self) {
        Segment { start: lo, end: hi, state: State::Unknown, truncated: false }
    }

    fn overlap(start: u16, covered: u32) -> (d: Diagnostic) {
        Diagnostic::OverlappingAllocations { start, covered }
    }

    proof fn lemma_order(a: Self, b: Self, c: Self) {
    }

    proof fn lemma_gap(lo: int, hi: int) {
    }
}

/// The segments that one classified header gives: the written part of a
/// live block, its slack where it has any, or a free block; a free block
/// that ends past the image is marked as truncated.
pub open spec fn pieces_of(h: Header, form_len: int) -> Seq<Segment> {
    match h {
        Header::Alloc { ptr, len, capacity } => {
            let written = Segment {
                start: ptr,
                end: (ptr + len) as u16,
                state: State::Alloc,
                truncated: false,
            };
            let slack = Segment {
                start: (ptr + len) as u16,
                end: (ptr + capacity) as u16,
                state: State::Slack,
                truncated: false,
            };
            if len != capacity {
                seq![written, slack]
            } else {
                seq![written]
            }
        },
        Header::Freed { ptr, capacity, .. } => seq![
            Segment {
                start: ptr,
                end: (ptr + capacity) as u16,
                state: State::KnownFreed,
                truncated: ptr + capacity > form_len,
            },
        ],
        Header::Unused { .. } => Seq::empty(),
    }
}

/// The segments that classified headers give, in the order of the headers.
pub open spec fn pieces(live: Seq<Header>, form_len: int) -> Seq<Segment>
    decreases live.len(),
{
    if live.len() == 0 {
        Seq::empty()
    } else {
        pieces(live.drop_last(), form_len) + pieces_of(live.last(), form_len)
    }
}

/// The findings on free blocks that claim bytes past the end of the image,
/// in the order of the segments.
pub open spec fn truncations(segments: Seq<Segment>) -> Seq<Diagnostic>
    decreases segments.len(),
{
    if segments.len() == 0 {
        Seq::empty()
    } else {
        let last = segments.last();
        let rest = truncations(segments.drop_last());
        if last.truncated {
            rest.push(Diagnostic::FreedPastImageEnd { start: last.start, end: last.end })
        } else {
            rest
        }
    }
}

/// The partition of the data area of an image of `form_len` bytes: the
/// segments of the headers in order, completed from the start of the data
/// area to the end of the image.
pub open spec fn segmentation(live: Seq<Header>, form_len: int) -> Seq<Segment> {
    tiling(pieces(live, form_len).sort_by(order::<Segment>()), HEADERS_SIZE as int, form_len)
}

/// The findings of the segmentation: first the free blocks past the end of
/// the image, in the order of the headers, then the overlaps, in the order
/// of the segments.
pub open spec fn segmentation_findings(live: Seq<Header>, form_len: int) -> Seq<Diagnostic> {
    truncations(pieces(live, form_len)) + overlaps(
        pieces(live, form_len).sort_by(order::<Segment>()),
        HEADERS_SIZE as int,
    )
}

/// The partition of the whole image: the header region as one segment of
/// unaccounted bytes, then the partition of the data area.
pub open spec fn image_segmentation(live: Seq<Header>, form_len: int) -> Seq<Segment> {
    seq![Segment { start: 0, end: HEADERS_SIZE, state: State::Unknown, truncated: false }]
        + segmentation(live, form_len)
}

/// Appends the segments of one classified header to `out`, and to
/// `diagnostics` the finding on a free block past the end of the image.
pub fn push_pieces(
    header: Header,
    form_len: u16,
    out: &mut Vec<Segment>,
    diagnostics: &mut Vec<Diagnostic>,
)
    requires
        header.wf(),
    ensures
        final(out)@ == old(out)@ + pieces_of(header, form_len as int),
        final(diagnostics)@ == old(diagnostics)@ + truncations(pieces_of(header, form_len as int)),
{
    let ghost added = pieces_of(header, form_len as int);
    proof {
        reveal_with_fuel(truncations, 3);
        if added.len() > 0 {
            assert(added.drop_last().len() == added.len() - 1);
        }
        if added.len() == 2 {
            assert(added.drop_last().drop_last().len() == 0);
        }
    }
    match header {
        Header::Alloc { ptr, len, capacity } => {
            out.push(Segment { start: ptr, end: ptr + len, state: State::Alloc, truncated: false });
            if len != capacity {
                out.push(
                    Segment {
                        start: ptr + len,
                        end: ptr + capacity,
                        state: State::Slack,
                        truncated: false,
                    },
                );
            }
        },
        Header::Freed { ptr, capacity, .. } => {
            let end = ptr + capacity;
            let truncated = end > form_len;
            out.push(Segment { start: ptr, end, state: State::KnownFreed, truncated });
            if truncated {
                diagnostics.push(Diagnostic::FreedPastImageEnd { start: ptr, end });
            }
        },
        Header::Unused { .. } => {},
    }
    assert(out@ =~= old(out)@ + added);
    assert(diagnostics@ =~= old(diagnostics)@ + truncations(added));
}

/// The findings on truncated segments of two runs of segments are those of
/// the first run, then those of the second.
pub proof fn lemma_truncations_add(a: Seq<Segment>, b: Seq<Segment>)
    ensures
        truncations(a + b) == truncations(a) + truncations(b),
    decreases b.len(),
{
    if b.len() == 0 {
        assert(a + b =~= a);
        assert(truncations(a) + truncations(b) =~= truncations(a));
    } else {
        assert((a + b).drop_last() =~= a + b.drop_last());
        assert((a + b).last() == b.last());
        lemma_truncations_add(a, b.drop_last());
        if b.last().truncated {
            assert(truncations(a + b) =~= truncations(a) + truncations(b));
        }
    }
}

/// There is no finding on truncated segments exactly where no segment is
/// truncated.
pub proof fn lemma_truncations_none(segments: Seq<Segment>)
    ensures
        truncations(segments).len() == 0 <==> forall|k: int|
            0 <= k < segments.len() ==> !(#[trigger] segments[k]).truncated,
    decreases segments.len(),
{
    if segments.len() > 0 {
        lemma_truncations_none(segments.drop_last());
        if truncations(segments).len() == 0 {
            assert forall|k: int| 0 <= k < segments.len() implies !(
            #[trigger] segments[k]).truncated by {
                if k < segments.len() - 1 {
                    assert(segments.drop_last()[k] == segments[k]);
                }
            }
        } else if !segments.last().truncated {
            let front = segments.drop_last();
            let k = choose|k: int| 0 <= k < front.len() && (#[trigger] front[k]).truncated;
            assert(segments[k].truncated);
        }
    }
}

/// A segment of well-formed headers lies in the data area, stands for
/// accounted bytes, and is marked as truncated exactly where it ends past
/// the image, which only a free block does where the live blocks end
/// inside the image.
pub proof fn lemma_pieces_bounds(live: Seq<Header>, form_len: int)
    requires
        forall|i: int| 0 <= i < live.len() ==> (#[trigger] live[i]).wf(),
    ensures
        forall|k: int|
            0 <= k < pieces(live, form_len).len() ==> {
                let p = #[trigger] pieces(live, form_len)[k];
                &&& HEADERS_SIZE <= p.start <= p.end <= HEADERS_SIZE + DATA_SIZE
                &&& p.state != State::Unknown
                &&& p.truncated ==> p.end > form_len
                &&& exists|i: int|
                    0 <= i < live.len() && pieces_of(#[trigger] live[i], form_len).contains(p)
            },
        (forall|i: int| 0 <= i < live.len() ==> (#[trigger] live[i]).within(form_len)) ==> forall|
            k: int,
        |
            0 <= k < pieces(live, form_len).len() ==> ((#[trigger] pieces(
                live,
                form_len,
            )[k]).truncated <==> pieces(live, form_len)[k].end > form_len),
    decreases live.len(),
{
    if live.len() > 0 {
        let front = live.drop_last();
        let all = pieces(live, form_len);
        let before = pieces(front, form_len);
        let added = pieces_of(live.last(), form_len);
        assert forall|i: int| 0 <= i < front.len() implies (#[trigger] front[i]).wf() by {
            assert(front[i] == live[i]);
        }
        lemma_pieces_bounds(front, form_len);
        assert forall|k: int| 0 <= k < all.len() implies {
            let p = #[trigger] all[k];
            &&& HEADERS_SIZE <= p.start <= p.end <= HEADERS_SIZE + DATA_SIZE
            &&& p.state != State::Unknown
            &&& p.truncated ==> p.end > form_len
            &&& exists|i: int|
                0 <= i < live.len() && pieces_of(#[trigger] live[i], form_len).contains(p)
        } by {
            let p = all[k];
            if k < before.len() {
                assert(p == before[k]);
                let i = choose|i: int|
                    0 <= i < front.len() && pieces_of(#[trigger] front[i], form_len).contains(p);
                assert(front[i] == live[i]);
            } else {
                assert(p == added[k - before.len()]);
                assert(live.last().wf());
                assert(pieces_of(live[live.len() - 1], form_len).contains(p));
            }
        }
        if forall|i: int| 0 <= i < live.len() ==> (#[trigger] live[i]).within(form_len) {
            assert forall|i: int| 0 <= i < front.len() implies (#[trigger] front[i]).within(
                form_len,
            ) by {
                assert(front[i] == live[i]);
            }
            assert forall|k: int| 0 <= k < all.len() implies ((#[trigger] all[k]).truncated
                <==> all[k].end > form_len) by {
                if k < before.len() {
                    assert(all[k] == before[k]);
                } else {
                    assert(all[k] == added[k - before.len()]);
                    assert(live.last().wf() && live.last().within(form_len));
                }
            }
        }
    }
}

/// Where the segmentation of well-formed headers, whose live blocks end
/// inside the image, yields no finding, its segments tile the data area
/// from its start to the end of the image.
pub proof fn lemma_segmentation_tiles(live: Seq<Header>, form_len: int)
    requires
        forall|i: int|
            0 <= i < live.len() ==> (#[trigger] live[i]).wf() && live[i].within(form_len),
        HEADERS_SIZE <= form_len <= u16::MAX,
        segmentation_findings(live, form_len).len() == 0,
    ensures
        tiles(segmentation(live, form_len), HEADERS_SIZE as int, form_len),
{
    let given = pieces(live, form_len);
    let ordered = given.sort_by(order::<Segment>());
    lemma_order_total::<Segment>();
    given.lemma_sort_by_ensures(order::<Segment>());
    lemma_sorted_by_start(ordered);
    lemma_pieces_bounds(live, form_len);
    lemma_truncations_none(given);
    assert forall|k: int| 0 <= k < ordered.len() implies HEADERS_SIZE <= (
    #[trigger] ordered[k]).start <= ordered[k].end <= form_len by {
        assert(ordered.contains(ordered[k]));
        assert(given.contains(ordered[k]));
        let j = choose|j: int| 0 <= j < given.len() && given[j] == ordered[k];
        assert(!given[j].truncated);
    }
    assert(ascending(ordered));
    lemma_tiling_tiles(ordered, HEADERS_SIZE as int, form_len);
}

/// Every byte of the data area lies in a segment of the segmentation,
/// whatever it finds.
pub proof fn lemma_segmentation_covers(live: Seq<Header>, form_len: int, at: int)
    requires
        HEADERS_SIZE <= at < form_len <= u16::MAX,
    ensures
        exists|k: int|
            0 <= k < segmentation(live, form_len).len() && (#[trigger] segmentation(
                live,
                form_len,
            )[k]).start <= at < segmentation(live, form_len)[k].end,
{
    let ordered = pieces(live, form_len).sort_by(order::<Segment>());
    lemma_tiling_covers(ordered, HEADERS_SIZE as int, form_len, at);
    let k = choose|k: int|
        0 <= k < tiling(ordered, HEADERS_SIZE as int, form_len).len() && (#[trigger] tiling(
            ordered,
            HEADERS_SIZE as int,
            form_len,
        )[k]).lo() <= at < tiling(ordered, HEADERS_SIZE as int, form_len)[k].hi();
    assert(segmentation(live, form_len)[k].start <= at < segmentation(live, form_len)[k].end);
}

/// Whether the blocks of the headers lie apart from each other.
pub open spec fn blocks_apart(live: Seq<Header>) -> bool {
    forall|i: int, j: int|
        0 <= i < j < live.len() ==> (#[trigger] live[i]).block_end() <= (
        #[trigger] live[j]).block_start() || live[j].block_end() <= live[i].block_start()
}

/// A segment of a well-formed header starts inside the header's block and
/// ends inside it or at its end.
pub proof fn lemma_piece_in_block(h: Header, form_len: int, p: Segment)
    requires
        h.wf(),
        pieces_of(h, form_len).contains(p),
    ensures
        !(h is Unused),
        h.block_start() <= p.start < h.block_end(),
        p.start <= p.end <= h.block_end(),
{
    reveal_with_fuel(is_pow2, 1);
    let given = pieces_of(h, form_len);
    let k = choose|k: int| 0 <= k < given.len() && given[k] == p;
    assert(given[k] == p);
}

/// Of two different segments that the same well-formed header gives, or
/// two well-formed headers whose blocks lie apart, the one that comes first
/// in the order ends before the other starts.
pub proof fn lemma_pieces_in_order(hx: Header, hy: Header, form_len: int, a: Segment, b: Segment)
    requires
        hx.wf(),
        hy.wf(),
        pieces_of(hx, form_len).contains(a),
        pieces_of(hy, form_len).contains(b),
        a != b,
        a.before(&b),
        hx == hy || hx.block_end() <= hy.block_start() || hy.block_end() <= hx.block_start(),
    ensures
        a.end <= b.start,
{
    lemma_piece_in_block(hx, form_len, a);
    lemma_piece_in_block(hy, form_len, b);
    if hx == hy {
        let given = pieces_of(hx, form_len);
        let i = choose|i: int| 0 <= i < given.len() && given[i] == a;
        let j = choose|j: int| 0 <= j < given.len() && given[j] == b;
        assert(given[i] == a && given[j] == b);
    }
}

/// A segment belongs to the segments of the headers exactly where one of
/// the headers gives it.
pub proof fn lemma_pieces_contains(live: Seq<Header>, form_len: int, p: Segment)
    ensures
        pieces(live, form_len).contains(p) <==> exists|i: int|
            0 <= i < live.len() && pieces_of(#[trigger] live[i], form_len).contains(p),
    decreases live.len(),
{
    if live.len() > 0 {
        let front = live.drop_last();
        let before = pieces(front, form_len);
        let added = pieces_of(live.last(), form_len);
        let all = pieces(live, form_len);
        lemma_pieces_contains(front, form_len, p);
        if all.contains(p) {
            let k = choose|k: int| 0 <= k < all.len() && all[k] == p;
            if k < before.len() {
                assert(before[k] == p);
                let i = choose|i: int|
                    0 <= i < front.len() && pieces_of(#[trigger] front[i], form_len).contains(p);
                assert(front[i] == live[i]);
            } else {
                assert(added[k - before.len()] == p);
                assert(pieces_of(live[live.len() - 1], form_len).contains(p));
            }
        }
        if exists|i: int|
            0 <= i < live.len() && pieces_of(#[trigger] live[i], form_len).contains(p) {
            let i = choose|i: int|
                0 <= i < live.len() && pieces_of(#[trigger] live[i], form_len).contains(p);
            if i < live.len() - 1 {
                assert(front[i] == live[i]);
                let k = choose|k: int| 0 <= k < before.len() && before[k] == p;
                assert(all[k] == p);
            } else {
                let k = choose|k: int| 0 <= k < added.len() && added[k] == p;
                assert(all[before.len() + k] == p);
            }
        }
    }
}

/// Well-formed headers whose blocks lie apart give no segment twice.
pub proof fn lemma_pieces_distinct(live: Seq<Header>, form_len: int)
    requires
        forall|i: int| 0 <= i < live.len() ==> (#[trigger] live[i]).wf(),
        blocks_apart(live),
    ensures
        pieces(live, form_len).no_duplicates(),
    decreases live.len(),
{
    if live.len() > 0 {
        let front = live.drop_last();
        let before = pieces(front, form_len);
        let last = live.last();
        let added = pieces_of(last, form_len);
        let all = pieces(live, form_len);
        assert forall|i: int| 0 <= i < front.len() implies (#[trigger] front[i]).wf() by {
            assert(front[i] == live[i]);
        }
        assert(blocks_apart(front)) by {
            assert forall|i: int, j: int| 0 <= i < j < front.len() implies (
            #[trigger] front[i]).block_end() <= (#[trigger] front[j]).block_start()
                || front[j].block_end() <= front[i].block_start() by {
                assert(front[i] == live[i] && front[j] == live[j]);
            }
        }
        lemma_pieces_distinct(front, form_len);
        assert forall|x: int, y: int|
            0 <= x < all.len() && 0 <= y < all.len() && x != y implies all[x] != all[y] by {
            let (u, v) = if x < y {
                (x, y)
            } else {
                (y, x)
            };
            if v < before.len() {
                assert(all[u] == before[u] && all[v] == before[v]);
            } else if u >= before.len() {
                assert(all[u] == added[u - before.len()]);
                assert(all[v] == added[v - before.len()]);
            } else {
                let p = all[u];
                let q = all[v];
                assert(p == before[u]);
                assert(q == added[v - before.len()]);
                assert(before.contains(p));
                assert(added.contains(q));
                lemma_pieces_contains(front, form_len, p);
                let i = choose|i: int|
                    0 <= i < front.len() && pieces_of(#[trigger] front[i], form_len).contains(p);
                assert(front[i] == live[i]);
                lemma_piece_in_block(live[i], form_len, p);
                lemma_piece_in_block(last, form_len, q);
                assert(live[i].block_end() <= live[live.len() - 1].block_start() || live[live.len()
                    - 1].block_end() <= live[i].block_start());
            }
        }
    }
}

/// Every segment that the headers give stays in the segmentation, whatever
/// it finds: without its segments of unaccounted bytes, the segmentation is
/// the sequence of the headers' segments in order.
pub proof fn lemma_segmentation_keeps_pieces(live: Seq<Header>, form_len: int)
    requires
        forall|i: int| 0 <= i < live.len() ==> (#[trigger] live[i]).wf(),
        form_len <= u16::MAX,
    ensures
        segmentation(live, form_len).filter(|s: Segment| !s.is_gap()) == pieces(
            live,
            form_len,
        ).sort_by(order::<Segment>()),
{
    let given = pieces(live, form_len);
    let ordered = given.sort_by(order::<Segment>());
    lemma_order_total::<Segment>();
    given.lemma_sort_by_ensures(order::<Segment>());
    lemma_pieces_bounds(live, form_len);
    assert forall|k: int| 0 <= k < ordered.len() implies !(#[trigger] ordered[k]).is_gap()
        && ordered[k].lo() <= u16::MAX by {
        assert(ordered.contains(ordered[k]));
        let j = choose|j: int| 0 <= j < given.len() && given[j] == ordered[k];
        assert(given[j] == ordered[k]);
    }
    lemma_tiling_keeps_items(ordered, HEADERS_SIZE as int, form_len);
}

/// Well-formed headers whose blocks lie apart are reproduced exactly: the
/// segmentation finds no overlap, and without its segments of unaccounted
/// bytes it is the sequence of the headers' segments in order, so that a
/// segment of accounted bytes is in it exactly where a header gives it.
pub proof fn lemma_blocks_reproduced(live: Seq<Header>, form_len: int)
    requires
        forall|i: int| 0 <= i < live.len() ==> (#[trigger] live[i]).wf(),
        blocks_apart(live),
        form_len <= u16::MAX,
    ensures
        overlaps(pieces(live, form_len).sort_by(order::<Segment>()), HEADERS_SIZE as int).len()
            == 0,
        segmentation(live, form_len).filter(|s: Segment| !s.is_gap()) == pieces(
            live,
            form_len,
        ).sort_by(order::<Segment>()),
        forall|p: Segment|
            p.state != State::Unknown ==> (#[trigger] segmentation(live, form_len).contains(p)
                <==> exists|i: int|
                0 <= i < live.len() && pieces_of(#[trigger] live[i], form_len).contains(p)),
{
    broadcast use vstd::seq_lib::group_to_multiset_ensures;

    let given = pieces(live, form_len);
    let leq = order::<Segment>();
    let ordered = given.sort_by(leq);
    let whole = segmentation(live, form_len);
    let keep = |s: Segment| !s.is_gap();
    lemma_order_total::<Segment>();
    given.lemma_sort_by_ensures(leq);
    lemma_pieces_bounds(live, form_len);
    lemma_pieces_distinct(live, form_len);
    given.lemma_multiset_has_no_duplicates();
    ordered.lemma_multiset_has_no_duplicates_conv();
    assert forall|k: int| 0 <= k < ordered.len() implies given.contains(#[trigger] ordered[k]) by {
        assert(ordered.contains(ordered[k]));
    }
    assert(apart(ordered)) by {
        assert forall|i: int, j: int| 0 <= i < j < ordered.len() implies (
        #[trigger] ordered[i]).hi() <= (#[trigger] ordered[j]).lo() by {
            let a = ordered[i];
            let b = ordered[j];
            assert(leq(a, b));
            assert(given.contains(a) && given.contains(b));
            lemma_pieces_contains(live, form_len, a);
            lemma_pieces_contains(live, form_len, b);
            let x = choose|x: int|
                0 <= x < live.len() && pieces_of(#[trigger] live[x], form_len).contains(a);
            let y = choose|y: int|
                0 <= y < live.len() && pieces_of(#[trigger] live[y], form_len).contains(b);
            if x < y {
                assert(live[x].block_end() <= live[y].block_start() || live[y].block_end()
                    <= live[x].block_start());
            } else if y < x {
                assert(live[y].block_end() <= live[x].block_start() || live[x].block_end()
                    <= live[y].block_start());
            }
            lemma_pieces_in_order(live[x], live[y], form_len, a, b);
        }
    }
    assert forall|k: int| 0 <= k < ordered.len() implies HEADERS_SIZE <= (
    #[trigger] ordered[k]).lo() by {
        let j = choose|j: int| 0 <= j < given.len() && given[j] == ordered[k];
        assert(given[j] == ordered[k]);
    }
    lemma_apart_no_overlaps(ordered, HEADERS_SIZE as int);
    lemma_segmentation_keeps_pieces(live, form_len);
    assert forall|p: Segment| p.state != State::Unknown implies (#[trigger] whole.contains(p)
        <==> exists|i: int|
        0 <= i < live.len() && pieces_of(#[trigger] live[i], form_len).contains(p)) by {
        lemma_pieces_contains(live, form_len, p);
        if whole.contains(p) {
            let k = choose|k: int| 0 <= k < whole.len() && whole[k] == p;
            whole.lemma_filter_contains(keep, k);
            assert(ordered.contains(p));
        }
        if given.contains(p) {
            assert(given.to_multiset().count(p) > 0);
            assert(ordered.to_multiset().count(p) > 0);
            assert(ordered.contains(p));
            whole.lemma_filter_contains_rev(keep, p);
        }
    }
}

/// Builds the partition of the data area of an image of `form_len` bytes
/// from its classified headers, and appends what it finds to
/// `diagnostics`: first the free blocks that claim bytes past the end of the
/// image, then the segments that start before an earlier one ends.
pub fn segment_allocations(
    headers: &Headers,
    form_len: u16,
    diagnostics: &mut Vec<Diagnostic>,
) -> (out: Vec<Segment>)
    requires
        headers.wf(),
    ensures
        out@ == segmentation(headers.live(), form_len as int),
        final(diagnostics)@ == old(diagnostics)@ + segmentation_findings(
            headers.live(),
            form_len as int,
        ),
        headers.within(form_len as int) && form_len >= HEADERS_SIZE && final(diagnostics)@.len()
            == old(diagnostics)@.len() ==> tiles(out@, HEADERS_SIZE as int, form_len as int),
{
    let ghost live = headers.live();
    let mut found: Vec<Segment> = Vec::new();
    let mut i: usize = 0;
    proof {
        assert(live.take(0) =~= Seq::<Header>::empty());
    }
    while i < headers.used
        invariant
            i <= headers.used <= HEADER_COUNT,
            headers.wf(),
            live == headers.live(),
            found@ == pieces(live.take(i as int), form_len as int),
            diagnostics@ == old(diagnostics)@ + truncations(
                pieces(live.take(i as int), form_len as int),
            ),
        decreases headers.used - i,
    {
        let ghost grown = live.take(i + 1);
        proof {
            assert(grown.drop_last() =~= live.take(i as int));
            assert(grown.last() == headers.headers@[i as int]);
            lemma_truncations_add(
                pieces(live.take(i as int), form_len as int),
                pieces_of(headers.headers@[i as int], form_len as int),
            );
        }
        push_pieces(headers.headers[i], form_len, &mut found, diagnostics);
        i += 1;
    }
    proof {
        assert(live.take(i as int) =~= live);
    }
    let ordered = sorted(&found);
    let out = tile(&ordered, HEADERS_SIZE, form_len, diagnostics);
    proof {
        if headers.within(form_len as int) && form_len >= HEADERS_SIZE && diagnostics@.len() == old(
            diagnostics,
        )@.len() {
            assert(segmentation_findings(live, form_len as int).len() == 0);
            lemma_segmentation_tiles(live, form_len as int);
        }
    }
    out
}

/// Builds the partition of the whole image: the header region as one
/// segment of unaccounted bytes, followed by the partition of the data
/// area. The findings are those of the data area.
pub fn segment_image(
    headers: &Headers,
    form_len: u16,
    diagnostics: &mut Vec<Diagnostic>,
) -> (out: Vec<Segment>)
    requires
        headers.wf(),
    ensures
        out@ == image_segmentation(headers.live(), form_len as int),
        final(diagnostics)@ == old(diagnostics)@ + segmentation_findings(
            headers.live(),
            form_len as int,
        ),
        headers.within(form_len as int) && form_len >= HEADERS_SIZE && final(diagnostics)@.len()
            == old(diagnostics)@.len() ==> tiles(out@, 0, form_len as int),
{
    let mut data = segment_allocations(headers, form_len, diagnostics);
    let mut out: Vec<Segment> = Vec::new();
    out.push(Segment { start: 0, end: HEADERS_SIZE, state: State::Unknown, truncated: false });
    let ghost head = out@;
    let ghost tail = data@;
    out.append(&mut data);
    proof {
        assert(out@ =~= head + tail);
        if tiles(tail, HEADERS_SIZE as int, form_len as int) {
            assert forall|k: int| 0 <= k < out@.len() - 1 implies (#[trigger] out@[k]).hi()
                == out@[k + 1].lo() by {
                if k >= 1 {
                    assert(out@[k] == tail[k - 1]);
                    assert(out@[k + 1] == tail[k]);
                } else {
                    assert(out@[1] == tail[0]);
                }
            }
            if tail.len() > 0 {
                assert(out@.last() == tail.last());
            }
        }
    }
    out
}

} // verus!

//! The label segmenter: labels are put in order and completed to a
//! gapless partition of the whole image.

use vstd::prelude::*;
use crate::error::Diagnostic;
use crate::partition::{
    ascending, lemma_order_total, lemma_sorted_by_start, lemma_tiling_covers,
    lemma_tiling_keeps_items, lemma_tiling_tiles, order, overlaps, sorted, tile, tiles, tiling,
    Span,
};
use crate::layout::MAX_IMAGE_LEN;
use crate::pattern::{correlate, correlation, not_found, patterns, Label, LabelKind};

verus! {

impl LabelKind {
    /// The place of a kind in the order of labels that start at the same
    /// offset with the same length.
    pub open spec fn rank(self) -> int {
        match self {
            LabelKind::String => 0,
            LabelKind::PointerRef(_) => 1,
            LabelKind::Unknown => 2,
        }
    }

    /// The offset that a pointer label refers to; zero for other kinds.
    pub open spec fn target(self) -> int {
        match self {
            LabelKind::PointerRef(target) => target as int,
            _ => 0,
        }
    }

    /// The place of a kind in the order of labels that start at the same
    /// offset with the same length.
    pub fn rank_of(self) -> (r: u8)
        ensures
            r == self.rank(),
    {
        match self {
            LabelKind::String => 0,
            LabelKind::PointerRef(_) => 1,
            LabelKind::Unknown => 2,
        }
    }

    /// The offset that a pointer label refers to; zero for other kinds.
    pub fn target_of(self) -> (t: u16)
        ensures
            t == self.target(),
    {
        match self {
            LabelKind::PointerRef(target) => target,
            _ => 0,
        }
    }
}

impl Span for Label {
    open spec fn lo(&self) -> int {
        self.offset as int
    }

    open spec fn hi(&self) -> int {
        self.offset + self.len
    }

    /// Labels are ordered by their offset; at the same offset the longer
    /// comes first; labels of the same range are ordered by their kind, a
    /// string before a pointer, and pointers by the offset they refer to.
    open spec fn before(&self, other: &Self) -> bool {
        ||| self.offset < other.offset
        ||| self.offset == other.offset && self.len > other.len
        ||| self.offset == other.offset && self.len == other.len && self.kind.rank()
            < other.kind.rank()
        ||| self.offset == other.offset && self.len == other.len && self.kind.rank()
            == other.kind.rank() && self.kind.target() <= other.kind.target()
    }

    open spec fn gap_of(lo: int, hi: int) -> Self {
        Label { offset: lo as u16, len: (hi - lo) as u16, kind: LabelKind::Unknown }
    }

    open spec fn is_gap(&self) -> bool {
        self.kind == LabelKind::Unknown
    }

    open spec fn overlap_of(start: int, covered: int) -> Diagnostic {
        Diagnostic::OverlappingLabels { start: start as u16, covered: covered as u32 }
    }

    fn start(&self) -> (r: u16) {
        self.offset
    }

    fn end(&self) -> (r: u32) {
        self.offset as u32 + self.len as u32
    }

    fn precedes(&self, other: &Self) -> (b: bool) {
        if self.offset != other.offset {
            self.offset < other.offset
        } else if self.len != other.len {
            self.len > other.len
        } else if self.kind.rank_of() != other.kind.rank_of() {
            self.kind.rank_of() < other.kind.rank_of()
        } else {
            self.kind.target_of() <= other.kind.target_of()
        }
    }

    fn gap(lo: u16, hi: u16) -> (g: Self) {
        Label { offset: lo, len: hi - lo, kind: LabelKind::Unknown }
    }

    fn overlap(start: u16, covered: u32) -> (d: Diagnostic) {
        Diagnostic::OverlappingLabels { start, covered }
    }

    proof fn lemma_order(a: Self, b: Self, c: Self) {
    }

    proof fn lemma_gap(lo: int, hi: int) {
    }
}

/// The partition of an image of `form_len` bytes that the labels give: the
/// labels in order, completed from the start to the end of the image.
pub open spec fn labelling(labels: Seq<Label>, form_len: int) -> Seq<Label> {
    tiling(labels.sort_by(order::<Label>()), 0, form_len)
}

/// The findings of the labelling: one for each label that starts before
/// an earlier one ends, in the order of the labels.
pub open spec fn labelling_findings(labels: Seq<Label>) -> Seq<Diagnostic> {
    overlaps(labels.sort_by(order::<Label>()), 0)
}

/// Where the labels end inside the image and the labelling yields no
/// finding, it tiles the image from its first to its last byte.
pub proof fn lemma_labelling_tiles(labels: Seq<Label>, form_len: int)
    requires
        0 <= form_len <= u16::MAX,
        forall|k: int|
            0 <= k < labels.len() ==> (#[trigger] labels[k]).offset + labels[k].len <= form_len,
        labelling_findings(labels).len() == 0,
    ensures
        tiles(labelling(labels, form_len), 0, form_len),
{
    let leq = order::<Label>();
    let ordered = labels.sort_by(leq);
    lemma_order_total::<Label>();
    labels.lemma_sort_by_ensures(leq);
    lemma_sorted_by_start(ordered);
    assert forall|k: int| 0 <= k < ordered.len() implies (#[trigger] ordered[k]).hi()
        <= form_len by {
        assert(ordered.contains(ordered[k]));
        assert(labels.contains(ordered[k]));
        let j = choose|j: int| 0 <= j < labels.len() && labels[j] == ordered[k];
        assert(labels[j].offset + labels[j].len <= form_len);
    }
    assert(ascending(ordered));
    lemma_tiling_tiles(ordered, 0, form_len);
}

/// Every byte of the image lies in a label of the labelling, whatever it
/// finds.
pub proof fn lemma_labelling_covers(labels: Seq<Label>, form_len: int, at: int)
    requires
        0 <= at < form_len <= u16::MAX,
    ensures
        exists|k: int|
            0 <= k < labelling(labels, form_len).len() && (#[trigger] labelling(
                labels,
                form_len,
            )[k]).offset <= at < labelling(labels, form_len)[k].offset + labelling(
                labels,
                form_len,
            )[k].len,
{
    let ordered = labels.sort_by(order::<Label>());
    lemma_tiling_covers(ordered, 0, form_len, at);
    let k = choose|k: int|
        0 <= k < tiling(ordered, 0, form_len).len() && (#[trigger] tiling(
            ordered,
            0,
            form_len,
        )[k]).lo() <= at < tiling(ordered, 0, form_len)[k].hi();
    assert(labelling(labels, form_len)[k].offset <= at < labelling(labels, form_len)[k].offset
        + labelling(labels, form_len)[k].len);
}

/// Every label that is given stays in the labelling: without its labels
/// of unaccounted bytes, the labelling is the given labels in order.
pub proof fn lemma_labelling_keeps_labels(labels: Seq<Label>, form_len: int)
    requires
        form_len <= u16::MAX,
        forall|k: int| 0 <= k < labels.len() ==> (#[trigger] labels[k]).kind != LabelKind::Unknown,
    ensures
        labelling(labels, form_len).filter(|l: Label| !l.is_gap()) == labels.sort_by(
            order::<Label>(),
        ),
{
    let leq = order::<Label>();
    let ordered = labels.sort_by(leq);
    lemma_order_total::<Label>();
    labels.lemma_sort_by_ensures(leq);
    assert forall|k: int| 0 <= k < ordered.len() implies !(#[trigger] ordered[k]).is_gap()
        && ordered[k].lo() <= u16::MAX by {
        assert(ordered.contains(ordered[k]));
        assert(labels.contains(ordered[k]));
        let j = choose|j: int| 0 <= j < labels.len() && labels[j] == ordered[k];
        assert(labels[j].kind != LabelKind::Unknown);
    }
    lemma_tiling_keeps_items(ordered, 0, form_len);
}

/// Builds the partition of an image of `form_len` bytes from labels, and
/// appends to `diagnostics` a finding for each label that starts before an
/// earlier one ends. Every label that is given is in the result.
pub fn segment_labels(
    labels: &Vec<Label>,
    form_len: u16,
    diagnostics: &mut Vec<Diagnostic>,
) -> (out: Vec<Label>)
    ensures
        out@ == labelling(labels@, form_len as int),
        final(diagnostics)@ == old(diagnostics)@ + labelling_findings(labels@),
        (forall|k: int|
            0 <= k < labels@.len() ==> (#[trigger] labels@[k]).offset + labels@[k].len <= form_len)
            && final(diagnostics)@.len() == old(diagnostics)@.len() ==> tiles(
            out@,
            0,
            form_len as int,
        ),
{
    let ordered = sorted(labels);
    let out = tile(&ordered, 0, form_len, diagnostics);
    proof {
        if (forall|k: int|
            0 <= k < labels@.len() ==> (#[trigger] labels@[k]).offset + labels@[k].len <= form_len)
            && diagnostics@.len() == old(diagnostics)@.len() {
            assert(labelling_findings(labels@).len() == 0);
            lemma_labelling_tiles(labels@, form_len as int);
        }
    }
    out
}

/// Labels an image in one run: the candidate strings and the words that
/// point to their occurrences are found, and the labels are completed to a
/// partition of the image. The strings that lie nowhere are reported first,
/// then the labels that start before an earlier one ends.
pub fn label_image(
    image: &[u8],
    strings: &Vec<Vec<u8>>,
    diagnostics: &mut Vec<Diagnostic>,
) -> (out: Vec<Label>)
    requires
        image@.len() <= MAX_IMAGE_LEN,
    ensures
        out@ == labelling(correlation(image@, patterns(strings@)), image@.len() as int),
        final(diagnostics)@ == old(diagnostics)@ + not_found(image@, patterns(strings@))
            + labelling_findings(correlation(image@, patterns(strings@))),
        labelling_findings(correlation(image@, patterns(strings@))).len() == 0 ==> tiles(
            out@,
            0,
            image@.len() as int,
        ),
{
    let labels = correlate(image, strings, diagnostics);
    let ghost reported = diagnostics@;
    let out = segment_labels(&labels, image.len() as u16, diagnostics);
    proof {
        if labelling_findings(labels@).len() == 0 {
            assert(diagnostics@ =~= reported);
        }
    }
    out
}

} // verus!

//! Ordering of typed byte ranges and their completion to a gapless
//! partition: ranges are put in order, and a cursor that runs over them
//! fills every hole with a range that stands for unaccounted bytes and
//! reports every range that starts before the cursor.

use vstd::prelude::*;
use vstd::math::{max, min};
use vstd::relations::{sorted_by, total_ordering};
use vstd::seq_lib::{lemma_sorted_unique, to_multiset_build, to_multiset_insert};
use vstd::slice::{slice_subrange, slice_to_vec};
use crate::error::Diagnostic;

verus! {

/// A typed byte range that can take part in a partition.
pub trait Span: Copy + Sized {
    /// The offset of the first byte.
    spec fn lo(&self) -> int;

    /// The offset one past the last byte.
    spec fn hi(&self) -> int;

    /// The order in which a partition takes up its ranges.
    spec fn before(&self, other: &Self) -> bool;

    /// The range that stands for the unaccounted bytes from `lo` to `hi`.
    spec fn gap_of(lo: int, hi: int) -> Self;

    /// Whether the range stands for unaccounted bytes.
    spec fn is_gap(&self) -> bool;

    /// The finding for a range that starts at `start`, below the offset
    /// `covered` up to which earlier ranges reach.
    spec fn overlap_of(start: int, covered: int) -> Diagnostic;

    /// The offset of the first byte.
    fn start(&self) -> (r: u16)
        ensures
            r == self.lo(),
    ;

    /// The offset one past the last byte.
    fn end(&self) -> (r: u32)
        ensures
            r == self.hi(),
    ;

    /// Whether this range comes before `other` in the order, or is the
    /// same range.
    fn precedes(&self, other: &Self) -> (b: bool)
        ensures
            b == self.before(other),
    ;

    /// Makes the range that stands for the unaccounted bytes from `lo` to
    /// `hi`.
    fn gap(lo: u16, hi: u16) -> (g: Self)
        requires
            lo < hi,
        ensures
            g == Self::gap_of(lo as int, hi as int),
    ;

    /// Makes the finding for a range that starts at `start`, below the
    /// offset `covered` up to which earlier ranges reach.
    fn overlap(start: u16, covered: u32) -> (d: Diagnostic)
        ensures
            d == Self::overlap_of(start as int, covered as int),
    ;

    /// The order is total, two ranges that come before each other are the
    /// same range, and the order goes by the first byte before anything
    /// else.
    proof fn lemma_order(a: Self, b: Self, c: Self)
        ensures
            a.before(&a),
            a.before(&b) || b.before(&a),
            a.before(&b) && b.before(&a) ==> a == b,
            a.before(&b) && b.before(&c) ==> a.before(&c),
            a.before(&b) ==> a.lo() <= b.lo(),
    ;

    /// A gap covers the bytes it was made for.
    proof fn lemma_gap(lo: int, hi: int)
        requires
            0 <= lo < hi <= u16::MAX,
        ensures
            Self::gap_of(lo, hi).lo() == lo,
            Self::gap_of(lo, hi).hi() == hi,
            Self::gap_of(lo, hi).is_gap(),
    ;
}

/// The order of a kind of range as a relation.
pub open spec fn order<T: Span>() -> spec_fn(T, T) -> bool {
    |a: T, b: T| a.before(&b)
}

/// The order of every kind of range is a total ordering.
pub proof fn lemma_order_total<T: Span>()
    ensures
        total_ordering(order::<T>()),
{
    let leq = order::<T>();
    assert forall|a: T| #[trigger] leq(a, a) by {
        T::lemma_order(a, a, a);
    }
    assert forall|a: T, b: T| #[trigger] leq(a, b) && #[trigger] leq(b, a) implies a == b by {
        T::lemma_order(a, b, a);
    }
    assert forall|a: T, b: T| #[trigger] leq(a, b) || #[trigger] leq(b, a) by {
        T::lemma_order(a, b, a);
    }
    assert forall|a: T, b: T, c: T| #[trigger] leq(a, b) && #[trigger] leq(b, c) implies leq(
        a,
        c,
    ) by {
        T::lemma_order(a, b, c);
    }
}

/// The partition that a cursor starting at `cursor` builds from `items`:
/// before each item that starts beyond the cursor stands a gap from the
/// cursor to the item; the item itself follows, and the cursor moves to the
/// item's end unless it is beyond that already. A last gap reaches from the
/// cursor to `limit`, where the cursor stops short of it.
pub open spec fn tiling<T: Span>(items: Seq<T>, cursor: int, limit: int) -> Seq<T>
    decreases items.len(),
{
    if items.len() == 0 {
        if cursor < limit {
            seq![T::gap_of(cursor, limit)]
        } else {
            Seq::empty()
        }
    } else {
        let item = items[0];
        let rest = tiling(items.drop_first(), max(cursor, item.hi()), limit);
        if item.lo() > cursor {
            seq![T::gap_of(cursor, item.lo()), item] + rest
        } else {
            seq![item] + rest
        }
    }
}

/// The findings of the same run: one for each item that starts before the
/// cursor, in the order of the items.
pub open spec fn overlaps<T: Span>(items: Seq<T>, cursor: int) -> Seq<Diagnostic>
    decreases items.len(),
{
    if items.len() == 0 {
        Seq::empty()
    } else {
        let item = items[0];
        let rest = overlaps(items.drop_first(), max(cursor, item.hi()));
        if item.lo() < cursor {
            seq![T::overlap_of(item.lo(), cursor)] + rest
        } else {
            rest
        }
    }
}

/// The bytes of the image that a range covers; a range that reaches past
/// the end of the image is cut there.
pub open spec fn text_of<T: Span>(image: Seq<u8>, item: T) -> Seq<u8> {
    let from = min(item.lo(), image.len() as int);
    let to = max(from, min(item.hi(), image.len() as int));
    image.subrange(from, to)
}

/// The offset that a cursor starting at `cursor` has reached behind `items`.
pub open spec fn reach<T: Span>(items: Seq<T>, cursor: int) -> int
    decreases items.len(),
{
    if items.len() == 0 {
        cursor
    } else {
        reach(items.drop_first(), max(cursor, items[0].hi()))
    }
}

/// Whether each range ends where the next one starts.
pub open spec fn contiguous<T: Span>(s: Seq<T>) -> bool {
    forall|k: int| 0 <= k < s.len() - 1 ==> (#[trigger] s[k]).hi() == s[k + 1].lo()
}

/// Whether the ranges tile the bytes from `from` to `to`: the first starts
/// at `from`, each ends where the next one starts, and the last ends at
/// `to`; no range where there is no byte.
pub open spec fn tiles<T: Span>(s: Seq<T>, from: int, to: int) -> bool {
    if s.len() == 0 {
        from == to
    } else {
        &&& s.first().lo() == from
        &&& s.last().hi() == to
        &&& contiguous(s)
    }
}

/// Whether no range starts before an earlier one ends.
pub open spec fn apart<T: Span>(s: Seq<T>) -> bool {
    forall|i: int, j: int| 0 <= i < j < s.len() ==> (#[trigger] s[i]).hi() <= (#[trigger] s[j]).lo()
}

/// Whether the ranges are well formed and in the order of their first bytes.
pub open spec fn ascending<T: Span>(s: Seq<T>) -> bool {
    &&& forall|i: int| 0 <= i < s.len() ==> 0 <= (#[trigger] s[i]).lo() <= s[i].hi() <= u16::MAX
    &&& forall|i: int, j: int|
        0 <= i < j < s.len() ==> (#[trigger] s[i]).lo() <= (#[trigger] s[j]).lo()
}

/// Ranges in the order of the partition are in the order of their first
/// bytes.
pub proof fn lemma_sorted_by_start<T: Span>(s: Seq<T>)
    requires
        sorted_by(s, order::<T>()),
    ensures
        forall|i: int, j: int|
            0 <= i < j < s.len() ==> (#[trigger] s[i]).lo() <= (#[trigger] s[j]).lo(),
{
    assert forall|i: int, j: int| 0 <= i < j < s.len() implies (#[trigger] s[i]).lo() <= (
    #[trigger] s[j]).lo() by {
        assert(order::<T>()(s[i], s[j]));
        T::lemma_order(s[i], s[j], s[j]);
    }
}

/// Where no item starts before the cursor, the partition is a chain: it
/// starts at the cursor, each range ends where the next one starts, and it
/// ends at the limit or, where the items reach beyond the limit, at their
/// end.
pub proof fn lemma_tiling_contiguous<T: Span>(items: Seq<T>, cursor: int, limit: int)
    requires
        ascending(items),
        0 <= cursor,
        limit <= u16::MAX,
        overlaps(items, cursor).len() == 0,
    ensures
        contiguous(tiling(items, cursor, limit)),
        tiling(items, cursor, limit).len() > 0 ==> tiling(items, cursor, limit).first().lo()
            == cursor && tiling(items, cursor, limit).last().hi() == max(
            reach(items, cursor),
            limit,
        ),
        tiling(items, cursor, limit).len() == 0 ==> items.len() == 0 && cursor >= limit,
        reach(items, cursor) >= cursor,
    decreases items.len(),
{
    let out = tiling(items, cursor, limit);
    if items.len() == 0 {
        if cursor < limit {
            T::lemma_gap(cursor, limit);
        }
    } else {
        let item = items[0];
        let tail = items.drop_first();
        let next = max(cursor, item.hi());
        let rest = tiling(tail, next, limit);
        assert(item.lo() >= cursor);
        assert(next == item.hi());
        assert(ascending(tail)) by {
            assert forall|i: int| 0 <= i < tail.len() implies 0 <= (#[trigger] tail[i]).lo()
                <= tail[i].hi() <= u16::MAX by {
                assert(tail[i] == items[i + 1]);
            }
            assert forall|i: int, j: int| 0 <= i < j < tail.len() implies (#[trigger] tail[i]).lo()
                <= (#[trigger] tail[j]).lo() by {
                assert(tail[i] == items[i + 1]);
                assert(tail[j] == items[j + 1]);
            }
        }
        lemma_tiling_contiguous(tail, next, limit);
        if item.lo() > cursor {
            T::lemma_gap(cursor, item.lo());
            let head = seq![T::gap_of(cursor, item.lo()), item];
            assert(out == head + rest);
            assert forall|k: int| 0 <= k < out.len() - 1 implies (#[trigger] out[k]).hi() == out[k
                + 1].lo() by {
                if k >= 2 {
                    assert(out[k] == rest[k - 2]);
                    assert(out[k + 1] == rest[k - 1]);
                } else if k == 1 {
                    assert(out[2] == rest[0]);
                }
            }
            if rest.len() > 0 {
                assert(out.last() == rest.last());
            }
        } else {
            let head = seq![item];
            assert(out == head + rest);
            assert forall|k: int| 0 <= k < out.len() - 1 implies (#[trigger] out[k]).hi() == out[k
                + 1].lo() by {
                if k >= 1 {
                    assert(out[k] == rest[k - 1]);
                    assert(out[k + 1] == rest[k]);
                } else {
                    assert(out[1] == rest[0]);
                }
            }
            if rest.len() > 0 {
                assert(out.last() == rest.last());
            }
        }
    }
}

/// The offset that the cursor reaches does not lie beyond the cursor's
/// start and the ends of all items.
pub proof fn lemma_reach_bound<T: Span>(items: Seq<T>, cursor: int, bound: int)
    requires
        cursor <= bound,
        forall|k: int| 0 <= k < items.len() ==> (#[trigger] items[k]).hi() <= bound,
    ensures
        reach(items, cursor) <= bound,
    decreases items.len(),
{
    if items.len() > 0 {
        let tail = items.drop_first();
        assert forall|k: int| 0 <= k < tail.len() implies (#[trigger] tail[k]).hi() <= bound by {
            assert(tail[k] == items[k + 1]);
        }
        lemma_reach_bound(tail, max(cursor, items[0].hi()), bound);
    }
}

/// Where no item starts before the cursor and none ends beyond the limit,
/// the partition tiles the bytes from the cursor to the limit.
pub proof fn lemma_tiling_tiles<T: Span>(items: Seq<T>, cursor: int, limit: int)
    requires
        ascending(items),
        0 <= cursor <= limit <= u16::MAX,
        forall|k: int| 0 <= k < items.len() ==> (#[trigger] items[k]).hi() <= limit,
        overlaps(items, cursor).len() == 0,
    ensures
        tiles(tiling(items, cursor, limit), cursor, limit),
{
    lemma_tiling_contiguous(items, cursor, limit);
    lemma_reach_bound(items, cursor, limit);
}

/// Items of which none starts before an earlier one ends, nor before the
/// cursor, yield no finding.
pub proof fn lemma_apart_no_overlaps<T: Span>(items: Seq<T>, cursor: int)
    requires
        apart(items),
        forall|i: int| 0 <= i < items.len() ==> cursor <= (#[trigger] items[i]).lo(),
    ensures
        overlaps(items, cursor).len() == 0,
    decreases items.len(),
{
    if items.len() > 0 {
        let item = items[0];
        let tail = items.drop_first();
        let next = max(cursor, item.hi());
        assert forall|i: int| 0 <= i < tail.len() implies next <= (#[trigger] tail[i]).lo() by {
            assert(tail[i] == items[i + 1]);
            assert(items[0].hi() <= items[i + 1].lo());
        }
        assert(apart(tail)) by {
            assert forall|i: int, j: int| 0 <= i < j < tail.len() implies (#[trigger] tail[i]).hi()
                <= (#[trigger] tail[j]).lo() by {
                assert(tail[i] == items[i + 1]);
                assert(tail[j] == items[j + 1]);
            }
        }
        lemma_apart_no_overlaps(tail, next);
    }
}

/// Where the run yields no finding, no item starts before an earlier one
/// ends, nor before the cursor.
pub proof fn lemma_no_overlaps_apart<T: Span>(items: Seq<T>, cursor: int)
    requires
        overlaps(items, cursor).len() == 0,
    ensures
        apart(items),
        forall|i: int| 0 <= i < items.len() ==> cursor <= (#[trigger] items[i]).lo(),
    decreases items.len(),
{
    if items.len() > 0 {
        let item = items[0];
        let tail = items.drop_first();
        let next = max(cursor, item.hi());
        lemma_no_overlaps_apart(tail, next);
        assert forall|i: int| 0 <= i < items.len() implies cursor <= (#[trigger] items[i]).lo() by {
            if i > 0 {
                assert(items[i] == tail[i - 1]);
            }
        }
        assert forall|i: int, j: int| 0 <= i < j < items.len() implies (#[trigger] items[i]).hi()
            <= (#[trigger] items[j]).lo() by {
            assert(items[j] == tail[j - 1]);
            if i > 0 {
                assert(items[i] == tail[i - 1]);
            }
        }
    }
}

/// Every offset from the cursor up to the limit lies in a range of the
/// partition, whatever the items are.
pub proof fn lemma_tiling_covers<T: Span>(items: Seq<T>, cursor: int, limit: int, at: int)
    requires
        0 <= cursor <= at < limit <= u16::MAX,
        forall|i: int| 0 <= i < items.len() ==> 0 <= (#[trigger] items[i]).lo() <= u16::MAX,
    ensures
        exists|k: int|
            0 <= k < tiling(items, cursor, limit).len() && (#[trigger] tiling(
                items,
                cursor,
                limit,
            )[k]).lo() <= at < tiling(items, cursor, limit)[k].hi(),
    decreases items.len(),
{
    let out = tiling(items, cursor, limit);
    if items.len() == 0 {
        T::lemma_gap(cursor, limit);
        assert(out[0].lo() <= at < out[0].hi());
    } else {
        let item = items[0];
        let tail = items.drop_first();
        let next = max(cursor, item.hi());
        let rest = tiling(tail, next, limit);
        let shift: int = if item.lo() > cursor {
            2
        } else {
            1
        };
        if item.lo() > cursor {
            T::lemma_gap(cursor, item.lo());
            assert(out == seq![T::gap_of(cursor, item.lo()), item] + rest);
        } else {
            assert(out == seq![item] + rest);
        }
        if at >= next {
            assert forall|i: int| 0 <= i < tail.len() implies 0 <= (#[trigger] tail[i]).lo()
                <= u16::MAX by {
                assert(tail[i] == items[i + 1]);
            }
            lemma_tiling_covers(tail, next, limit, at);
            let k = choose|k: int|
                0 <= k < rest.len() && (#[trigger] rest[k]).lo() <= at < rest[k].hi();
            assert(out[k + shift] == rest[k]);
        } else if item.lo() > cursor && at < item.lo() {
            assert(out[0].lo() <= at < out[0].hi());
        } else {
            assert(out[shift - 1] == item);
            assert(out[shift - 1].lo() <= at < out[shift - 1].hi());
        }
    }
}

/// Taking the gaps out of the partition leaves the items as they were
/// given.
pub proof fn lemma_tiling_keeps_items<T: Span>(items: Seq<T>, cursor: int, limit: int)
    requires
        0 <= cursor,
        limit <= u16::MAX,
        forall|i: int|
            0 <= i < items.len() ==> !(#[trigger] items[i]).is_gap() && items[i].lo() <= u16::MAX,
    ensures
        tiling(items, cursor, limit).filter(|x: T| !x.is_gap()) == items,
    decreases items.len(),
{
    let keep = |x: T| !x.is_gap();
    let out = tiling(items, cursor, limit);
    reveal_with_fuel(Seq::filter, 3);
    if items.len() == 0 {
        if cursor < limit {
            T::lemma_gap(cursor, limit);
            assert(out.drop_last() =~= Seq::<T>::empty());
        }
        assert(out.filter(keep) =~= items);
    } else {
        let item = items[0];
        let tail = items.drop_first();
        let next = max(cursor, item.hi());
        let rest = tiling(tail, next, limit);
        assert forall|i: int| 0 <= i < tail.len() implies !(#[trigger] tail[i]).is_gap()
            && tail[i].lo() <= u16::MAX by {
            assert(tail[i] == items[i + 1]);
        }
        lemma_tiling_keeps_items(tail, next, limit);
        let head = if item.lo() > cursor {
            seq![T::gap_of(cursor, item.lo()), item]
        } else {
            seq![item]
        };
        assert(out == head + rest);
        Seq::filter_distributes_over_add(head, rest, keep);
        if item.lo() > cursor {
            T::lemma_gap(cursor, item.lo());
            assert(head.drop_last() =~= seq![T::gap_of(cursor, item.lo())]);
            assert(head.drop_last().drop_last() =~= Seq::<T>::empty());
            assert(head.filter(keep) =~= seq![item]);
        } else {
            assert(head.drop_last() =~= Seq::<T>::empty());
            assert(head.filter(keep) =~= seq![item]);
        }
        assert(seq![item] + tail =~= items);
    }
}

/// Puts ranges in the order of the partition.
pub fn sorted<T: Span>(items: &Vec<T>) -> (out: Vec<T>)
    ensures
        out@ == items@.sort_by(order::<T>()),
        sorted_by(out@, order::<T>()),
        out@.to_multiset() == items@.to_multiset(),
{
    let ghost leq = order::<T>();
    proof {
        lemma_order_total::<T>();
        assert(items@.take(0) =~= Seq::<T>::empty());
        items@.take(0).lemma_sort_by_ensures(leq);
        lemma_sorted_unique(Seq::<T>::empty(), items@.take(0).sort_by(leq), leq);
    }
    let mut out: Vec<T> = Vec::new();
    let mut i: usize = 0;
    while i < items.len()
        invariant
            i <= items.len(),
            leq == order::<T>(),
            total_ordering(leq),
            out@ == items@.take(i as int).sort_by(leq),
            sorted_by(out@, leq),
            out@.to_multiset() == items@.take(i as int).to_multiset(),
        decreases items.len() - i,
    {
        let x = items[i];
        let mut j: usize = out.len();
        while j > 0 && !out[j - 1].precedes(&x)
            invariant
                j <= out.len(),
                leq == order::<T>(),
                forall|k: int| j <= k < out.len() ==> !leq(#[trigger] out@[k], x),
            decreases j,
        {
            j -= 1;
        }
        let ghost before = out@;
        out.insert(j, x);
        proof {
            let grown = items@.take(i + 1);
            assert(grown =~= items@.take(i as int).push(x));
            to_multiset_build(items@.take(i as int), x);
            to_multiset_insert(before, j as int, x);
            assert(out@ == before.insert(j as int, x));
            assert forall|a: int, b: int| 0 <= a < b < out@.len() implies #[trigger] leq(
                out@[a],
                out@[b],
            ) by {
                if b < j {
                    assert(leq(before[a], before[b]));
                } else if b == j {
                    assert(leq(before[j - 1], x));
                    if a < j - 1 {
                        assert(leq(before[a], before[j - 1]));
                    }
                } else if a == j {
                    assert(!leq(before[b - 1], x));
                } else if a < j {
                    assert(leq(before[a], before[b - 1]));
                } else {
                    assert(leq(before[a - 1], before[b - 1]));
                }
            }
            grown.lemma_sort_by_ensures(leq);
            lemma_sorted_unique(out@, grown.sort_by(leq), leq);
        }
        i += 1;
    }
    proof {
        assert(items@.take(i as int) =~= items@);
    }
    out
}

/// Completes ranges to a partition from `base` to `limit` and appends a
/// finding for each range that starts before the cursor.
pub fn tile<T: Span>(
    items: &Vec<T>,
    base: u16,
    limit: u16,
    diagnostics: &mut Vec<Diagnostic>,
) -> (out: Vec<T>)
    ensures
        out@ == tiling(items@, base as int, limit as int),
        final(diagnostics)@ == old(diagnostics)@ + overlaps(items@, base as int),
{
    let mut out: Vec<T> = Vec::new();
    let mut cursor: u32 = base as u32;
    let mut i: usize = 0;
    proof {
        assert(items@.skip(0) =~= items@);
    }
    while i < items.len()
        invariant
            i <= items.len(),
            out@ + tiling(items@.skip(i as int), cursor as int, limit as int) == tiling(
                items@,
                base as int,
                limit as int,
            ),
            diagnostics@ + overlaps(items@.skip(i as int), cursor as int) == old(diagnostics)@
                + overlaps(items@, base as int),
        decreases items.len() - i,
    {
        let item = items[i];
        let start = item.start();
        let end = item.end();
        let ghost out_before = out@;
        let ghost found_before = diagnostics@;
        let ghost remaining = items@.skip(i as int);
        proof {
            assert(remaining[0] == item);
            assert(remaining.drop_first() =~= items@.skip(i + 1));
        }
        if start as u32 > cursor {
            out.push(T::gap(cursor as u16, start));
        }
        if (start as u32) < cursor {
            diagnostics.push(T::overlap(start, cursor));
        }
        out.push(item);
        let ghost next = max(cursor as int, end as int);
        proof {
            let rest = tiling(items@.skip(i + 1), next, limit as int);
            let more = overlaps(items@.skip(i + 1), next);
            if item.lo() > cursor {
                assert(out@ =~= out_before + seq![T::gap_of(cursor as int, item.lo()), item]);
                assert(out@ + rest =~= out_before + (seq![T::gap_of(cursor as int, item.lo()), item]
                    + rest));
            } else {
                assert(out@ =~= out_before + seq![item]);
                assert(out@ + rest =~= out_before + (seq![item] + rest));
            }
            if item.lo() < cursor {
                assert(diagnostics@ + more =~= found_before + (seq![
                    T::overlap_of(item.lo(), cursor as int),
                ] + more));
            }
        }
        if end > cursor {
            cursor = end;
        }
        i += 1;
    }
    if cursor < limit as u32 {
        out.push(T::gap(cursor as u16, limit));
    }
    proof {
        assert(items@.skip(i as int) =~= Seq::<T>::empty());
    }
    out
}

/// Copies the bytes of the image that a range covers. A range that
/// reaches past the end of the image is cut there.
pub fn recovered_text<T: Span>(image: &[u8], item: &T) -> (bytes: Vec<u8>)
    ensures
        bytes@ == text_of(image@, *item),
{
    let total: usize = image.len();
    let start: usize = item.start() as usize;
    let end: usize = item.end() as usize;
    let from: usize = if start < total {
        start
    } else {
        total
    };
    let upto: usize = if end < total {
        end
    } else {
        total
    };
    let to: usize = if upto < from {
        from
    } else {
        upto
    };
    slice_to_vec(slice_subrange(image, from, to))
}

} // verus!

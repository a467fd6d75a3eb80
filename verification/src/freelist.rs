//! Traversal of the free lists that are threaded through the block headers.

use vstd::prelude::*;
use crate::error::HeaderError;
use crate::layout::{pointer_in_table, slot_of, RawHeader, RawHeaders, FREE_LIST_LEN, HEADER_COUNT};

verus! {

/// The number of slots that no free list holds yet.
pub open spec fn unmarked(free: Seq<bool>) -> nat
    decreases free.len(),
{
    if free.len() == 0 {
        0
    } else {
        unmarked(free.drop_last()) + if free.last() {
            0nat
        } else {
            1nat
        }
    }
}

/// Marking a slot that was not marked leaves one unmarked slot fewer.
pub proof fn lemma_mark_decreases(free: Seq<bool>, i: int)
    requires
        0 <= i < free.len(),
        !free[i],
    ensures
        unmarked(free.update(i, true)) + 1 == unmarked(free),
    decreases free.len(),
{
    if i == free.len() - 1 {
        assert(free.update(i, true).drop_last() =~= free.drop_last());
    } else {
        assert(free.update(i, true).drop_last() =~= free.drop_last().update(i, true));
        lemma_mark_decreases(free.drop_last(), i);
    }
}

/// Follows one free list from the link `ptr`, starting with the marks
/// `free`: the marks when the walk ends, and the error that ended it, if
/// one did. A zero link ends the list. Any other link must address a slot
/// of the table that is not marked yet; the slot is marked, and its `write`
/// word is the next link.
pub open spec fn walk(table: Seq<RawHeader>, free: Seq<bool>, ptr: u16) -> (
    Seq<bool>,
    Option<HeaderError>,
)
    decreases unmarked(free),
    when free.len() == HEADER_COUNT
{
    if ptr == 0 {
        (free, None)
    } else if !pointer_in_table(ptr) {
        (free, Some(HeaderError::FreePointerOutOfRange(ptr)))
    } else if free[slot_of(ptr)] {
        (free, Some(HeaderError::DuplicateFreeSlot(ptr)))
    } else {
        proof {
            lemma_mark_decreases(free, slot_of(ptr));
        }
        walk(table, free.update(slot_of(ptr), true), table[slot_of(ptr)].write)
    }
}

/// The slots that the walk from `ptr` marks, in the order of the visit.
pub open spec fn trail(table: Seq<RawHeader>, free: Seq<bool>, ptr: u16) -> Seq<int>
    decreases unmarked(free),
    when free.len() == HEADER_COUNT
{
    if ptr == 0 || !pointer_in_table(ptr) || free[slot_of(ptr)] {
        Seq::empty()
    } else {
        proof {
            lemma_mark_decreases(free, slot_of(ptr));
        }
        seq![slot_of(ptr)] + trail(
            table,
            free.update(slot_of(ptr), true),
            table[slot_of(ptr)].write,
        )
    }
}

/// Follows the free lists of all roots in turn, each from the marks that
/// the lists before it left, and stops at the first error.
pub open spec fn walk_roots(table: Seq<RawHeader>, roots: Seq<u16>, free: Seq<bool>) -> (
    Seq<bool>,
    Option<HeaderError>,
)
    decreases roots.len(),
{
    if roots.len() == 0 {
        (free, None)
    } else {
        let first = walk(table, free, roots[0]);
        if first.1 is Some {
            first
        } else {
            walk_roots(table, roots.drop_first(), first.0)
        }
    }
}

/// The slots that the walks from all roots mark, in the order of the visit.
pub open spec fn roots_trail(table: Seq<RawHeader>, roots: Seq<u16>, free: Seq<bool>) -> Seq<int>
    decreases roots.len(),
{
    if roots.len() == 0 {
        Seq::empty()
    } else {
        let first = walk(table, free, roots[0]);
        if first.1 is Some {
            trail(table, free, roots[0])
        } else {
            trail(table, free, roots[0]) + roots_trail(table, roots.drop_first(), first.0)
        }
    }
}

/// The marks before any free list is followed.
pub open spec fn no_marks() -> Seq<bool> {
    Seq::new(HEADER_COUNT as nat, |i: int| false)
}

/// Which slots the free lists of a header region hold, or the error that
/// the traversal meets.
pub open spec fn free_marks(table: Seq<RawHeader>, roots: Seq<u16>) -> Result<
    Seq<bool>,
    HeaderError,
> {
    let end = walk_roots(table, roots, no_marks());
    match end.1 {
        Some(e) => Err(e),
        None => Ok(end.0),
    }
}

/// A walk visits no slot twice and none that was marked before; the
/// marks it leaves are the marks it found together with the slots it
/// visited, whether or not it ends in an error.
pub proof fn lemma_walk_visits_once(table: Seq<RawHeader>, free: Seq<bool>, ptr: u16)
    requires
        free.len() == HEADER_COUNT,
    ensures
        walk(table, free, ptr).0.len() == HEADER_COUNT,
        trail(table, free, ptr).no_duplicates(),
        forall|k: int|
            0 <= k < trail(table, free, ptr).len() ==> 0 <= #[trigger] trail(table, free, ptr)[k]
                < HEADER_COUNT && !free[trail(table, free, ptr)[k]],
        forall|i: int|
            0 <= i < HEADER_COUNT ==> (#[trigger] walk(table, free, ptr).0[i] <==> free[i] || trail(
                table,
                free,
                ptr,
            ).contains(i)),
        unmarked(walk(table, free, ptr).0) + trail(table, free, ptr).len() == unmarked(free),
    decreases unmarked(free),
{
    if ptr == 0 || !pointer_in_table(ptr) || free[slot_of(ptr)] {
    } else {
        let s = slot_of(ptr);
        let next_free = free.update(s, true);
        let next = table[s].write;
        lemma_mark_decreases(free, s);
        lemma_walk_visits_once(table, next_free, next);
        let rest = trail(table, next_free, next);
        let all = trail(table, free, ptr);
        assert(all == seq![s] + rest);
        assert forall|i: int, j: int|
            0 <= i < all.len() && 0 <= j < all.len() && i != j implies all[i] != all[j] by {
            if i > 0 {
                assert(all[i] == rest[i - 1]);
            }
            if j > 0 {
                assert(all[j] == rest[j - 1]);
            }
        }
        assert forall|k: int| 0 <= k < all.len() implies 0 <= #[trigger] all[k] < HEADER_COUNT
            && !free[all[k]] by {
            if k > 0 {
                assert(all[k] == rest[k - 1]);
            }
        }
        assert forall|i: int| 0 <= i < HEADER_COUNT implies (#[trigger] walk(table, free, ptr).0[i]
            <==> free[i] || all.contains(i)) by {
            if rest.contains(i) {
                let k = choose|k: int| 0 <= k < rest.len() && rest[k] == i;
                assert(all[k + 1] == i);
            }
            if all.contains(i) {
                let k = choose|k: int| 0 <= k < all.len() && all[k] == i;
                if k > 0 {
                    assert(rest[k - 1] == i);
                }
            }
            assert(all[0] == s);
        }
    }
}

/// The walks from all roots together visit no slot twice and none that
/// was marked before; the marks they leave are the marks they found
/// together with the slots they visited.
pub proof fn lemma_roots_visit_once(table: Seq<RawHeader>, roots: Seq<u16>, free: Seq<bool>)
    requires
        free.len() == HEADER_COUNT,
    ensures
        walk_roots(table, roots, free).0.len() == HEADER_COUNT,
        roots_trail(table, roots, free).no_duplicates(),
        forall|k: int|
            0 <= k < roots_trail(table, roots, free).len() ==> 0 <= #[trigger] roots_trail(
                table,
                roots,
                free,
            )[k] < HEADER_COUNT && !free[roots_trail(table, roots, free)[k]],
        forall|i: int|
            0 <= i < HEADER_COUNT ==> (#[trigger] walk_roots(table, roots, free).0[i] <==> free[i]
                || roots_trail(table, roots, free).contains(i)),
        unmarked(walk_roots(table, roots, free).0) + roots_trail(table, roots, free).len()
            == unmarked(free),
    decreases roots.len(),
{
    if roots.len() > 0 {
        let first = walk(table, free, roots[0]);
        let head = trail(table, free, roots[0]);
        lemma_walk_visits_once(table, free, roots[0]);
        if first.1 is None {
            let rest = roots_trail(table, roots.drop_first(), first.0);
            let all = roots_trail(table, roots, free);
            lemma_roots_visit_once(table, roots.drop_first(), first.0);
            assert(all == head + rest);
            assert forall|k: int| 0 <= k < all.len() implies 0 <= #[trigger] all[k] < HEADER_COUNT
                && !free[all[k]] by {
                if k >= head.len() {
                    assert(all[k] == rest[k - head.len()]);
                } else {
                    assert(all[k] == head[k]);
                }
            }
            assert forall|i: int, j: int|
                0 <= i < all.len() && 0 <= j < all.len() && i != j implies all[i] != all[j] by {
                let (u, v) = if i < j {
                    (i, j)
                } else {
                    (j, i)
                };
                if v < head.len() {
                    assert(all[u] == head[u] && all[v] == head[v]);
                } else if u >= head.len() {
                    assert(all[u] == rest[u - head.len()] && all[v] == rest[v - head.len()]);
                } else {
                    assert(all[u] == head[u] && all[v] == rest[v - head.len()]);
                    assert(head.contains(head[u]));
                    assert(first.0[head[u]]);
                    assert(!first.0[rest[v - head.len()]]);
                }
            }
            assert forall|i: int| 0 <= i < HEADER_COUNT implies (#[trigger] walk_roots(
                table,
                roots,
                free,
            ).0[i] <==> free[i] || all.contains(i)) by {
                if head.contains(i) {
                    let k = choose|k: int| 0 <= k < head.len() && head[k] == i;
                    assert(all[k] == i);
                }
                if rest.contains(i) {
                    let k = choose|k: int| 0 <= k < rest.len() && rest[k] == i;
                    assert(all[head.len() + k] == i);
                }
                if all.contains(i) {
                    let k = choose|k: int| 0 <= k < all.len() && all[k] == i;
                    if k < head.len() {
                        assert(head[k] == i);
                    } else {
                        assert(rest[k - head.len()] == i);
                    }
                }
            }
        }
    }
}

/// A header whose `write` word links back to its own slot ends the walk
/// with the duplicate error.
pub proof fn lemma_self_loop_rejected(table: Seq<RawHeader>, free: Seq<bool>, ptr: u16)
    requires
        free.len() == HEADER_COUNT,
        table.len() == HEADER_COUNT,
        pointer_in_table(ptr),
        pointer_in_table(table[slot_of(ptr)].write),
        slot_of(table[slot_of(ptr)].write) == slot_of(ptr),
    ensures
        walk(table, free, ptr).1 is Some,
        walk(table, free, ptr).1->Some_0 is DuplicateFreeSlot,
{
    if !free[slot_of(ptr)] {
        lemma_mark_decreases(free, slot_of(ptr));
        let next_free = free.update(slot_of(ptr), true);
        assert(next_free.len() == HEADER_COUNT);
        assert(walk(table, free, ptr) == walk(table, next_free, table[slot_of(ptr)].write));
    }
}

impl RawHeaders {
    /// Follows one free list from the link `header` and marks in `free`
    /// each slot that the list holds. Stops with an error at a link that
    /// addresses no slot, or a slot that is marked already; the slots
    /// visited until then stay marked.
    pub fn visit_free(
        free: &mut [bool; HEADER_COUNT],
        headers: &RawHeaders,
        header: u16,
    ) -> (r: Result<(), HeaderError>)
        ensures
            final(free)@ == walk(headers.headers@, old(free)@, header).0,
            r == (match walk(headers.headers@, old(free)@, header).1 {
                Some(e) => Err::<(), HeaderError>(e),
                None => Ok::<(), HeaderError>(()),
            }),
    {
        let ghost start = free@;
        let mut ptr = header;
        while ptr != 0
            invariant
                free@.len() == HEADER_COUNT,
                start == old(free)@,
                walk(headers.headers@, free@, ptr) == walk(headers.headers@, start, header),
            decreases unmarked(free@),
        {
            match RawHeader::index_from_pointer(ptr) {
                None => {
                    return Err(HeaderError::FreePointerOutOfRange(ptr));
                },
                Some(i) => {
                    if free[i] {
                        return Err(HeaderError::DuplicateFreeSlot(ptr));
                    }
                    proof {
                        lemma_mark_decreases(free@, i as int);
                    }
                    free[i] = true;
                    ptr = headers.headers[i].write;
                },
            }
        }
        Ok(())
    }

    /// Follows the free lists of all roots and returns for each slot
    /// whether a free list holds it.
    pub fn free_slots(&self) -> (r: Result<[bool; HEADER_COUNT], HeaderError>)
        ensures
            match free_marks(self.headers@, self.free_list@) {
                Ok(marks) => r is Ok && r->Ok_0@ == marks,
                Err(e) => r == Err::<[bool; HEADER_COUNT], HeaderError>(e),
            },
    {
        let mut free = [false; HEADER_COUNT];
        assert(free@ =~= no_marks());
        assert(self.free_list@.skip(0) =~= self.free_list@);
        let mut k: usize = 0;
        while k < FREE_LIST_LEN
            invariant
                k <= FREE_LIST_LEN,
                self.free_list@.len() == FREE_LIST_LEN,
                walk_roots(self.headers@, self.free_list@.skip(k as int), free@) == walk_roots(
                    self.headers@,
                    self.free_list@,
                    no_marks(),
                ),
            decreases FREE_LIST_LEN - k,
        {
            assert(self.free_list@.skip(k as int)[0] == self.free_list@[k as int]);
            assert(self.free_list@.skip(k as int).drop_first() =~= self.free_list@.skip(k + 1));
            match RawHeaders::visit_free(&mut free, self, self.free_list[k]) {
                Err(e) => {
                    return Err(e);
                },
                Ok(()) => {},
            }
            k += 1;
        }
        assert(self.free_list@.skip(k as int).len() == 0);
        Ok(free)
    }
}

} // verus!

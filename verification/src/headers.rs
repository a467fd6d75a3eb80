//! Reconstruction of the classified header table of an image: the free
//! lists are followed, the region-wide fields are checked, every block
//! header is classified, and the never-used tail of the table is trimmed.

use vstd::prelude::*;
use crate::classify::{
    alloc_shape, classify, freed_shape, lemma_classify_exclusive, unused_shape, Header,
    SentinelRule,
};
use crate::error::HeaderError;
use crate::freelist::free_marks;
use crate::layout::{
    padding_of, pointer_of, roots_of, table_of, word_at, RawHeader, RawHeaders, DISCRIMINANT_AT,
    HEADERS_SIZE, HEADER_COUNT, MAX_IMAGE_LEN, TABLE_BASE,
};

verus! {

/// The classified header table of an image.
pub struct Headers {
    /// What each block header stands for.
    pub headers: [Header; HEADER_COUNT],
    /// The number of headers before the never-used tail of the table.
    pub used: usize,
}

/// Whether the region-wide fields hold what the allocator leaves there: the
/// discriminant names the table's offset and the padding is zero.
pub open spec fn region_intact(asmdisc: u16, pad: Seq<u16>) -> bool {
    asmdisc == TABLE_BASE && forall|j: int| 0 <= j < pad.len() ==> pad[j] == 0
}

/// The least slot from `from` on that has none of the known shapes, or
/// the number of slots where every such slot has one.
pub open spec fn first_invalid(
    rule: SentinelRule,
    table: Seq<RawHeader>,
    marks: Seq<bool>,
    form_len: int,
    from: int,
) -> int
    decreases HEADER_COUNT - from,
{
    if from >= HEADER_COUNT {
        HEADER_COUNT as int
    } else if classify(rule, table[from], marks[from], form_len) is None {
        from
    } else {
        first_invalid(rule, table, marks, form_len, from + 1)
    }
}

/// The table with every block header classified.
pub open spec fn classified(
    rule: SentinelRule,
    table: Seq<RawHeader>,
    marks: Seq<bool>,
    form_len: int,
) -> Seq<Header> {
    Seq::new(HEADER_COUNT as nat, |i: int| classify(rule, table[i], marks[i], form_len).unwrap())
}

/// The link that slot `k` holds where the never-used tail of the table is
/// chained as the allocator leaves it: the last slot ends the chain, every
/// other slot links to the slot behind it.
pub open spec fn chain_link(k: int) -> int {
    if k == HEADER_COUNT - 1 {
        0
    } else {
        pointer_of(k + 1)
    }
}

/// Whether slot `k` is a never-used header that holds its link of the chain.
pub open spec fn chained(parsed: Seq<Header>, k: int) -> bool {
    parsed[k] == (Header::Unused { next: chain_link(k) as u16 })
}

/// The number of slots that are left of the first `n` when the chained
/// never-used slots at their end are taken off.
pub open spec fn trimmed(parsed: Seq<Header>, n: int) -> int
    decreases n,
{
    if n > 0 && chained(parsed, n - 1) {
        trimmed(parsed, n - 1)
    } else {
        n
    }
}

/// The number of headers before the never-used tail of the table.
pub open spec fn used_count(parsed: Seq<Header>) -> int {
    trimmed(parsed, HEADER_COUNT as int)
}

/// The least slot in `from..upto` that is never-used, or `upto` where
/// there is none.
pub open spec fn first_unused(parsed: Seq<Header>, from: int, upto: int) -> int
    decreases upto - from,
{
    if from >= upto {
        upto
    } else if parsed[from] is Unused {
        from
    } else {
        first_unused(parsed, from + 1, upto)
    }
}

/// The classified table and used count of an image, or the first error
/// that the reconstruction meets: a truncated image, a fault in the free
/// lists, a fault in the region-wide fields, a header of no known shape, a
/// never-used header inside the used prefix, in this order.
pub open spec fn reconstruct(rule: SentinelRule, bytes: Seq<u8>) -> Result<
    (Seq<Header>, int),
    HeaderError,
> {
    if bytes.len() < HEADERS_SIZE {
        Err(HeaderError::TruncatedImage)
    } else {
        match free_marks(table_of(bytes), roots_of(bytes)) {
            Err(e) => Err(e),
            Ok(marks) => {
                let table = table_of(bytes);
                let form_len = bytes.len() as int;
                let bad = first_invalid(rule, table, marks, form_len, 0);
                let parsed = classified(rule, table, marks, form_len);
                let used = used_count(parsed);
                let stray = first_unused(parsed, 0, used);
                if !region_intact(word_at(bytes, DISCRIMINANT_AT as int), padding_of(bytes)) {
                    Err(HeaderError::CorruptHeaderRegion)
                } else if bad < HEADER_COUNT {
                    Err(HeaderError::InvalidDescriptor(bad as usize))
                } else if stray < used {
                    Err(HeaderError::UnusedWithinLiveRange(stray as usize))
                } else {
                    Ok((parsed, used))
                }
            },
        }
    }
}

/// Where the reconstruction succeeds, every slot of the table is
/// classified, by the shape that its membership in the free lists admits:
/// a slot that no free list holds is a live block, a slot that one holds is
/// a free block or was never used, and no slot is two of these.
pub proof fn lemma_every_slot_classified(rule: SentinelRule, bytes: Seq<u8>, i: int)
    requires
        reconstruct(rule, bytes) is Ok,
        0 <= i < HEADER_COUNT,
    ensures
        free_marks(table_of(bytes), roots_of(bytes)) is Ok,
        reconstruct(rule, bytes)->Ok_0.0.len() == HEADER_COUNT,
        ({
            let marks = free_marks(table_of(bytes), roots_of(bytes))->Ok_0;
            let raw = table_of(bytes)[i];
            let header = reconstruct(rule, bytes)->Ok_0.0[i];
            &&& classify(rule, raw, marks[i], bytes.len() as int) == Some(header)
            &&& header is Alloc <==> !marks[i]
            &&& header is Alloc ==> alloc_shape(raw, bytes.len() as int)
            &&& header is Freed <==> marks[i] && freed_shape(raw)
            &&& header is Unused <==> marks[i] && unused_shape(rule, raw)
        }),
{
    let marks = free_marks(table_of(bytes), roots_of(bytes))->Ok_0;
    lemma_first_invalid(rule, table_of(bytes), marks, bytes.len() as int, 0);
    lemma_classify_exclusive(rule, table_of(bytes)[i], marks[i], bytes.len() as int);
}

/// `first_invalid` names a slot of no known shape before which every slot
/// has one, or the number of slots where every slot has one.
pub proof fn lemma_first_invalid(
    rule: SentinelRule,
    table: Seq<RawHeader>,
    marks: Seq<bool>,
    form_len: int,
    from: int,
)
    requires
        0 <= from <= HEADER_COUNT,
    ensures
        from <= first_invalid(rule, table, marks, form_len, from) <= HEADER_COUNT,
        forall|i: int|
            from <= i < first_invalid(rule, table, marks, form_len, from) ==> (#[trigger] classify(
                rule,
                table[i],
                marks[i],
                form_len,
            )) is Some,
        first_invalid(rule, table, marks, form_len, from) < HEADER_COUNT ==> classify(
            rule,
            table[first_invalid(rule, table, marks, form_len, from)],
            marks[first_invalid(rule, table, marks, form_len, from)],
            form_len,
        ) is None,
    decreases HEADER_COUNT - from,
{
    if from < HEADER_COUNT && classify(rule, table[from], marks[from], form_len) is Some {
        lemma_first_invalid(rule, table, marks, form_len, from + 1);
    }
}

/// `trimmed` is the one count at which the chained never-used slots
/// before `n` begin: every slot from it up to `n` is chained, and the slot
/// before it, if there is one, is not.
pub proof fn lemma_trimmed(parsed: Seq<Header>, n: int)
    requires
        0 <= n,
    ensures
        0 <= trimmed(parsed, n) <= n,
        forall|k: int| trimmed(parsed, n) <= k < n ==> chained(parsed, k),
        trimmed(parsed, n) > 0 ==> !chained(parsed, trimmed(parsed, n) - 1),
    decreases n,
{
    if n > 0 && chained(parsed, n - 1) {
        lemma_trimmed(parsed, n - 1);
    }
}

/// `first_unused` names a never-used slot before which, from `from` on,
/// no slot is never-used, or `upto` where there is none.
pub proof fn lemma_first_unused(parsed: Seq<Header>, from: int, upto: int)
    requires
        from <= upto,
    ensures
        from <= first_unused(parsed, from, upto) <= upto,
        forall|i: int| from <= i < first_unused(parsed, from, upto) ==> !(parsed[i] is Unused),
        first_unused(parsed, from, upto) < upto ==> parsed[first_unused(
            parsed,
            from,
            upto,
        )] is Unused,
    decreases upto - from,
{
    if from < upto && !(parsed[from] is Unused) {
        lemma_first_unused(parsed, from + 1, upto);
    }
}

impl RawHeaders {
    /// Checks the region-wide fields.
    pub fn intact(&self) -> (b: bool)
        ensures
            b == region_intact(self.asmdisc, self.pad@),
    {
        self.asmdisc == TABLE_BASE && self.pad[0] == 0 && self.pad[1] == 0
    }

    /// Classifies every block header, given which slots the free lists
    /// hold; fails at the first header of no known shape.
    pub fn classify_all(
        &self,
        rule: SentinelRule,
        free: &[bool; HEADER_COUNT],
        form_len: u16,
    ) -> (r: Result<[Header; HEADER_COUNT], HeaderError>)
        ensures
            first_invalid(rule, self.headers@, free@, form_len as int, 0) < HEADER_COUNT ==> r
                == Err::<[Header; HEADER_COUNT], HeaderError>(
                HeaderError::InvalidDescriptor(
                    first_invalid(rule, self.headers@, free@, form_len as int, 0) as usize,
                ),
            ),
            first_invalid(rule, self.headers@, free@, form_len as int, 0) >= HEADER_COUNT ==> r
                is Ok && r->Ok_0@ == classified(rule, self.headers@, free@, form_len as int),
            r matches Ok(parsed) ==> forall|i: int|
                0 <= i < HEADER_COUNT ==> (#[trigger] parsed@[i]).wf() && parsed@[i].within(
                    form_len as int,
                ),
    {
        let mut parsed = [Header::Unused { next: 0 }; HEADER_COUNT];
        let mut i: usize = 0;
        while i < HEADER_COUNT
            invariant
                i <= HEADER_COUNT,
                first_invalid(rule, self.headers@, free@, form_len as int, i as int)
                    == first_invalid(rule, self.headers@, free@, form_len as int, 0),
                forall|j: int|
                    0 <= j < i ==> Some(#[trigger] parsed@[j]) == classify(
                        rule,
                        self.headers@[j],
                        free@[j],
                        form_len as int,
                    ),
                forall|j: int|
                    0 <= j < i ==> (#[trigger] parsed@[j]).wf() && parsed@[j].within(
                        form_len as int,
                    ),
            decreases HEADER_COUNT - i,
        {
            match Header::from_raw_by(rule, &self.headers[i], free[i], form_len) {
                None => {
                    return Err(HeaderError::InvalidDescriptor(i));
                },
                Some(header) => {
                    parsed[i] = header;
                },
            }
            i += 1;
        }
        assert(parsed@ =~= classified(rule, self.headers@, free@, form_len as int));
        Ok(parsed)
    }
}

impl Headers {
    /// The classified headers of the used prefix.
    pub open spec fn live(&self) -> Seq<Header> {
        self.headers@.take(self.used as int)
    }

    /// The shape of a reconstructed table: the used prefix holds no
    /// never-used header and only well-formed ones, and the tail behind it
    /// is the chain of never-used headers.
    pub open spec fn wf(&self) -> bool {
        &&& self.used <= HEADER_COUNT
        &&& self.used == used_count(self.headers@)
        &&& forall|i: int|
            0 <= i < self.used ==> !(#[trigger] self.headers@[i] is Unused) && self.headers@[i].wf()
    }

    /// Whether every live block ends inside an image of `form_len` bytes.
    pub open spec fn within(&self, form_len: int) -> bool {
        forall|i: int| 0 <= i < self.used ==> (#[trigger] self.headers@[i]).within(form_len)
    }

    /// The number of headers before the chained never-used tail of a
    /// classified table.
    pub fn trim_unused(parsed: &[Header; HEADER_COUNT]) -> (used: usize)
        ensures
            used == used_count(parsed@),
            used <= HEADER_COUNT,
            forall|k: int| used <= k < HEADER_COUNT ==> chained(parsed@, k),
            used > 0 ==> !chained(parsed@, used - 1),
    {
        proof {
            lemma_trimmed(parsed@, HEADER_COUNT as int);
        }
        let mut used: usize = HEADER_COUNT;
        if parsed[HEADER_COUNT - 1].is_unused_with(0) {
            used -= 1;
            let mut next: u16 = RawHeader::pointer_from_index(used);
            while used > 0 && parsed[used - 1].is_unused_with(next)
                invariant
                    used < HEADER_COUNT,
                    next == pointer_of(used as int),
                    trimmed(parsed@, used as int) == used_count(parsed@),
                decreases used,
            {
                used -= 1;
                next -= 8;
            }
        }
        used
    }

    /// Checks that the table has the shape of a reconstructed one.
    pub fn check(&self) -> (b: bool)
        ensures
            b == self.wf(),
    {
        if self.used > HEADER_COUNT || self.used != Headers::trim_unused(&self.headers) {
            return false;
        }
        let mut i: usize = 0;
        while i < self.used
            invariant
                i <= self.used <= HEADER_COUNT,
                self.used == used_count(self.headers@),
                forall|j: int|
                    0 <= j < i ==> !(#[trigger] self.headers@[j] is Unused)
                        && self.headers@[j].wf(),
            decreases self.used - i,
        {
            let header = self.headers[i];
            if header.is_unused() || !header.check() {
                return false;
            }
            i += 1;
        }
        true
    }

    /// The first never-used slot inside the used prefix, if there is one.
    pub fn stray_unused(parsed: &[Header; HEADER_COUNT], used: usize) -> (r: Option<usize>)
        requires
            used <= HEADER_COUNT,
        ensures
            r is Some <==> first_unused(parsed@, 0, used as int) < used,
            r matches Some(i) ==> i == first_unused(parsed@, 0, used as int),
    {
        let mut i: usize = 0;
        while i < used
            invariant
                i <= used <= HEADER_COUNT,
                first_unused(parsed@, i as int, used as int) == first_unused(
                    parsed@,
                    0,
                    used as int,
                ),
            decreases used - i,
        {
            if parsed[i].is_unused() {
                return Some(i);
            }
            i += 1;
        }
        None
    }

    /// Reconstructs the classified header table of an image. A header that
    /// never held a block is held to the strict rule.
    pub fn from_form(form: &[u8]) -> (r: Result<Headers, HeaderError>)
        requires
            form@.len() <= MAX_IMAGE_LEN,
        ensures
            match reconstruct(SentinelRule::Strict, form@) {
                Ok((parsed, used)) => r is Ok && r->Ok_0.headers@ == parsed && r->Ok_0.used
                    == used,
                Err(e) => r == Err::<Headers, HeaderError>(e),
            },
            r matches Ok(h) ==> h.wf() && h.within(form@.len() as int),
    {
        Headers::from_form_by(SentinelRule::Strict, form)
    }

    /// Reconstructs the classified header table of an image, with the
    /// given rule for a header that never held a block.
    pub fn from_form_by(rule: SentinelRule, form: &[u8]) -> (r: Result<Headers, HeaderError>)
        requires
            form@.len() <= MAX_IMAGE_LEN,
        ensures
            match reconstruct(rule, form@) {
                Ok((parsed, used)) => r is Ok && r->Ok_0.headers@ == parsed && r->Ok_0.used
                    == used,
                Err(e) => r == Err::<Headers, HeaderError>(e),
            },
            r matches Ok(h) ==> h.wf() && h.within(form@.len() as int),
    {
        let raw = match RawHeaders::from_form(form) {
            Err(e) => {
                return Err(e);
            },
            Ok(raw) => raw,
        };
        let free = match raw.free_slots() {
            Err(e) => {
                return Err(e);
            },
            Ok(free) => free,
        };
        if !raw.intact() {
            return Err(HeaderError::CorruptHeaderRegion);
        }
        let form_len: u16 = form.len() as u16;
        let parsed = match raw.classify_all(rule, &free, form_len) {
            Err(e) => {
                return Err(e);
            },
            Ok(parsed) => parsed,
        };
        let used = Headers::trim_unused(&parsed);
        match Headers::stray_unused(&parsed, used) {
            Some(i) => {
                return Err(HeaderError::UnusedWithinLiveRange(i));
            },
            None => {},
        }
        proof {
            lemma_first_unused(parsed@, 0, used as int);
        }
        Ok(Headers { headers: parsed, used })
    }
}

} // verus!

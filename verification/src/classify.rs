//! Classification of one block header against the shapes that a header of
//! the allocator can have.

use vstd::prelude::*;
use vstd::arithmetic::power2::is_pow2;
use crate::layout::{RawHeader, DATA_SIZE, HEADERS_SIZE};

verus! {

/// What a block header stands for.
#[derive(Clone, Copy, Debug, PartialEq, Eq, Structural)]
pub enum Header {
    /// A live block of `capacity` bytes at `ptr`, of which `len` are written.
    Alloc { ptr: u16, len: u16, capacity: u16 },
    /// A free block of `capacity` bytes at `ptr`; `next` links to the next
    /// free header of its list.
    Freed { next: u16, ptr: u16, capacity: u16 },
    /// A header that never held a block; `next` links to the next free
    /// header of its list.
    Unused { next: u16 },
}

/// How the read cursor of a header that never held a block is held to
/// account.
#[derive(Clone, Copy, Debug, PartialEq, Eq, Structural)]
pub enum SentinelRule {
    /// The read cursor lies at the start of the data area.
    Strict,
    /// The read cursor lies at the start of the data area or is zero.
    Lenient,
}

/// The shape of a free header that never held a block.
pub open spec fn unused_shape(rule: SentinelRule, h: RawHeader) -> bool {
    &&& h.start == HEADERS_SIZE
    &&& h.end == HEADERS_SIZE
    &&& (h.read == HEADERS_SIZE || (rule == SentinelRule::Lenient && h.read == 0))
}

/// The shape of a free header that holds a block.
pub open spec fn freed_shape(h: RawHeader) -> bool {
    &&& h.start >= HEADERS_SIZE
    &&& h.end <= HEADERS_SIZE + DATA_SIZE
    &&& h.start <= h.end
    &&& is_pow2(h.end - h.start)
    &&& (h.read == HEADERS_SIZE || h.read == 0)
}

/// The shape of the header of a live block in an image of `form_len` bytes.
pub open spec fn alloc_shape(h: RawHeader, form_len: int) -> bool {
    &&& h.start >= HEADERS_SIZE
    &&& h.end <= HEADERS_SIZE + DATA_SIZE
    &&& h.start <= h.end
    &&& is_pow2(h.end - h.start)
    &&& h.end <= form_len
    &&& h.start <= h.read <= h.end
    &&& h.start <= h.write <= h.end
    &&& h.read <= h.write
}

/// What a block header stands for, given whether a free list holds it;
/// `None` where it has none of the known shapes.
pub open spec fn classify(
    rule: SentinelRule,
    h: RawHeader,
    is_free: bool,
    form_len: int,
) -> Option<Header> {
    if is_free {
        if unused_shape(rule, h) {
            Some(Header::Unused { next: h.write })
        } else if freed_shape(h) {
            Some(
                Header::Freed { next: h.write, ptr: h.start, capacity: (h.end - h.start) as u16 },
            )
        } else {
            None
        }
    } else {
        if alloc_shape(h, form_len) {
            Some(
                Header::Alloc {
                    ptr: h.start,
                    len: (h.write - h.start) as u16,
                    capacity: (h.end - h.start) as u16,
                },
            )
        } else {
            None
        }
    }
}

/// A header has at most one of the three shapes, and it is classified
/// exactly when it has the one that its free-list membership admits; the
/// variant then names that shape.
pub proof fn lemma_classify_exclusive(
    rule: SentinelRule,
    h: RawHeader,
    is_free: bool,
    form_len: int,
)
    ensures
        !(unused_shape(rule, h) && freed_shape(h)),
        classify(rule, h, is_free, form_len) is Some <==> (is_free && (unused_shape(rule, h)
            || freed_shape(h))) || (!is_free && alloc_shape(h, form_len)),
        classify(rule, h, is_free, form_len) matches Some(Header::Unused { .. }) <==> is_free
            && unused_shape(rule, h),
        classify(rule, h, is_free, form_len) matches Some(Header::Freed { .. }) <==> is_free
            && freed_shape(h),
        classify(rule, h, is_free, form_len) matches Some(Header::Alloc { .. }) <==> !is_free
            && alloc_shape(h, form_len),
{
    reveal_with_fuel(is_pow2, 1);
}

/// What classification yields is well formed and, for a live block, lies
/// inside the image.
pub proof fn lemma_classify_wf(rule: SentinelRule, h: RawHeader, is_free: bool, form_len: int)
    ensures
        classify(rule, h, is_free, form_len) matches Some(x) ==> x.wf() && x.within(form_len),
{
}

/// The powers of two below 2^16 are the sixteen values with one bit set.
pub proof fn lemma_pow2_u16(n: u16)
    ensures
        is_pow2(n as int) <==> (n == 1 || n == 2 || n == 4 || n == 8 || n == 16 || n == 32 || n
            == 64 || n == 128 || n == 256 || n == 512 || n == 1024 || n == 2048 || n == 4096 || n
            == 8192 || n == 16384 || n == 32768),
{
    reveal_with_fuel(is_pow2, 17);
}

/// Whether `n` is a power of two.
pub fn is_power_of_two(n: u16) -> (b: bool)
    ensures
        b == is_pow2(n as int),
{
    proof {
        lemma_pow2_u16(n);
    }
    assert((n != 0 && n & ((n - 1) as u16) == 0) <==> (n == 1 || n == 2 || n == 4 || n == 8 || n
        == 16 || n == 32 || n == 64 || n == 128 || n == 256 || n == 512 || n == 1024 || n == 2048
        || n == 4096 || n == 8192 || n == 16384 || n == 32768)) by (bit_vector);
    n != 0 && n & (n - 1) == 0
}

impl Header {
    /// The bounds that classification establishes: a block lies inside the
    /// data area, its capacity is a power of two, and no more of a live
    /// block is written than it holds.
    pub open spec fn wf(self) -> bool {
        match self {
            Header::Alloc { ptr, len, capacity } => {
                &&& ptr >= HEADERS_SIZE
                &&& ptr + capacity <= HEADERS_SIZE + DATA_SIZE
                &&& is_pow2(capacity as int)
                &&& len <= capacity
            },
            Header::Freed { ptr, capacity, .. } => {
                &&& ptr >= HEADERS_SIZE
                &&& ptr + capacity <= HEADERS_SIZE + DATA_SIZE
                &&& is_pow2(capacity as int)
            },
            Header::Unused { .. } => true,
        }
    }

    /// The offset of the first byte of the block of a live or free header.
    pub open spec fn block_start(self) -> int {
        match self {
            Header::Alloc { ptr, .. } => ptr as int,
            Header::Freed { ptr, .. } => ptr as int,
            Header::Unused { .. } => 0,
        }
    }

    /// The offset one past the last byte of the block of a live or free
    /// header.
    pub open spec fn block_end(self) -> int {
        match self {
            Header::Alloc { ptr, capacity, .. } => ptr + capacity,
            Header::Freed { ptr, capacity, .. } => ptr + capacity,
            Header::Unused { .. } => 0,
        }
    }

    /// Whether a live block ends inside an image of `form_len` bytes; free
    /// and never-used headers are not held to this.
    pub open spec fn within(self, form_len: int) -> bool {
        self matches Header::Alloc { ptr, capacity, .. } ==> ptr + capacity <= form_len
    }

    /// Whether this is a header that never held a block.
    pub fn is_unused(&self) -> (b: bool)
        ensures
            b == (*self is Unused),
    {
        match *self {
            Header::Unused { .. } => true,
            _ => false,
        }
    }

    /// Checks the bounds that classification establishes.
    pub fn check(&self) -> (b: bool)
        ensures
            b == self.wf(),
    {
        match *self {
            Header::Alloc { ptr, len, capacity } => {
                ptr >= HEADERS_SIZE && ptr <= HEADERS_SIZE + DATA_SIZE && capacity <= HEADERS_SIZE
                    + DATA_SIZE - ptr && is_power_of_two(capacity) && len <= capacity
            },
            Header::Freed { ptr, capacity, .. } => {
                ptr >= HEADERS_SIZE && ptr <= HEADERS_SIZE + DATA_SIZE && capacity <= HEADERS_SIZE
                    + DATA_SIZE - ptr && is_power_of_two(capacity)
            },
            Header::Unused { .. } => true,
        }
    }

    /// Whether this is a never-used header that holds the link `next`.
    pub fn is_unused_with(&self, next: u16) -> (b: bool)
        ensures
            b == (*self == (Header::Unused { next })),
    {
        match *self {
            Header::Unused { next: link } => link == next,
            _ => false,
        }
    }

    /// Classifies a block header, given whether a free list holds it and
    /// the length of the image. A header that never held a block is held
    /// to the strict rule.
    pub fn from_raw(header: &RawHeader, is_free: bool, form_len: u16) -> (r: Option<Header>)
        ensures
            r == classify(SentinelRule::Strict, *header, is_free, form_len as int),
            r matches Some(x) ==> x.wf() && x.within(form_len as int),
    {
        Header::from_raw_by(SentinelRule::Strict, header, is_free, form_len)
    }

    /// Classifies a block header, given whether a free list holds it and
    /// the length of the image, with the given rule for a header that never
    /// held a block.
    pub fn from_raw_by(
        rule: SentinelRule,
        header: &RawHeader,
        is_free: bool,
        form_len: u16,
    ) -> (r: Option<Header>)
        ensures
            r == classify(rule, *header, is_free, form_len as int),
            r matches Some(x) ==> x.wf() && x.within(form_len as int),
    {
        if is_free {
            if header.start == HEADERS_SIZE && header.end == HEADERS_SIZE {
                let lenient = match rule {
                    SentinelRule::Strict => false,
                    SentinelRule::Lenient => true,
                };
                if header.read != HEADERS_SIZE && !(lenient && header.read == 0) {
                    proof {
                        reveal_with_fuel(is_pow2, 1);
                    }
                    return None;
                }
                Some(Header::Unused { next: header.write })
            } else {
                if header.start >= HEADERS_SIZE && header.end <= HEADERS_SIZE + DATA_SIZE
                    && header.start <= header.end && is_power_of_two(header.end - header.start) && (
                header.read == HEADERS_SIZE || header.read == 0) {
                    Some(
                        Header::Freed {
                            next: header.write,
                            ptr: header.start,
                            capacity: header.end - header.start,
                        },
                    )
                } else {
                    None
                }
            }
        } else {
            if header.start >= HEADERS_SIZE && header.end <= HEADERS_SIZE + DATA_SIZE
                && header.start <= header.end && is_power_of_two(header.end - header.start)
                && header.end <= form_len && header.start <= header.read && header.read
                <= header.end && header.start <= header.write && header.write <= header.end
                && header.read <= header.write {
                Some(
                    Header::Alloc {
                        ptr: header.start,
                        len: header.write - header.start,
                        capacity: header.end - header.start,
                    },
                )
            } else {
                None
            }
        }
    }
}

} // verus!

//! Byte layout of the header region at the front of an image, and its
//! decoding into free-list roots, discriminant, block headers and padding.

use vstd::prelude::*;
use crate::error::HeaderError;

verus! {

/// Size in bytes of the header region; the data area starts here.
pub const HEADERS_SIZE: u16 = 6144;

/// Size in bytes of the data area that follows the header region.
pub const DATA_SIZE: u16 = 32768;

/// Number of free-list roots at the front of the header region.
pub const FREE_LIST_LEN: usize = 17;

/// Byte offset of the discriminant, right behind the free-list roots.
pub const DISCRIMINANT_AT: usize = 34;

/// Byte offset of the first block header inside the header region.
pub const TABLE_BASE: u16 = 36;

/// Size in bytes of one block header.
pub const HEADER_BYTES: u16 = 8;

/// Number of block headers in the table.
pub const HEADER_COUNT: usize = 763;

/// Byte offset of the padding behind the table.
pub const PAD_AT: usize = 6140;

/// Number of 16-bit padding words behind the table.
pub const PAD_LEN: usize = 2;

/// Largest image that 16-bit offsets can address.
pub const MAX_IMAGE_LEN: usize = 65535;

/// A four-word block header as it lies in the image.
#[derive(Clone, Copy, Debug, PartialEq, Eq, Structural)]
pub struct RawHeader {
    /// Write cursor of a live block; link to the next header of a free one.
    pub write: u16,
    /// Read cursor.
    pub read: u16,
    /// Offset of the first data byte.
    pub start: u16,
    /// Offset one past the last data byte.
    pub end: u16,
}

/// The decoded header region.
pub struct RawHeaders {
    /// Links to the first free header of each list.
    pub free_list: [u16; FREE_LIST_LEN],
    /// The discriminant word.
    pub asmdisc: u16,
    /// The block headers.
    pub headers: [RawHeader; HEADER_COUNT],
    /// The padding words behind the table.
    pub pad: [u16; PAD_LEN],
}

/// The little-endian 16-bit word whose first byte lies at `at`.
pub open spec fn word_at(bytes: Seq<u8>, at: int) -> u16 {
    (bytes[at] as int + 256 * (bytes[at + 1] as int)) as u16
}

/// The link value that addresses the table slot `index`.
pub open spec fn pointer_of(index: int) -> int {
    TABLE_BASE as int + (HEADER_BYTES as int) * index
}

/// Whether a link value addresses a slot of the table.
pub open spec fn pointer_in_table(ptr: u16) -> bool {
    TABLE_BASE <= ptr && ptr < PAD_AT
}

/// The table slot that a link value addresses.
pub open spec fn slot_of(ptr: u16) -> int {
    (ptr as int - TABLE_BASE as int) / (HEADER_BYTES as int)
}

/// The block header at table slot `index` of a header region.
pub open spec fn header_at(bytes: Seq<u8>, index: int) -> RawHeader {
    RawHeader {
        write: word_at(bytes, pointer_of(index)),
        read: word_at(bytes, pointer_of(index) + 2),
        start: word_at(bytes, pointer_of(index) + 4),
        end: word_at(bytes, pointer_of(index) + 6),
    }
}

/// The free-list roots of a header region.
pub open spec fn roots_of(bytes: Seq<u8>) -> Seq<u16> {
    Seq::new(FREE_LIST_LEN as nat, |k: int| word_at(bytes, 2 * k))
}

/// The block headers of a header region.
pub open spec fn table_of(bytes: Seq<u8>) -> Seq<RawHeader> {
    Seq::new(HEADER_COUNT as nat, |i: int| header_at(bytes, i))
}

/// The padding words of a header region.
pub open spec fn padding_of(bytes: Seq<u8>) -> Seq<u16> {
    Seq::new(PAD_LEN as nat, |j: int| word_at(bytes, PAD_AT as int + 2 * j))
}

/// The parts of the layout fill the header region exactly, and every slot
/// converts to a link and back.
pub proof fn lemma_layout_consistent()
    ensures
        2 * FREE_LIST_LEN == DISCRIMINANT_AT,
        DISCRIMINANT_AT + 2 == TABLE_BASE,
        pointer_of(HEADER_COUNT as int) == PAD_AT,
        PAD_AT + 2 * PAD_LEN == HEADERS_SIZE,
        HEADERS_SIZE + DATA_SIZE <= MAX_IMAGE_LEN,
        forall|i: int|
            0 <= i < HEADER_COUNT ==> pointer_in_table(#[trigger] pointer_of(i) as u16) && slot_of(
                pointer_of(i) as u16,
            ) == i,
        forall|p: u16| #[trigger]
            pointer_in_table(p) ==> 0 <= slot_of(p) < HEADER_COUNT && pointer_of(slot_of(p)) <= p
                < pointer_of(slot_of(p)) + HEADER_BYTES,
{
}

/// Reads the little-endian 16-bit word at `at`.
pub fn read_word(bytes: &[u8], at: usize) -> (w: u16)
    requires
        at + 1 < bytes@.len(),
    ensures
        w == word_at(bytes@, at as int),
{
    let lo: u16 = bytes[at] as u16;
    let hi: u16 = bytes[at + 1] as u16;
    hi * 256 + lo
}

impl RawHeader {
    /// The table slot that a link addresses, if it addresses one.
    pub fn index_from_pointer(ptr: u16) -> (index: Option<usize>)
        ensures
            index is Some <==> pointer_in_table(ptr),
            index matches Some(i) ==> i == slot_of(ptr) && i < HEADER_COUNT,
    {
        if ptr < TABLE_BASE || ptr as usize >= PAD_AT {
            None
        } else {
            Some(((ptr - TABLE_BASE) / HEADER_BYTES) as usize)
        }
    }

    /// The link that addresses the table slot `index`.
    pub fn pointer_from_index(index: usize) -> (ptr: u16)
        requires
            pointer_of(index as int) <= u16::MAX,
        ensures
            ptr == pointer_of(index as int),
    {
        TABLE_BASE + HEADER_BYTES * (index as u16)
    }

    /// Reads the block header at table slot `index` of a header region.
    pub fn decode(bytes: &[u8], index: usize) -> (h: RawHeader)
        requires
            index < HEADER_COUNT,
            bytes@.len() >= HEADERS_SIZE,
        ensures
            h == header_at(bytes@, index as int),
    {
        let at: usize = RawHeader::pointer_from_index(index) as usize;
        RawHeader {
            write: read_word(bytes, at),
            read: read_word(bytes, at + 2),
            start: read_word(bytes, at + 4),
            end: read_word(bytes, at + 6),
        }
    }
}

impl RawHeaders {
    /// Whether this value holds the header region at the front of `bytes`.
    pub open spec fn decodes(&self, bytes: Seq<u8>) -> bool {
        &&& self.free_list@ == roots_of(bytes)
        &&& self.asmdisc == word_at(bytes, DISCRIMINANT_AT as int)
        &&& self.headers@ == table_of(bytes)
        &&& self.pad@ == padding_of(bytes)
    }

    /// Decodes the header region at the front of an image. Nothing but the
    /// length is checked here.
    pub fn from_form(form: &[u8]) -> (r: Result<RawHeaders, HeaderError>)
        ensures
            form@.len() < HEADERS_SIZE ==> r == Err::<RawHeaders, HeaderError>(
                HeaderError::TruncatedImage,
            ),
            form@.len() >= HEADERS_SIZE ==> r is Ok && r->Ok_0.decodes(form@),
    {
        if form.len() < HEADERS_SIZE as usize {
            return Err(HeaderError::TruncatedImage);
        }
        let mut free_list = [0u16; FREE_LIST_LEN];
        let mut k: usize = 0;
        while k < FREE_LIST_LEN
            invariant
                k <= FREE_LIST_LEN,
                form@.len() >= HEADERS_SIZE,
                forall|j: int| 0 <= j < k ==> free_list@[j] == word_at(form@, 2 * j),
            decreases FREE_LIST_LEN - k,
        {
            free_list[k] = read_word(form, 2 * k);
            k += 1;
        }
        let asmdisc = read_word(form, DISCRIMINANT_AT);
        let mut headers = [RawHeader { write: 0, read: 0, start: 0, end: 0 }; HEADER_COUNT];
        let mut i: usize = 0;
        while i < HEADER_COUNT
            invariant
                i <= HEADER_COUNT,
                form@.len() >= HEADERS_SIZE,
                forall|j: int| 0 <= j < i ==> headers@[j] == header_at(form@, j),
            decreases HEADER_COUNT - i,
        {
            headers[i] = RawHeader::decode(form, i);
            i += 1;
        }
        let mut pad = [0u16; PAD_LEN];
        let mut j: usize = 0;
        while j < PAD_LEN
            invariant
                j <= PAD_LEN,
                form@.len() >= HEADERS_SIZE,
                forall|m: int| 0 <= m < j ==> pad@[m] == word_at(form@, PAD_AT as int + 2 * m),
            decreases PAD_LEN - j,
        {
            pad[j] = read_word(form, PAD_AT + 2 * j);
            j += 1;
        }
        proof {
            assert(free_list@ =~= roots_of(form@));
            assert(headers@ =~= table_of(form@));
            assert(pad@ =~= padding_of(form@));
        }
        Ok(RawHeaders { free_list, asmdisc, headers, pad })
    }
}

} // verus!

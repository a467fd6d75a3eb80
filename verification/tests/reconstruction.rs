use heap_image::classify::{Header, SentinelRule};
use heap_image::error::HeaderError;
use heap_image::headers::Headers;
use heap_image::layout::{
    read_word, RawHeader, RawHeaders, DATA_SIZE, HEADERS_SIZE, HEADER_COUNT, TABLE_BASE,
};

const BASE: u16 = 6144;
const FULL: usize = 6144 + 32768;

fn put_word(image: &mut [u8], at: usize, word: u16) {
    image[at] = (word & 0xff) as u8;
    image[at + 1] = (word >> 8) as u8;
}

fn pointer(index: usize) -> u16 {
    (36 + 8 * index) as u16
}

fn put_header(image: &mut [u8], index: usize, write: u16, read: u16, start: u16, end: u16) {
    let at = 36 + 8 * index;
    put_word(image, at, write);
    put_word(image, at + 2, read);
    put_word(image, at + 4, start);
    put_word(image, at + 6, end);
}

/// An image whose slots from `first_unused` on were never used and hang on
/// the last free list; the slots before it are left zero for the test to
/// fill.
fn image_with_unused_tail(len: usize, first_unused: usize) -> Vec<u8> {
    let mut image = vec![0u8; len];
    put_word(&mut image, 34, 36);
    if first_unused < 763 {
        put_word(&mut image, 2 * 16, pointer(first_unused));
    }
    for k in first_unused..763 {
        let next = if k == 762 { 0 } else { pointer(k + 1) };
        put_header(&mut image, k, next, BASE, BASE, BASE);
    }
    image
}

fn raw(write: u16, read: u16, start: u16, end: u16) -> RawHeader {
    RawHeader { write, read, start, end }
}

#[test]
fn layout_constants_fill_the_header_region() {
    assert_eq!(HEADERS_SIZE, 6144);
    assert_eq!(DATA_SIZE, 32768);
    assert_eq!(HEADER_COUNT, 763);
    assert_eq!(TABLE_BASE, 36);
    assert_eq!(36 + 8 * HEADER_COUNT + 4, HEADERS_SIZE as usize);
}

#[test]
fn read_word_is_little_endian() {
    let bytes = [0x34u8, 0x12, 0xff, 0xff, 0x00, 0x80];
    assert_eq!(read_word(&bytes, 0), 0x1234);
    assert_eq!(read_word(&bytes, 1), 0xff12);
    assert_eq!(read_word(&bytes, 2), 0xffff);
    assert_eq!(read_word(&bytes, 4), 0x8000);
}

#[test]
fn pointer_and_index_convert_both_ways() {
    assert_eq!(RawHeader::pointer_from_index(0), 36);
    assert_eq!(RawHeader::pointer_from_index(1), 44);
    assert_eq!(RawHeader::pointer_from_index(762), 6132);
    assert_eq!(RawHeader::index_from_pointer(36), Some(0));
    assert_eq!(RawHeader::index_from_pointer(43), Some(0));
    assert_eq!(RawHeader::index_from_pointer(44), Some(1));
    assert_eq!(RawHeader::index_from_pointer(6132), Some(762));
    assert_eq!(RawHeader::index_from_pointer(6139), Some(762));
    for index in 0..763usize {
        let ptr = RawHeader::pointer_from_index(index);
        assert_eq!(RawHeader::index_from_pointer(ptr), Some(index));
    }
}

#[test]
fn pointer_outside_the_table_has_no_index() {
    assert_eq!(RawHeader::index_from_pointer(0), None);
    assert_eq!(RawHeader::index_from_pointer(35), None);
    assert_eq!(RawHeader::index_from_pointer(6140), None);
    assert_eq!(RawHeader::index_from_pointer(65535), None);
}

#[test]
fn decoder_rejects_truncated_image() {
    let image = vec![0u8; 6143];
    assert_eq!(RawHeaders::from_form(&image).err(), Some(HeaderError::TruncatedImage));
    assert_eq!(Headers::from_form(&image).err(), Some(HeaderError::TruncatedImage));
    let empty: Vec<u8> = Vec::new();
    assert_eq!(Headers::from_form(&empty).err(), Some(HeaderError::TruncatedImage));
}

#[test]
fn decoder_reads_every_field_at_its_offset() {
    let mut image = vec![0u8; 6144];
    put_word(&mut image, 0, 0x0102);
    put_word(&mut image, 32, 0x0a0b);
    put_word(&mut image, 34, 0x1122);
    put_header(&mut image, 0, 1, 2, 3, 4);
    put_header(&mut image, 5, 0x1111, 0x2222, 0x3333, 0x4444);
    put_header(&mut image, 762, 0xfffe, 0xfffd, 0xfffc, 0xfffb);
    put_word(&mut image, 6140, 0x5566);
    put_word(&mut image, 6142, 0x7788);
    let decoded = RawHeaders::from_form(&image).unwrap();
    assert_eq!(decoded.free_list[0], 0x0102);
    assert_eq!(decoded.free_list[1], 0);
    assert_eq!(decoded.free_list[16], 0x0a0b);
    assert_eq!(decoded.asmdisc, 0x1122);
    assert_eq!(decoded.headers[0], raw(1, 2, 3, 4));
    assert_eq!(decoded.headers[1], raw(0, 0, 0, 0));
    assert_eq!(decoded.headers[5], raw(0x1111, 0x2222, 0x3333, 0x4444));
    assert_eq!(decoded.headers[762], raw(0xfffe, 0xfffd, 0xfffc, 0xfffb));
    assert_eq!(decoded.pad, [0x5566, 0x7788]);
}

#[test]
fn decoder_does_not_check_discriminant_or_padding() {
    let image = vec![0xffu8; 6144];
    let decoded = RawHeaders::from_form(&image).unwrap();
    assert_eq!(decoded.asmdisc, 0xffff);
    assert!(!decoded.intact());
}

#[test]
fn walker_marks_each_slot_of_a_list_once() {
    let mut image = vec![0u8; 6144];
    put_word(&mut image, 0, pointer(7));
    put_header(&mut image, 7, pointer(3), 0, 0, 0);
    put_header(&mut image, 3, pointer(700), 0, 0, 0);
    put_header(&mut image, 700, 0, 0, 0, 0);
    let decoded = RawHeaders::from_form(&image).unwrap();
    let mut free = [false; HEADER_COUNT];
    assert_eq!(RawHeaders::visit_free(&mut free, &decoded, decoded.free_list[0]), Ok(()));
    for index in 0..HEADER_COUNT {
        assert_eq!(free[index], index == 7 || index == 3 || index == 700);
    }
    assert_eq!(free.iter().filter(|&&marked| marked).count(), 3);
}

#[test]
fn walker_stops_at_zero_root() {
    let image = vec![0u8; 6144];
    let decoded = RawHeaders::from_form(&image).unwrap();
    let mut free = [false; HEADER_COUNT];
    assert_eq!(RawHeaders::visit_free(&mut free, &decoded, 0), Ok(()));
    assert!(free.iter().all(|&marked| !marked));
    assert_eq!(decoded.free_slots().unwrap(), [false; HEADER_COUNT]);
}

#[test]
fn walker_follows_every_root_in_turn() {
    let mut image = vec![0u8; 6144];
    put_word(&mut image, 2 * 2, pointer(10));
    put_word(&mut image, 2 * 9, pointer(20));
    put_header(&mut image, 10, pointer(11), 0, 0, 0);
    put_header(&mut image, 20, 0, 0, 0, 0);
    let decoded = RawHeaders::from_form(&image).unwrap();
    let free = decoded.free_slots().unwrap();
    for index in 0..HEADER_COUNT {
        assert_eq!(free[index], index == 10 || index == 11 || index == 20);
    }
}

#[test]
fn walker_rejects_self_loop() {
    let mut image = vec![0u8; 6144];
    put_word(&mut image, 0, pointer(4));
    put_header(&mut image, 4, pointer(4), 0, 0, 0);
    let decoded = RawHeaders::from_form(&image).unwrap();
    let mut free = [false; HEADER_COUNT];
    assert_eq!(
        RawHeaders::visit_free(&mut free, &decoded, pointer(4)),
        Err(HeaderError::DuplicateFreeSlot(pointer(4)))
    );
    assert!(free[4]);
    assert_eq!(decoded.free_slots().err(), Some(HeaderError::DuplicateFreeSlot(pointer(4))));
    assert_eq!(Headers::from_form(&image).err(), Some(HeaderError::DuplicateFreeSlot(pointer(4))));
}

#[test]
fn walker_rejects_longer_cycle() {
    let mut image = vec![0u8; 6144];
    put_word(&mut image, 0, pointer(1));
    put_header(&mut image, 1, pointer(2), 0, 0, 0);
    put_header(&mut image, 2, pointer(3), 0, 0, 0);
    put_header(&mut image, 3, pointer(2), 0, 0, 0);
    let decoded = RawHeaders::from_form(&image).unwrap();
    assert_eq!(decoded.free_slots().err(), Some(HeaderError::DuplicateFreeSlot(pointer(2))));
}

#[test]
fn walker_rejects_slot_shared_by_two_lists() {
    let mut image = vec![0u8; 6144];
    put_word(&mut image, 0, pointer(5));
    put_word(&mut image, 2, pointer(6));
    put_header(&mut image, 5, pointer(9), 0, 0, 0);
    put_header(&mut image, 6, pointer(9), 0, 0, 0);
    put_header(&mut image, 9, 0, 0, 0, 0);
    let decoded = RawHeaders::from_form(&image).unwrap();
    assert_eq!(decoded.free_slots().err(), Some(HeaderError::DuplicateFreeSlot(pointer(9))));
}

#[test]
fn walker_takes_unaligned_link_for_the_slot_it_lies_in() {
    let mut image = vec![0u8; 6144];
    put_word(&mut image, 0, pointer(5) + 3);
    let decoded = RawHeaders::from_form(&image).unwrap();
    let free = decoded.free_slots().unwrap();
    for index in 0..HEADER_COUNT {
        assert_eq!(free[index], index == 5);
    }
}

#[test]
fn walker_rejects_link_outside_the_table() {
    let mut image = vec![0u8; 6144];
    put_word(&mut image, 0, 6140);
    let decoded = RawHeaders::from_form(&image).unwrap();
    assert_eq!(decoded.free_slots().err(), Some(HeaderError::FreePointerOutOfRange(6140)));
    put_word(&mut image, 0, 35);
    let decoded = RawHeaders::from_form(&image).unwrap();
    assert_eq!(decoded.free_slots().err(), Some(HeaderError::FreePointerOutOfRange(35)));
    put_word(&mut image, 0, pointer(1));
    put_header(&mut image, 1, 0x8000, 0, 0, 0);
    let decoded = RawHeaders::from_form(&image).unwrap();
    assert_eq!(decoded.free_slots().err(), Some(HeaderError::FreePointerOutOfRange(0x8000)));
}

#[test]
fn classifier_accepts_live_block() {
    let header = raw(BASE + 5, BASE, BASE, BASE + 16);
    assert_eq!(
        Header::from_raw(&header, false, 38912),
        Some(Header::Alloc { ptr: 6144, len: 5, capacity: 16 })
    );
}

#[test]
fn classifier_accepts_live_block_at_the_bounds() {
    let full = raw(38912, 6144, 6144, 38912);
    assert_eq!(
        Header::from_raw(&full, false, 38912),
        Some(Header::Alloc { ptr: 6144, len: 32768, capacity: 32768 })
    );
    let one = raw(7000, 7000, 7000, 7001);
    assert_eq!(
        Header::from_raw(&one, false, 7001),
        Some(Header::Alloc { ptr: 7000, len: 0, capacity: 1 })
    );
}

#[test]
fn classifier_rejects_live_block_that_breaks_an_invariant() {
    let below_data = raw(6143, 6143, 6143, 6144);
    assert_eq!(Header::from_raw(&below_data, false, 38912), None);
    let past_data = raw(38912, 38912, 38912, 38913);
    assert_eq!(Header::from_raw(&past_data, false, 65535), None);
    let not_power = raw(7000, 7000, 7000, 7012);
    assert_eq!(Header::from_raw(&not_power, false, 38912), None);
    let empty = raw(7000, 7000, 7000, 7000);
    assert_eq!(Header::from_raw(&empty, false, 38912), None);
    let reversed = raw(7000, 7000, 7016, 7000);
    assert_eq!(Header::from_raw(&reversed, false, 38912), None);
    let past_image = raw(7000, 7000, 7000, 7016);
    assert_eq!(Header::from_raw(&past_image, false, 7015), None);
    let read_below = raw(7000, 6999, 7000, 7016);
    assert_eq!(Header::from_raw(&read_below, false, 38912), None);
    let read_above = raw(7016, 7017, 7000, 7016);
    assert_eq!(Header::from_raw(&read_above, false, 38912), None);
    let write_below = raw(6999, 7000, 7000, 7016);
    assert_eq!(Header::from_raw(&write_below, false, 38912), None);
    let write_above = raw(7017, 7000, 7000, 7016);
    assert_eq!(Header::from_raw(&write_above, false, 38912), None);
    let read_past_write = raw(7004, 7005, 7000, 7016);
    assert_eq!(Header::from_raw(&read_past_write, false, 38912), None);
}

#[test]
fn classifier_accepts_free_block() {
    let header = raw(44, 0, 7000, 7064);
    assert_eq!(
        Header::from_raw(&header, true, 38912),
        Some(Header::Freed { next: 44, ptr: 7000, capacity: 64 })
    );
    let read_at_base = raw(0, 6144, 6144, 6146);
    assert_eq!(
        Header::from_raw(&read_at_base, true, 38912),
        Some(Header::Freed { next: 0, ptr: 6144, capacity: 2 })
    );
}

#[test]
fn classifier_accepts_free_block_past_the_image() {
    let header = raw(0, 0, 30000, 30016);
    assert_eq!(
        Header::from_raw(&header, true, 7000),
        Some(Header::Freed { next: 0, ptr: 30000, capacity: 16 })
    );
    assert_eq!(Header::from_raw(&header, false, 7000), None);
}

#[test]
fn classifier_rejects_free_block_that_breaks_an_invariant() {
    let partial_read = raw(0, 7001, 7000, 7064);
    assert_eq!(Header::from_raw(&partial_read, true, 38912), None);
    let not_power = raw(0, 0, 7000, 7003);
    assert_eq!(Header::from_raw(&not_power, true, 38912), None);
    let below_data = raw(0, 0, 6000, 6256);
    assert_eq!(Header::from_raw(&below_data, true, 38912), None);
    let past_data = raw(0, 0, 38000, 39024);
    assert_eq!(Header::from_raw(&past_data, true, 65535), None);
    let reversed = raw(0, 0, 7016, 7000);
    assert_eq!(Header::from_raw(&reversed, true, 38912), None);
    let empty = raw(0, 0, 7000, 7000);
    assert_eq!(Header::from_raw(&empty, true, 38912), None);
}

#[test]
fn classifier_reads_sentinel_as_never_used() {
    let header = raw(52, BASE, BASE, BASE);
    assert_eq!(Header::from_raw(&header, true, 38912), Some(Header::Unused { next: 52 }));
    let wrong_read = raw(52, 0, BASE, BASE);
    assert_eq!(Header::from_raw(&wrong_read, true, 38912), None);
    assert_eq!(Header::from_raw(&header, false, 38912), None);
}

#[test]
fn classifier_tells_the_powers_of_two() {
    for exponent in 0..16u32 {
        assert!(heap_image::classify::is_power_of_two(1u16 << exponent));
    }
    for n in [0u16, 3, 5, 6, 7, 9, 12, 100, 255, 257, 32767, 32769, 65535] {
        assert!(!heap_image::classify::is_power_of_two(n));
    }
}

#[test]
fn reconstruction_of_a_table_that_was_never_used() {
    let image = image_with_unused_tail(6144, 0);
    let headers = Headers::from_form(&image).unwrap();
    assert_eq!(headers.used, 0);
    assert_eq!(headers.headers[762], Header::Unused { next: 0 });
    assert_eq!(headers.headers[0], Header::Unused { next: 44 });
    assert_eq!(headers.headers[761], Header::Unused { next: 6132 });
}

#[test]
fn reconstruction_classifies_every_slot() {
    let mut image = image_with_unused_tail(FULL, 3);
    put_header(&mut image, 0, BASE + 5, BASE, BASE, BASE + 16);
    put_header(&mut image, 1, 0, 0, 7000, 7064);
    put_header(&mut image, 2, 8192 + 100, 8192 + 10, 8192, 8192 + 128);
    put_word(&mut image, 0, pointer(1));
    let headers = Headers::from_form(&image).unwrap();
    assert_eq!(headers.used, 3);
    assert_eq!(headers.headers[0], Header::Alloc { ptr: 6144, len: 5, capacity: 16 });
    assert_eq!(headers.headers[1], Header::Freed { next: 0, ptr: 7000, capacity: 64 });
    assert_eq!(headers.headers[2], Header::Alloc { ptr: 8192, len: 100, capacity: 128 });
    for index in 3..763usize {
        let next = if index == 762 { 0 } else { pointer(index + 1) };
        assert_eq!(headers.headers[index], Header::Unused { next });
    }
}

#[test]
fn reconstruction_keeps_a_full_table() {
    let mut image = image_with_unused_tail(FULL, 763);
    for index in 0..763usize {
        let start = BASE + 16 * index as u16;
        put_header(&mut image, index, start + 1, start, start, start + 16);
    }
    let headers = Headers::from_form(&image).unwrap();
    assert_eq!(headers.used, 763);
    assert_eq!(headers.headers[762], Header::Alloc { ptr: 6144 + 16 * 762, len: 1, capacity: 16 });
}

#[test]
fn reconstruction_rejects_wrong_discriminant() {
    let mut image = image_with_unused_tail(6144, 0);
    put_word(&mut image, 34, 37);
    assert_eq!(Headers::from_form(&image).err(), Some(HeaderError::CorruptHeaderRegion));
}

#[test]
fn reconstruction_rejects_padding_that_is_not_zero() {
    let mut image = image_with_unused_tail(6144, 0);
    put_word(&mut image, 6140, 1);
    assert_eq!(Headers::from_form(&image).err(), Some(HeaderError::CorruptHeaderRegion));
    let mut image = image_with_unused_tail(6144, 0);
    put_word(&mut image, 6142, 0x0100);
    assert_eq!(Headers::from_form(&image).err(), Some(HeaderError::CorruptHeaderRegion));
}

#[test]
fn reconstruction_names_the_first_invalid_descriptor() {
    let mut image = image_with_unused_tail(FULL, 5);
    for index in 0..5usize {
        let start = BASE + 16 * index as u16;
        put_header(&mut image, index, start, start, start, start + 16);
    }
    put_header(&mut image, 3, 0, 0, 0, 0);
    put_header(&mut image, 4, 0, 0, 0, 0);
    assert_eq!(Headers::from_form(&image).err(), Some(HeaderError::InvalidDescriptor(3)));
}

#[test]
fn reconstruction_holds_live_block_to_the_image_length() {
    let mut image = image_with_unused_tail(7000, 1);
    put_header(&mut image, 0, 6992, 6992, 6992, 7008);
    assert_eq!(Headers::from_form(&image).err(), Some(HeaderError::InvalidDescriptor(0)));
    let mut image = image_with_unused_tail(7008, 1);
    put_header(&mut image, 0, 6992, 6992, 6992, 7008);
    assert_eq!(Headers::from_form(&image).unwrap().used, 1);
}

#[test]
fn reconstruction_rejects_never_used_slot_inside_the_used_prefix() {
    let mut image = image_with_unused_tail(FULL, 1);
    put_header(&mut image, 0, BASE, BASE, BASE, BASE + 16);
    put_header(&mut image, 1, 0, BASE, BASE, BASE);
    put_word(&mut image, 2 * 16, pointer(2));
    put_word(&mut image, 0, pointer(1));
    assert_eq!(Headers::from_form(&image).err(), Some(HeaderError::UnusedWithinLiveRange(1)));
}

#[test]
fn reconstruction_rejects_never_used_slot_before_a_live_block() {
    let mut image = image_with_unused_tail(FULL, 2);
    put_header(&mut image, 0, pointer(2), BASE, BASE, BASE);
    put_header(&mut image, 1, BASE, BASE, BASE, BASE + 16);
    put_word(&mut image, 2 * 16, pointer(0));
    assert_eq!(Headers::from_form(&image).err(), Some(HeaderError::UnusedWithinLiveRange(0)));
}

#[test]
fn reconstruction_trims_only_the_chained_tail() {
    let mut image = image_with_unused_tail(FULL, 0);
    put_header(&mut image, 400, pointer(402), BASE, BASE, BASE);
    put_header(&mut image, 401, 0, BASE, BASE, BASE);
    put_word(&mut image, 0, pointer(401));
    assert_eq!(Headers::from_form(&image).err(), Some(HeaderError::UnusedWithinLiveRange(0)));
    for index in 0..402usize {
        let start = BASE + 16 * index as u16;
        put_header(&mut image, index, start, start, start, start + 16);
    }
    put_word(&mut image, 0, 0);
    put_word(&mut image, 2 * 16, pointer(402));
    assert_eq!(Headers::from_form(&image).unwrap().used, 402);
}

#[test]
fn trimmer_counts_the_slots_before_the_chained_tail() {
    let mut parsed = [Header::Unused { next: 0 }; HEADER_COUNT];
    for index in 0..762usize {
        parsed[index] = Header::Unused { next: pointer(index + 1) };
    }
    assert_eq!(Headers::trim_unused(&parsed), 0);
    parsed[0] = Header::Alloc { ptr: 6144, len: 0, capacity: 1 };
    assert_eq!(Headers::trim_unused(&parsed), 1);
    parsed[400] = Header::Unused { next: pointer(401) + 8 };
    assert_eq!(Headers::trim_unused(&parsed), 401);
    assert_eq!(Headers::stray_unused(&parsed, 401), Some(1));
    assert_eq!(Headers::stray_unused(&parsed, 1), None);
    parsed[762] = Header::Unused { next: 8 };
    assert_eq!(Headers::trim_unused(&parsed), 763);
}

#[test]
fn reconstruction_reports_the_free_lists_before_the_region_fields() {
    let mut image = image_with_unused_tail(6144, 0);
    put_word(&mut image, 34, 0);
    put_word(&mut image, 0, pointer(0));
    assert_eq!(Headers::from_form(&image).err(), Some(HeaderError::DuplicateFreeSlot(pointer(0))));
}

#[test]
fn reconstruction_reports_the_region_fields_before_the_descriptors() {
    let mut image = image_with_unused_tail(6144, 1);
    put_word(&mut image, 6140, 7);
    assert_eq!(Headers::from_form(&image).err(), Some(HeaderError::CorruptHeaderRegion));
    put_word(&mut image, 6140, 0);
    assert_eq!(Headers::from_form(&image).err(), Some(HeaderError::InvalidDescriptor(0)));
}

#[test]
fn lenient_rule_accepts_zero_read_cursor_of_never_used_header() {
    let header = raw(52, 0, BASE, BASE);
    assert_eq!(Header::from_raw_by(SentinelRule::Strict, &header, true, 38912), None);
    assert_eq!(
        Header::from_raw_by(SentinelRule::Lenient, &header, true, 38912),
        Some(Header::Unused { next: 52 })
    );
    let partial = raw(52, 1, BASE, BASE);
    assert_eq!(Header::from_raw_by(SentinelRule::Lenient, &partial, true, 38912), None);
    assert_eq!(Header::from_raw_by(SentinelRule::Lenient, &header, false, 38912), None);
}

#[test]
fn rules_agree_on_blocks() {
    let headers = [
        raw(BASE + 5, BASE, BASE, BASE + 16),
        raw(44, 0, 7000, 7064),
        raw(52, BASE, BASE, BASE),
        raw(0, 0, 0, 0),
        raw(0, 7001, 7000, 7064),
    ];
    for header in headers.iter() {
        for is_free in [false, true] {
            assert_eq!(
                Header::from_raw_by(SentinelRule::Lenient, header, is_free, 38912),
                Header::from_raw(header, is_free, 38912)
            );
            assert_eq!(
                Header::from_raw_by(SentinelRule::Strict, header, is_free, 38912),
                Header::from_raw(header, is_free, 38912)
            );
        }
    }
}

#[test]
fn lenient_rule_in_the_reconstruction() {
    let mut image = image_with_unused_tail(6144, 0);
    put_header(&mut image, 10, pointer(11), 0, BASE, BASE);
    assert_eq!(Headers::from_form(&image).err(), Some(HeaderError::InvalidDescriptor(10)));
    assert_eq!(
        Headers::from_form_by(SentinelRule::Strict, &image).err(),
        Some(HeaderError::InvalidDescriptor(10))
    );
    let headers = Headers::from_form_by(SentinelRule::Lenient, &image).unwrap();
    assert_eq!(headers.used, 0);
    assert_eq!(headers.headers[10], Header::Unused { next: pointer(11) });
}

#[test]
fn classify_all_names_the_first_header_of_no_shape() {
    let mut image = image_with_unused_tail(FULL, 2);
    put_header(&mut image, 0, BASE, BASE, BASE, BASE + 16);
    put_header(&mut image, 1, BASE + 16, BASE + 16, BASE + 16, BASE + 32);
    let decoded = RawHeaders::from_form(&image).unwrap();
    let free = decoded.free_slots().unwrap();
    let parsed = decoded.classify_all(SentinelRule::Strict, &free, 38912).unwrap();
    assert_eq!(parsed[1], Header::Alloc { ptr: 6160, len: 0, capacity: 16 });
    assert_eq!(parsed[2], Header::Unused { next: pointer(3) });
    let none_free = [false; HEADER_COUNT];
    assert_eq!(
        decoded.classify_all(SentinelRule::Strict, &none_free, 38912).err(),
        Some(HeaderError::InvalidDescriptor(2))
    );
    assert_eq!(
        decoded.classify_all(SentinelRule::Strict, &free, 6170).err(),
        Some(HeaderError::InvalidDescriptor(1))
    );
}

#[test]
fn reconstructed_table_passes_its_check() {
    let mut image = image_with_unused_tail(FULL, 2);
    put_header(&mut image, 0, BASE + 5, BASE, BASE, BASE + 16);
    put_header(&mut image, 1, 0, 0, 7000, 7064);
    put_word(&mut image, 0, pointer(1));
    let mut headers = Headers::from_form(&image).unwrap();
    assert!(headers.check());
    headers.used = 3;
    assert!(!headers.check());
    headers.used = 1;
    assert!(!headers.check());
    headers.used = 764;
    assert!(!headers.check());
    headers.used = 2;
    assert!(headers.check());
    headers.headers[0] = Header::Alloc { ptr: 6144, len: 17, capacity: 16 };
    assert!(!headers.check());
    headers.headers[0] = Header::Unused { next: 7 };
    assert!(!headers.check());
}

#[test]
fn header_check_holds_a_block_to_the_data_area() {
    assert!(Header::Alloc { ptr: 6144, len: 0, capacity: 1 }.check());
    assert!(Header::Alloc { ptr: 6144, len: 32768, capacity: 32768 }.check());
    assert!(Header::Freed { next: 9, ptr: 38911, capacity: 1 }.check());
    assert!(Header::Unused { next: 9 }.check());
    assert!(!Header::Alloc { ptr: 6143, len: 0, capacity: 1 }.check());
    assert!(!Header::Alloc { ptr: 6144, len: 0, capacity: 0 }.check());
    assert!(!Header::Alloc { ptr: 6144, len: 2, capacity: 1 }.check());
    assert!(!Header::Alloc { ptr: 6144, len: 0, capacity: 3 }.check());
    assert!(!Header::Freed { next: 0, ptr: 38911, capacity: 2 }.check());
    assert!(!Header::Freed { next: 0, ptr: 40000, capacity: 1 }.check());
    assert!(!Header::Freed { next: 0, ptr: 65535, capacity: 32768 }.check());
    assert!(Header::Unused { next: 0 }.is_unused());
    assert!(!Header::Freed { next: 0, ptr: 6144, capacity: 1 }.is_unused());
    assert!(Header::Unused { next: 44 }.is_unused_with(44));
    assert!(!Header::Unused { next: 44 }.is_unused_with(45));
    assert!(!Header::Alloc { ptr: 6144, len: 0, capacity: 1 }.is_unused_with(0));
}

#[test]
fn decode_reads_one_header() {
    let mut image = vec![0u8; 6144];
    put_header(&mut image, 762, 1, 2, 3, 4);
    assert_eq!(RawHeader::decode(&image, 762), raw(1, 2, 3, 4));
    assert_eq!(RawHeader::decode(&image, 761), raw(0, 0, 0, 0));
}

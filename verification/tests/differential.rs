use heap_image::analysis::analyse;
use heap_image::classify::{Header, SentinelRule};
use heap_image::error::{Diagnostic, HeaderError};
use heap_image::pattern::{correlate, Label, LabelKind};
use heap_image::segment::{Segment, State};

/// A small deterministic generator of test data.
struct Rng(u64);

impl Rng {
    fn next(&mut self) -> u64 {
        self.0 ^= self.0 << 13;
        self.0 ^= self.0 >> 7;
        self.0 ^= self.0 << 17;
        self.0
    }

    fn below(&mut self, bound: u64) -> u64 {
        self.next() % bound
    }
}

fn put_word(image: &mut [u8], at: usize, word: u16) {
    image[at] = (word & 0xff) as u8;
    image[at + 1] = (word >> 8) as u8;
}

fn word(image: &[u8], at: usize) -> u16 {
    u16::from_le_bytes([image[at], image[at + 1]])
}

fn pointer(index: usize) -> u16 {
    (36 + 8 * index) as u16
}

/// A plain statement of the reconstruction, written without regard to cost.
fn expected_table(form: &[u8]) -> Result<(Vec<Header>, usize), HeaderError> {
    if form.len() < 6144 {
        return Err(HeaderError::TruncatedImage);
    }
    let field = |index: usize, k: usize| word(form, 36 + 8 * index + 2 * k);
    let mut free = vec![false; 763];
    for root in 0..17 {
        let mut link = word(form, 2 * root);
        while link != 0 {
            if link < 36 || link >= 6140 {
                return Err(HeaderError::FreePointerOutOfRange(link));
            }
            let index = (link as usize - 36) / 8;
            if free[index] {
                return Err(HeaderError::DuplicateFreeSlot(link));
            }
            free[index] = true;
            link = field(index, 0);
        }
    }
    if word(form, 34) != 36 || word(form, 6140) != 0 || word(form, 6142) != 0 {
        return Err(HeaderError::CorruptHeaderRegion);
    }
    let mut parsed = Vec::new();
    for index in 0..763 {
        let (write, read, start, end) =
            (field(index, 0), field(index, 1), field(index, 2), field(index, 3));
        let in_data = start >= 6144 && end as u32 <= 6144 + 32768 && start <= end;
        let power = in_data && (end - start).is_power_of_two();
        let header = if free[index] {
            if start == 6144 && end == 6144 {
                if read == 6144 {
                    Some(Header::Unused { next: write })
                } else {
                    None
                }
            } else if power && (read == 6144 || read == 0) {
                Some(Header::Freed { next: write, ptr: start, capacity: end - start })
            } else {
                None
            }
        } else if power
            && end as usize <= form.len()
            && (start..=end).contains(&read)
            && (start..=end).contains(&write)
            && read <= write
        {
            Some(Header::Alloc { ptr: start, len: write - start, capacity: end - start })
        } else {
            None
        };
        match header {
            Some(header) => parsed.push(header),
            None => return Err(HeaderError::InvalidDescriptor(index)),
        }
    }
    let mut used = 763;
    if parsed[762] == (Header::Unused { next: 0 }) {
        used -= 1;
        let mut next = pointer(used);
        while used > 0 && parsed[used - 1] == (Header::Unused { next }) {
            used -= 1;
            next -= 8;
        }
    }
    for (index, header) in parsed[..used].iter().enumerate() {
        if matches!(header, Header::Unused { .. }) {
            return Err(HeaderError::UnusedWithinLiveRange(index));
        }
    }
    Ok((parsed, used))
}

/// A plain statement of the segmentation.
fn expected_segments(live: &[Header], form_len: u16) -> (Vec<Segment>, Vec<Diagnostic>) {
    let mut found = Vec::new();
    let mut pieces = Vec::new();
    for header in live {
        match *header {
            Header::Alloc { ptr, len, capacity } => {
                pieces.push((ptr, ptr + len, 0u8, false));
                if len != capacity {
                    pieces.push((ptr + len, ptr + capacity, 1, false));
                }
            }
            Header::Freed { ptr, capacity, .. } => {
                let end = ptr + capacity;
                pieces.push((ptr, end, 2, end > form_len));
                if end > form_len {
                    found.push(Diagnostic::FreedPastImageEnd { start: ptr, end });
                }
            }
            Header::Unused { .. } => {}
        }
    }
    pieces.sort();
    let state = |rank: u8| match rank {
        0 => State::Alloc,
        1 => State::Slack,
        _ => State::KnownFreed,
    };
    let mut segments = Vec::new();
    let mut cursor = 6144u16;
    for (start, end, rank, truncated) in pieces {
        if start > cursor {
            segments.push(Segment {
                start: cursor,
                end: start,
                state: State::Unknown,
                truncated: false,
            });
        }
        if start < cursor {
            found.push(Diagnostic::OverlappingAllocations { start, covered: cursor as u32 });
        }
        segments.push(Segment { start, end, state: state(rank), truncated });
        cursor = cursor.max(end);
    }
    if cursor < form_len {
        segments.push(Segment {
            start: cursor,
            end: form_len,
            state: State::Unknown,
            truncated: false,
        });
    }
    (segments, found)
}

/// An image with `live` blocks in its first slots, the rest of the table
/// never used, and a few random faults.
fn random_image(rng: &mut Rng) -> Vec<u8> {
    let len = if rng.below(10) == 0 {
        rng.below(6200) as usize
    } else {
        6144 + rng.below(3000) as usize
    };
    let mut image = vec![0u8; len.max(6144)];
    put_word(&mut image, 34, 36);
    let live = rng.below(6) as usize;
    let mut lists: Vec<Vec<usize>> = vec![Vec::new(); 17];
    for index in 0..live {
        let capacity = 1u16 << rng.below(8);
        let start = 6144 + rng.below(2600) as u16;
        let end = start + capacity;
        if rng.below(3) == 0 {
            let read = if rng.below(2) == 0 { 0 } else { 6144 };
            put_word(&mut image, 36 + 8 * index + 2, read);
            lists[rng.below(16) as usize].push(index);
        } else {
            let write = start + rng.below(capacity as u64 + 1) as u16;
            let read = start + rng.below((write - start) as u64 + 1) as u16;
            put_word(&mut image, 36 + 8 * index, write);
            put_word(&mut image, 36 + 8 * index + 2, read);
        }
        put_word(&mut image, 36 + 8 * index + 4, start);
        put_word(&mut image, 36 + 8 * index + 6, end);
    }
    for index in live..763 {
        put_word(&mut image, 36 + 8 * index + 2, 6144);
        put_word(&mut image, 36 + 8 * index + 4, 6144);
        put_word(&mut image, 36 + 8 * index + 6, 6144);
        lists[16].push(index);
    }
    for (root, list) in lists.iter().enumerate() {
        let mut link = 0u16;
        for &index in list.iter().rev() {
            put_word(&mut image, 36 + 8 * index, link);
            link = pointer(index);
        }
        put_word(&mut image, 2 * root, link);
    }
    for _ in 0..rng.below(3) {
        let at = rng.below(6144) as usize;
        image[at] = rng.below(256) as u8;
    }
    image.truncate(len);
    image
}

#[test]
fn reconstruction_agrees_with_its_plain_statement() {
    let mut rng = Rng(0x9e3779b97f4a7c15);
    let mut succeeded = 0;
    let mut failed = 0;
    for _ in 0..400 {
        let image = random_image(&mut rng);
        let mut diagnostics = Vec::new();
        let result = analyse(SentinelRule::Strict, &image, &mut diagnostics);
        match expected_table(&image) {
            Err(error) => {
                assert_eq!(result.err(), Some(error));
                assert!(diagnostics.is_empty());
                failed += 1;
            }
            Ok((parsed, used)) => {
                let analysis = result.unwrap();
                assert_eq!(analysis.headers.headers.to_vec(), parsed);
                assert_eq!(analysis.headers.used, used);
                assert!(analysis.headers.check());
                let (segments, found) = expected_segments(&parsed[..used], image.len() as u16);
                assert_eq!(analysis.segments, segments);
                assert_eq!(diagnostics, found);
                for at in 0..image.len() {
                    let recovered = segments.iter().any(|s| {
                        s.state != State::Alloc && (s.start as usize..s.end as usize).contains(&at)
                    });
                    assert_eq!(analysis.cells[at], if recovered { Some(image[at]) } else { None });
                }
                if found.is_empty() && !segments.is_empty() {
                    assert_eq!(segments[0].start, 6144);
                    assert_eq!(segments[segments.len() - 1].end as usize, image.len());
                    assert!(segments.windows(2).all(|pair| pair[0].end == pair[1].start));
                }
                succeeded += 1;
            }
        }
    }
    assert!(succeeded > 50, "only {succeeded} images were reconstructed");
    assert!(failed > 50, "only {failed} images were rejected");
}

#[test]
fn correlation_agrees_with_its_plain_statement() {
    let mut rng = Rng(0x2545f4914f6cdd1d);
    for _ in 0..60 {
        let len = rng.below(400) as usize;
        let image: Vec<u8> = (0..len).map(|_| rng.below(3) as u8).collect();
        let strings: Vec<Vec<u8>> = (0..rng.below(4))
            .map(|_| (0..1 + rng.below(3)).map(|_| rng.below(3) as u8).collect())
            .collect();
        let mut expected = Vec::new();
        let mut missing = Vec::new();
        for (index, pattern) in strings.iter().enumerate() {
            let mut any = false;
            for at in 0..len {
                if image[at..].starts_with(pattern) {
                    any = true;
                    expected.push(Label {
                        offset: at as u16,
                        len: pattern.len() as u16,
                        kind: LabelKind::String,
                    });
                    let target = (at as u16).to_le_bytes();
                    for place in 0..len {
                        if image[place..].starts_with(&target) {
                            expected.push(Label {
                                offset: place as u16,
                                len: 2,
                                kind: LabelKind::PointerRef(at as u16),
                            });
                        }
                    }
                }
            }
            if !any {
                missing.push(Diagnostic::NotFound(index));
            }
        }
        let mut diagnostics = Vec::new();
        assert_eq!(correlate(&image, &strings, &mut diagnostics), expected);
        assert_eq!(diagnostics, missing);
    }
}

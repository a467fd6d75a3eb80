//! The pattern correlator: every occurrence of a candidate string in the
//! image becomes a label, and so does every place where the image holds
//! the offset of such an occurrence as a little-endian 16-bit word.

use vstd::prelude::*;
use vstd::math::max;
use crate::error::Diagnostic;
use crate::layout::MAX_IMAGE_LEN;

verus! {

/// What a label says of its bytes.
#[derive(Clone, Copy, Debug, PartialEq, Eq, Structural)]
pub enum LabelKind {
    /// An occurrence of a candidate string.
    String,
    /// A 16-bit word that holds the offset of an occurrence of a candidate
    /// string; the payload is that offset.
    PointerRef(u16),
    /// Bytes that no label accounts for.
    Unknown,
}

/// A labelled range of bytes of the image.
#[derive(Clone, Copy, Debug, PartialEq, Eq, Structural)]
pub struct Label {
    /// Offset of the first byte.
    pub offset: u16,
    /// Number of bytes.
    pub len: u16,
    /// What the label says of the bytes.
    pub kind: LabelKind,
}

/// Whether `pattern` lies in `image` at offset `at`.
pub open spec fn occurs_at(image: Seq<u8>, pattern: Seq<u8>, at: int) -> bool {
    &&& 0 <= at
    &&& at + pattern.len() <= image.len()
    &&& image.subrange(at, at + pattern.len()) == pattern
}

/// The offsets below `upto` at which `pattern` lies in `image`, ascending.
pub open spec fn occurrences(image: Seq<u8>, pattern: Seq<u8>, upto: int) -> Seq<u16>
    decreases upto,
{
    if upto <= 0 {
        Seq::empty()
    } else if occurs_at(image, pattern, upto - 1) {
        occurrences(image, pattern, upto - 1).push((upto - 1) as u16)
    } else {
        occurrences(image, pattern, upto - 1)
    }
}

/// All offsets at which `pattern` lies in `image`, ascending. Occurrences
/// may overlap each other; the empty pattern lies at every offset up to the
/// end of the image.
pub open spec fn all_occurrences(image: Seq<u8>, pattern: Seq<u8>) -> Seq<u16> {
    occurrences(image, pattern, image.len() as int + 1)
}

/// The two bytes that hold `target` as a little-endian 16-bit word.
pub open spec fn word_bytes(target: u16) -> Seq<u8> {
    seq![(target % 256) as u8, (target / 256) as u8]
}

/// The labels for the places where the image holds `target` as a word, in
/// the order of `places`.
pub open spec fn pointer_labels(places: Seq<u16>, target: u16) -> Seq<Label> {
    Seq::new(
        places.len(),
        |k: int| Label { offset: places[k], len: 2, kind: LabelKind::PointerRef(target) },
    )
}

/// The labels for one occurrence of a pattern of `len` bytes at `at`: the
/// label of the occurrence, then one for each place where the image holds
/// `at` as a word, ascending.
pub open spec fn occurrence_labels(image: Seq<u8>, len: int, at: u16) -> Seq<Label> {
    seq![Label { offset: at, len: len as u16, kind: LabelKind::String }] + pointer_labels(
        all_occurrences(image, word_bytes(at)),
        at,
    )
}

/// The labels for the occurrences `found` of a pattern of `len` bytes, in
/// the order of `found`.
pub open spec fn found_labels(image: Seq<u8>, len: int, found: Seq<u16>) -> Seq<Label>
    decreases found.len(),
{
    if found.len() == 0 {
        Seq::empty()
    } else {
        found_labels(image, len, found.drop_last()) + occurrence_labels(image, len, found.last())
    }
}

/// The labels for one candidate string.
pub open spec fn string_labels(image: Seq<u8>, pattern: Seq<u8>) -> Seq<Label> {
    found_labels(image, pattern.len() as int, all_occurrences(image, pattern))
}

/// The labels for the candidate strings, in the order of the strings.
pub open spec fn correlation(image: Seq<u8>, strings: Seq<Seq<u8>>) -> Seq<Label>
    decreases strings.len(),
{
    if strings.len() == 0 {
        Seq::empty()
    } else {
        correlation(image, strings.drop_last()) + string_labels(image, strings.last())
    }
}

/// The findings for the candidate strings that lie nowhere in the image,
/// in the order of the strings.
pub open spec fn not_found(image: Seq<u8>, strings: Seq<Seq<u8>>) -> Seq<Diagnostic>
    decreases strings.len(),
{
    if strings.len() == 0 {
        Seq::empty()
    } else if all_occurrences(image, strings.last()).len() == 0 {
        not_found(image, strings.drop_last()).push(
            Diagnostic::NotFound((strings.len() - 1) as usize),
        )
    } else {
        not_found(image, strings.drop_last())
    }
}

/// The candidate strings as byte sequences.
pub open spec fn patterns(strings: Seq<Vec<u8>>) -> Seq<Seq<u8>> {
    strings.map_values(|s: Vec<u8>| s@)
}

/// The occurrences below `upto` are exactly the offsets below `upto` at
/// which the pattern lies, each once and in ascending order.
pub proof fn lemma_occurrences(image: Seq<u8>, pattern: Seq<u8>, upto: int)
    requires
        upto <= image.len() + 1,
        image.len() <= MAX_IMAGE_LEN,
    ensures
        forall|i: int, j: int|
            0 <= i < j < occurrences(image, pattern, upto).len() ==> occurrences(
                image,
                pattern,
                upto,
            )[i] < occurrences(image, pattern, upto)[j],
        forall|k: int|
            0 <= k < occurrences(image, pattern, upto).len() ==> (#[trigger] occurrences(
                image,
                pattern,
                upto,
            )[k]) < upto && occurs_at(image, pattern, occurrences(image, pattern, upto)[k] as int),
        forall|at: int|
            0 <= at < upto && occurs_at(image, pattern, at) ==> occurrences(
                image,
                pattern,
                upto,
            ).contains(at as u16),
        occurrences(image, pattern, upto).len() <= max(upto, 0),
    decreases upto,
{
    if upto > 0 {
        let less = occurrences(image, pattern, upto - 1);
        let all = occurrences(image, pattern, upto);
        lemma_occurrences(image, pattern, upto - 1);
        assert forall|at: int| 0 <= at < upto && occurs_at(image, pattern, at) implies all.contains(
            at as u16,
        ) by {
            if at < upto - 1 {
                let k = choose|k: int| 0 <= k < less.len() && less[k] == at as u16;
                assert(all[k] == at as u16);
            } else {
                assert(all[all.len() - 1] == at as u16);
            }
        }
    }
}

/// Whether a label marks an occurrence of one of the candidate strings.
pub open spec fn marks_occurrence(image: Seq<u8>, strings: Seq<Seq<u8>>, label: Label) -> bool {
    &&& label.kind == LabelKind::String
    &&& exists|s: int|
        0 <= s < strings.len() && (#[trigger] strings[s]).len() == label.len && occurs_at(
            image,
            strings[s],
            label.offset as int,
        )
}

/// Whether a label marks a word that holds the offset of an occurrence of
/// one of the candidate strings.
pub open spec fn marks_pointer(image: Seq<u8>, strings: Seq<Seq<u8>>, label: Label) -> bool {
    &&& label.kind matches LabelKind::PointerRef(target)
    &&& label.len == 2
    &&& occurs_at(image, word_bytes(target), label.offset as int)
    &&& exists|s: int|
        0 <= s < strings.len() && occurs_at(image, #[trigger] strings[s], target as int)
}

/// The labels for one occurrence are the label of the occurrence and the
/// labels of the words that hold its offset.
pub proof fn lemma_occurrence_labels(image: Seq<u8>, len: int, at: u16, label: Label)
    requires
        image.len() <= MAX_IMAGE_LEN,
    ensures
        occurrence_labels(image, len, at).contains(label) <==> label == (Label {
            offset: at,
            len: len as u16,
            kind: LabelKind::String,
        }) || (label.kind == LabelKind::PointerRef(at) && label.len == 2 && occurs_at(
            image,
            word_bytes(at),
            label.offset as int,
        )),
{
    let places = all_occurrences(image, word_bytes(at));
    let pointers = pointer_labels(places, at);
    let all = occurrence_labels(image, len, at);
    lemma_occurrences(image, word_bytes(at), image.len() as int + 1);
    if all.contains(label) {
        let k = choose|k: int| 0 <= k < all.len() && all[k] == label;
        if k > 0 {
            assert(label == pointers[k - 1]);
            assert(occurs_at(image, word_bytes(at), places[k - 1] as int));
        }
    }
    if label == (Label { offset: at, len: len as u16, kind: LabelKind::String }) {
        assert(all[0] == label);
    }
    if label.kind == LabelKind::PointerRef(at) && label.len == 2 && occurs_at(
        image,
        word_bytes(at),
        label.offset as int,
    ) {
        assert(places.contains(label.offset));
        let k = choose|k: int| 0 <= k < places.len() && places[k] == label.offset;
        assert(pointers[k] == label);
        assert(all[k + 1] == label);
    }
}

/// A label is among the labels for the occurrences `found` exactly where
/// it is among the labels for one of them.
pub proof fn lemma_found_labels(image: Seq<u8>, len: int, found: Seq<u16>, label: Label)
    ensures
        found_labels(image, len, found).contains(label) <==> exists|m: int|
            0 <= m < found.len() && occurrence_labels(image, len, #[trigger] found[m]).contains(
                label,
            ),
    decreases found.len(),
{
    if found.len() > 0 {
        let front = found.drop_last();
        let before = found_labels(image, len, front);
        let added = occurrence_labels(image, len, found.last());
        let all = found_labels(image, len, found);
        lemma_found_labels(image, len, front, label);
        if all.contains(label) {
            let k = choose|k: int| 0 <= k < all.len() && all[k] == label;
            if k < before.len() {
                assert(before[k] == label);
                let m = choose|m: int|
                    0 <= m < front.len() && occurrence_labels(
                        image,
                        len,
                        #[trigger] front[m],
                    ).contains(label);
                assert(found[m] == front[m]);
            } else {
                assert(added[k - before.len()] == label);
                assert(occurrence_labels(image, len, found[found.len() - 1]).contains(label));
            }
        }
        if exists|m: int|
            0 <= m < found.len() && occurrence_labels(image, len, #[trigger] found[m]).contains(
                label,
            ) {
            let m = choose|m: int|
                0 <= m < found.len() && occurrence_labels(
                    image,
                    len,
                    #[trigger] found[m],
                ).contains(label);
            if m < found.len() - 1 {
                assert(front[m] == found[m]);
                let k = choose|k: int| 0 <= k < before.len() && before[k] == label;
                assert(all[k] == label);
            } else {
                let k = choose|k: int| 0 <= k < added.len() && added[k] == label;
                assert(all[before.len() + k] == label);
            }
        }
    }
}

/// The labels for one candidate string are the labels of its occurrences
/// and the labels of the words that hold the offset of one.
pub proof fn lemma_string_labels(image: Seq<u8>, pattern: Seq<u8>, label: Label)
    requires
        image.len() <= MAX_IMAGE_LEN,
    ensures
        string_labels(image, pattern).contains(label) <==> (label.kind == LabelKind::String
            && label.len == pattern.len() && occurs_at(image, pattern, label.offset as int)) || (
        label.kind matches LabelKind::PointerRef(target) && label.len == 2 && occurs_at(
            image,
            word_bytes(target),
            label.offset as int,
        ) && occurs_at(image, pattern, target as int)),
{
    let found = all_occurrences(image, pattern);
    let len = pattern.len() as int;
    lemma_occurrences(image, pattern, image.len() as int + 1);
    lemma_found_labels(image, len, found, label);
    if string_labels(image, pattern).contains(label) {
        let m = choose|m: int|
            0 <= m < found.len() && occurrence_labels(image, len, #[trigger] found[m]).contains(
                label,
            );
        lemma_occurrence_labels(image, len, found[m], label);
        assert(occurs_at(image, pattern, found[m] as int));
    }
    if label.kind == LabelKind::String && label.len == pattern.len() && occurs_at(
        image,
        pattern,
        label.offset as int,
    ) {
        assert(found.contains(label.offset));
        let m = choose|m: int| 0 <= m < found.len() && found[m] == label.offset;
        lemma_occurrence_labels(image, len, found[m], label);
    }
    if label.kind matches LabelKind::PointerRef(target) && label.len == 2 && occurs_at(
        image,
        word_bytes(target),
        label.offset as int,
    ) && occurs_at(image, pattern, target as int) {
        let target = label.kind->PointerRef_0;
        assert(found.contains(target));
        let m = choose|m: int| 0 <= m < found.len() && found[m] == target;
        lemma_occurrence_labels(image, len, found[m], label);
    }
}

/// The correlation holds exactly the labels that mark an occurrence of a
/// candidate string, or a word that holds the offset of one.
pub proof fn lemma_correlation_exact(image: Seq<u8>, strings: Seq<Seq<u8>>, label: Label)
    requires
        image.len() <= MAX_IMAGE_LEN,
    ensures
        correlation(image, strings).contains(label) <==> marks_occurrence(image, strings, label)
            || marks_pointer(image, strings, label),
    decreases strings.len(),
{
    if strings.len() > 0 {
        let front = strings.drop_last();
        let last = strings.last();
        let before = correlation(image, front);
        let added = string_labels(image, last);
        let all = correlation(image, strings);
        lemma_correlation_exact(image, front, label);
        lemma_string_labels(image, last, label);
        if all.contains(label) {
            let k = choose|k: int| 0 <= k < all.len() && all[k] == label;
            if k < before.len() {
                assert(before[k] == label);
                if marks_occurrence(image, front, label) {
                    let s = choose|s: int|
                        0 <= s < front.len() && (#[trigger] front[s]).len() == label.len
                            && occurs_at(image, front[s], label.offset as int);
                    assert(strings[s] == front[s]);
                } else {
                    let target = label.kind->PointerRef_0;
                    let s = choose|s: int|
                        0 <= s < front.len() && occurs_at(
                            image,
                            #[trigger] front[s],
                            target as int,
                        );
                    assert(strings[s] == front[s]);
                }
            } else {
                assert(added[k - before.len()] == label);
                assert(strings[strings.len() - 1] == last);
            }
        }
        if marks_occurrence(image, strings, label) {
            let s = choose|s: int|
                0 <= s < strings.len() && (#[trigger] strings[s]).len() == label.len && occurs_at(
                    image,
                    strings[s],
                    label.offset as int,
                );
            if s < strings.len() - 1 {
                assert(front[s] == strings[s]);
                let k = choose|k: int| 0 <= k < before.len() && before[k] == label;
                assert(all[k] == label);
            } else {
                let k = choose|k: int| 0 <= k < added.len() && added[k] == label;
                assert(all[before.len() + k] == label);
            }
        }
        if marks_pointer(image, strings, label) {
            let target = label.kind->PointerRef_0;
            let s = choose|s: int|
                0 <= s < strings.len() && occurs_at(image, #[trigger] strings[s], target as int);
            if s < strings.len() - 1 {
                assert(front[s] == strings[s]);
                let k = choose|k: int| 0 <= k < before.len() && before[k] == label;
                assert(all[k] == label);
            } else {
                let k = choose|k: int| 0 <= k < added.len() && added[k] == label;
                assert(all[before.len() + k] == label);
            }
        }
    }
}

/// Every label of the correlation lies inside the image and accounts for
/// its bytes.
pub proof fn lemma_correlation_within(image: Seq<u8>, strings: Seq<Seq<u8>>)
    requires
        image.len() <= MAX_IMAGE_LEN,
    ensures
        forall|k: int|
            0 <= k < correlation(image, strings).len() ==> (#[trigger] correlation(
                image,
                strings,
            )[k]).offset + correlation(image, strings)[k].len <= image.len() && correlation(
                image,
                strings,
            )[k].kind != LabelKind::Unknown,
{
    let all = correlation(image, strings);
    assert forall|k: int| 0 <= k < all.len() implies (#[trigger] all[k]).offset + all[k].len
        <= image.len() && all[k].kind != LabelKind::Unknown by {
        assert(all.contains(all[k]));
        lemma_correlation_exact(image, strings, all[k]);
    }
}

/// Whether `pattern` lies in `image` at offset `at`.
pub fn matches_at(image: &[u8], pattern: &[u8], at: usize) -> (b: bool)
    ensures
        b == occurs_at(image@, pattern@, at as int),
{
    if at > image.len() || pattern.len() > image.len() - at {
        return false;
    }
    let total: usize = image.len();
    let mut k: usize = 0;
    while k < pattern.len()
        invariant
            k <= pattern@.len(),
            total == image@.len(),
            at + pattern@.len() <= image@.len(),
            forall|m: int| 0 <= m < k ==> image@[at + m] == pattern@[m],
        decreases pattern.len() - k,
    {
        if image[at + k] != pattern[k] {
            proof {
                assert(image@.subrange(at as int, at + pattern@.len())[k as int] == image@[at + k]);
            }
            return false;
        }
        k += 1;
    }
    proof {
        assert(image@.subrange(at as int, at + pattern@.len()) =~= pattern@);
    }
    true
}

/// Finds every offset at which `pattern` lies in `image`, ascending.
pub fn find_all(image: &[u8], pattern: &[u8]) -> (found: Vec<u16>)
    requires
        image@.len() <= MAX_IMAGE_LEN,
    ensures
        found@ == all_occurrences(image@, pattern@),
{
    let mut found: Vec<u16> = Vec::new();
    let mut at: usize = 0;
    while at <= image.len()
        invariant
            at <= image@.len() + 1,
            image@.len() <= MAX_IMAGE_LEN,
            found@ == occurrences(image@, pattern@, at as int),
        decreases image.len() + 1 - at,
    {
        if matches_at(image, pattern, at) {
            found.push(at as u16);
        }
        at += 1;
    }
    found
}

/// Appends to `out` the labels for one occurrence of a pattern of `len`
/// bytes at `at`.
pub fn push_occurrence(image: &[u8], len: u16, at: u16, out: &mut Vec<Label>)
    requires
        image@.len() <= MAX_IMAGE_LEN,
    ensures
        final(out)@ == old(out)@ + occurrence_labels(image@, len as int, at),
{
    out.push(Label { offset: at, len, kind: LabelKind::String });
    let word: [u8; 2] = [(at % 256) as u8, (at / 256) as u8];
    assert(word@ =~= word_bytes(at));
    let places = find_all(image, &word);
    let ghost all = pointer_labels(places@, at);
    let ghost first = old(out)@.push(Label { offset: at, len, kind: LabelKind::String });
    let mut k: usize = 0;
    while k < places.len()
        invariant
            k <= places.len(),
            all == pointer_labels(places@, at),
            out@ == first + all.take(k as int),
        decreases places.len() - k,
    {
        out.push(Label { offset: places[k], len: 2, kind: LabelKind::PointerRef(at) });
        proof {
            assert(all.take(k + 1) =~= all.take(k as int).push(all[k as int]));
        }
        k += 1;
    }
    proof {
        assert(all.take(k as int) =~= all);
        assert(first + all =~= old(out)@ + occurrence_labels(image@, len as int, at));
    }
}

/// Scans the image for the candidate strings and for words that hold the
/// offsets of their occurrences. The labels come in the order of the
/// strings, for each string in the order of its occurrences, each
/// occurrence followed by the words that point to it. A string that lies
/// nowhere is reported in `diagnostics` by its index.
pub fn correlate(
    image: &[u8],
    strings: &Vec<Vec<u8>>,
    diagnostics: &mut Vec<Diagnostic>,
) -> (labels: Vec<Label>)
    requires
        image@.len() <= MAX_IMAGE_LEN,
    ensures
        labels@ == correlation(image@, patterns(strings@)),
        final(diagnostics)@ == old(diagnostics)@ + not_found(image@, patterns(strings@)),
        forall|k: int|
            0 <= k < labels@.len() ==> (#[trigger] labels@[k]).offset + labels@[k].len
                <= image@.len() && labels@[k].kind != LabelKind::Unknown,
{
    let ghost all = patterns(strings@);
    proof {
        lemma_correlation_within(image@, all);
    }
    let mut labels: Vec<Label> = Vec::new();
    let mut s: usize = 0;
    proof {
        assert(all.take(0) =~= Seq::<Seq<u8>>::empty());
    }
    while s < strings.len()
        invariant
            s <= strings.len(),
            image@.len() <= MAX_IMAGE_LEN,
            all == patterns(strings@),
            labels@ == correlation(image@, all.take(s as int)),
            diagnostics@ == old(diagnostics)@ + not_found(image@, all.take(s as int)),
        decreases strings.len() - s,
    {
        let pattern = strings[s].as_slice();
        let found = find_all(image, pattern);
        let ghost grown = all.take(s + 1);
        proof {
            assert(grown.drop_last() =~= all.take(s as int));
            assert(grown.last() == pattern@);
            lemma_occurrences(image@, pattern@, image@.len() as int + 1);
            if found.len() > 0 {
                assert(occurs_at(image@, pattern@, found@[0] as int));
            }
        }
        if found.len() == 0 {
            diagnostics.push(Diagnostic::NotFound(s));
        }
        let ghost before = labels@;
        let mut m: usize = 0;
        while m < found.len()
            invariant
                m <= found.len(),
                image@.len() <= MAX_IMAGE_LEN,
                pattern@.len() <= MAX_IMAGE_LEN || found.len() == 0,
                labels@ == before + found_labels(
                    image@,
                    pattern@.len() as int,
                    found@.take(m as int),
                ),
            decreases found.len() - m,
        {
            proof {
                assert(found@.take(m + 1).drop_last() =~= found@.take(m as int));
            }
            push_occurrence(image, pattern.len() as u16, found[m], &mut labels);
            m += 1;
        }
        proof {
            assert(found@.take(m as int) =~= found@);
        }
        s += 1;
    }
    proof {
        assert(all.take(s as int) =~= all);
    }
    labels
}

} // verus!

//! What a scan of a document's body finds, and which trailer it settles on.

use vstd::prelude::*;

use crate::errors::IndexedReaderError;
use crate::framing::header_at;
use crate::lex::{delimiter, digit, occurs_at, token_boundary, whitespace, KEYWORD_OBJ};
use crate::locations::ObjectLocation64;
use crate::object::{dict_get, dict_has_type, DictionaryView, ObjectId, ObjectView, KEY_TYPE};
use crate::open::{header_of, index_from_xref, IndexView};
use crate::recovery::{
    classic_trailer, dictionary_at, digits_start, empty_scan, header_before, index_of,
    law_header_reads_the_same_forward, live_header, named_root, note_header, note_trailer, object_dictionary_at,
    probed_trailer, recovered_index, root_of, scan_byte, scan_bytes, scan_from, scan_of, space_start, token_start,
    trailer_of, ScanView, ENCRYPT_MARKER, KEY_ROOT, NAME_CATALOG, NAME_XREF, RECOVERY_CHUNK_BYTES,
    RECOVERY_LOOKAHEAD_BYTES, RECOVERY_LOOKBEHIND_BYTES,
};
use crate::xref::KEYWORD_TRAILER;

verus! {

/// The bytes of `obj`.
pub open spec fn obj_word() -> Seq<u8> {
    seq![0x6f, 0x62, 0x6a]
}

/// The bytes of `trailer`.
pub open spec fn trailer_word() -> Seq<u8> {
    seq![0x74, 0x72, 0x61, 0x69, 0x6c, 0x65, 0x72]
}

/// The bytes of `/Encrypt`.
pub open spec fn encrypt_word() -> Seq<u8> {
    seq![0x2f, 0x45, 0x6e, 0x63, 0x72, 0x79, 0x70, 0x74]
}

/// The word `trailer` stands at `at` of the body behind `origin`, by itself.
pub open spec fn trailer_token(contents: Seq<u8>, origin: int, at: int) -> bool {
    &&& origin <= at
    &&& occurs_at(contents, at, trailer_word())
    &&& at + 7 == contents.len() || whitespace(contents[at + 7]) || delimiter(contents[at + 7])
    &&& at == origin || whitespace(contents[at - 1]) || delimiter(contents[at - 1])
}

/// The word `obj` at `at` of the body behind `origin` ends the header of `id`,
/// which starts at `start`.
pub open spec fn header_token(contents: Seq<u8>, origin: int, at: int, id: ObjectId, start: int) -> bool {
    &&& origin <= start < at
    &&& occurs_at(contents, at, obj_word())
    &&& at + 3 == contents.len() || whitespace(contents[at + 3]) || delimiter(contents[at + 3])
    &&& header_before(contents.skip(origin), at - origin) == Some((id, start - origin))
}

proof fn lemma_words()
    ensures
        KEYWORD_OBJ@ == obj_word(),
        KEYWORD_TRAILER@ == trailer_word(),
        ENCRYPT_MARKER@ == encrypt_word(),
{
    assert(KEYWORD_OBJ@ =~= obj_word());
    assert(KEYWORD_TRAILER@ =~= trailer_word());
    assert(ENCRYPT_MARKER@ =~= encrypt_word());
}

/// A word that stands somewhere begins with its first byte.
proof fn lemma_first_byte(s: Seq<u8>, at: int, word: Seq<u8>)
    requires
        occurs_at(s, at, word),
        word.len() > 0,
    ensures
        s[at] == word[0],
{
    assert(s.subrange(at, at + word.len())[0] == word[0]);
}

/// A word stands in a part where it stands in the whole.
proof fn lemma_word_in_part(s: Seq<u8>, low: int, high: int, at: int, word: Seq<u8>)
    requires
        0 <= low <= high <= s.len(),
        0 <= at,
        high == s.len() || at + word.len() <= high - low,
    ensures
        occurs_at(s.subrange(low, high), at, word) == occurs_at(s, low + at, word),
{
    if at + word.len() <= high - low {
        assert(s.subrange(low, high).subrange(at, at + word.len()) =~= s.subrange(low + at, low + at + word.len()));
    }
}

/// What is kept of the trailers up to `upto`: where they start, in order, and of
/// too many only the last.
pub open spec fn trailers_kept(contents: Seq<u8>, origin: int, upto: int, trailers: Seq<u64>) -> bool {
    &&& trailers.len() <= 32
    &&& forall|i: int, j: int| 0 <= i < j < trailers.len() ==> #[trigger] trailers[i] < #[trigger] trailers[j]
    &&& forall|i: int|
        0 <= i < trailers.len() ==> origin + #[trigger] trailers[i] - 7 < upto && trailer_token(
            contents,
            origin,
            origin + trailers[i] - 7,
        )
    &&& forall|at: int| #[trigger]
        trailer_token(contents, origin, at) && at < upto ==> trailers.contains((at + 7 - origin) as u64) || (
        trailers.len() == 32 && at + 7 - origin < trailers[0])
}

/// The header of `id` stands at `at`.
pub open spec fn stands_at(contents: Seq<u8>, at: int, id: ObjectId) -> bool {
    header_at(contents.skip(at)) matches Some((found, _)) && found == id
}

/// What is kept of the headers up to `upto`: each in order, and of each number
/// where the last one starts.
pub open spec fn headers_kept(contents: Seq<u8>, origin: int, upto: int, scan: ScanView) -> bool {
    let headers = scan.headers;
    &&& forall|i: int, j: int| 0 <= i < j < headers.len() ==> (#[trigger] headers[i]).1 < (#[trigger] headers[j]).1
    &&& forall|i: int|
        0 <= i < headers.len() ==> exists|at: int|
            origin + (#[trigger] headers[i]).1 < at < upto && #[trigger] contents[at] == 0x6f
    &&& forall|i: int|
        0 <= i < headers.len() ==> scan.locations.contains_key((#[trigger] headers[i]).0) && (
        scan.locations[headers[i].0] matches ObjectLocation64::Normal { offset, .. } && offset >= headers[i].1)
    &&& forall|number: u32| #[trigger]
        scan.locations.contains_key(number) ==> exists|i: int|
            0 <= i < headers.len() && (#[trigger] headers[i]).0 == number && (
            scan.locations[number] matches ObjectLocation64::Normal { offset, generation } && offset == headers[i].1
                && stands_at(contents, origin + offset, (number, generation)))
    &&& forall|i: int| 0 <= i < headers.len() ==> (#[trigger] headers[i]).0 <= scan.highest
    &&& headers.len() == 0 ==> scan.highest == 0
    &&& headers.len() > 0 ==> exists|i: int| 0 <= i < headers.len() && (#[trigger] headers[i]).0 == scan.highest
    &&& forall|at: int, id: ObjectId, start: int| #[trigger]
        header_token(contents, origin, at, id, start) && at < upto && at - start < 64 ==> headers.contains(
            (id.0, (start - origin) as u64),
        )
}

/// A mention of encryption up to `upto` has been noticed.
pub open spec fn encryption_seen(contents: Seq<u8>, origin: int, upto: int, encrypt: bool) -> bool {
    encrypt <==> exists|at: int| origin <= at < upto && #[trigger] occurs_at(contents, at, encrypt_word())
}

/// A scan of the body up to `upto` has kept what stands there.
pub open spec fn scan_kept(contents: Seq<u8>, origin: int, upto: int, scan: ScanView) -> bool {
    &&& trailers_kept(contents, origin, upto, scan.trailers)
    &&& headers_kept(contents, origin, upto, scan)
    &&& encryption_seen(contents, origin, upto, scan.encrypt)
}

proof fn lemma_trailer_noted(contents: Seq<u8>, origin: int, at: int, scan: ScanView)
    requires
        0 <= origin <= at,
        contents.len() <= u64::MAX,
        trailer_token(contents, origin, at),
        trailers_kept(contents, origin, at, scan.trailers),
    ensures
        trailers_kept(contents, origin, at + 1, note_trailer(scan, (at + 7 - origin) as u64).trailers),
{
    let before = scan.trailers;
    let offset = (at + 7 - origin) as u64;
    let after = note_trailer(scan, offset).trailers;
    assert forall|i: int| 0 <= i < before.len() implies #[trigger] before[i] < offset by {}
    let dropped = if before.len() == 32 {
        1int
    } else {
        0
    };
    assert(after.len() == before.len() - dropped + 1);
    assert forall|i: int| 0 <= i < after.len() - 1 implies #[trigger] after[i] == before[i + dropped] by {}
    assert(after[after.len() - 1] == offset);
    assert forall|other: int| #[trigger] trailer_token(contents, origin, other) && other < at + 1 implies after.contains(
        (other + 7 - origin) as u64,
    ) || (after.len() == 32 && other + 7 - origin < after[0]) by {
        let sought = (other + 7 - origin) as u64;
        if other == at {
            assert(after[after.len() - 1] == sought);
        } else if before.contains(sought) {
            let i = choose|i: int| 0 <= i < before.len() && before[i] == sought;
            if i < dropped {
                assert(after[0] == before[1]);
                assert(before[0] < before[1]);
            } else {
                assert(after[i - dropped] == sought);
            }
        } else {
            assert(after[0] == before[1]);
            assert(before[0] < before[1]);
        }
    }
}

/// Going back over white space depends only on what stands in front.
proof fn lemma_space_start_shift(s: Seq<u8>, t: Seq<u8>, shift: int, end: int)
    requires
        0 <= shift <= end <= s.len(),
        end - shift <= t.len(),
        forall|i: int| shift <= i < end ==> s[i] == #[trigger] t[i - shift],
    ensures
        space_start(s, end) >= shift ==> space_start(t, end - shift) == space_start(s, end) - shift,
        0 <= space_start(t, end - shift) <= end - shift,
        space_start(t, end - shift) > 0 ==> space_start(s, end) == space_start(t, end - shift) + shift,
        forall|i: int| space_start(t, end - shift) <= i < end - shift ==> whitespace(#[trigger] t[i]),
        space_start(s, end) <= end,
    decreases end,
{
    if end > shift {
        assert(s[end - 1] == t[end - 1 - shift]);
        if whitespace(s[end - 1]) {
            lemma_space_start_shift(s, t, shift, end - 1);
        }
    } else {
        lemma_back_is_back(s, end);
    }
}

proof fn lemma_back_is_back(s: Seq<u8>, end: int)
    requires
        0 <= end <= s.len(),
    ensures
        0 <= space_start(s, end) <= end,
        0 <= digits_start(s, end) <= end,
    decreases end,
{
    if end > 0 {
        lemma_back_is_back(s, end - 1);
    }
}

/// Going back over digits depends only on what stands in front.
proof fn lemma_digits_start_shift(s: Seq<u8>, t: Seq<u8>, shift: int, end: int)
    requires
        0 <= shift <= end <= s.len(),
        end - shift <= t.len(),
        forall|i: int| shift <= i < end ==> s[i] == #[trigger] t[i - shift],
    ensures
        digits_start(s, end) >= shift ==> digits_start(t, end - shift) == digits_start(s, end) - shift,
        0 <= digits_start(t, end - shift) <= end - shift,
        digits_start(t, end - shift) > 0 ==> digits_start(s, end) == digits_start(t, end - shift) + shift,
        forall|i: int| digits_start(t, end - shift) <= i < end - shift ==> digit(#[trigger] t[i]),
        digits_start(s, end) <= end,
    decreases end,
{
    if end > shift {
        assert(s[end - 1] == t[end - 1 - shift]);
        if digit(s[end - 1]) {
            lemma_digits_start_shift(s, t, shift, end - 1);
        }
    } else {
        lemma_back_is_back(s, end);
    }
}

/// A header that is found going back is one of numbers and white space.
proof fn lemma_header_bytes(t: Seq<u8>, keyword: int)
    requires
        0 <= keyword <= t.len(),
    ensures
        header_before(t, keyword) matches Some((_, start)) ==> 0 <= start < keyword && forall|i: int|
            start <= i < keyword ==> whitespace(#[trigger] t[i]) || digit(t[i]),
{
    lemma_space_start_shift(t, t, 0, keyword);
    let generation_end = space_start(t, keyword);
    lemma_digits_start_shift(t, t, 0, generation_end);
    let generation_start = digits_start(t, generation_end);
    lemma_space_start_shift(t, t, 0, generation_start);
    let number_end = space_start(t, generation_start);
    lemma_digits_start_shift(t, t, 0, number_end);
}

proof fn lemma_same_part(s: Seq<u8>, t: Seq<u8>, shift: int, low: int, high: int)
    requires
        0 <= shift <= low <= high <= s.len(),
        high - shift <= t.len(),
        forall|i: int| shift <= i < high ==> s[i] == #[trigger] t[i - shift],
    ensures
        t.subrange(low - shift, high - shift) == s.subrange(low, high),
{
    assert forall|k: int| 0 <= k < high - low implies t.subrange(low - shift, high - shift)[k] == s.subrange(
        low,
        high,
    )[k] by {
        assert(s[low + k] == t[(low + k) - shift]);
    }
    assert(t.subrange(low - shift, high - shift) =~= s.subrange(low, high));
}

/// A header that stands in the whole is found in a window that reaches far enough
/// back.
proof fn lemma_header_shift(s: Seq<u8>, t: Seq<u8>, shift: int, keyword: int)
    requires
        0 <= shift <= keyword <= s.len(),
        keyword - shift <= t.len(),
        forall|i: int| shift <= i < keyword ==> s[i] == #[trigger] t[i - shift],
    ensures
        header_before(s, keyword) matches Some((id, start)) ==> (start > shift || shift == 0) ==> header_before(
            t,
            keyword - shift,
        ) == Some((id, start - shift)),
        shift == 0 ==> header_before(t, keyword) == header_before(s, keyword),
{
    lemma_header_bytes(s, keyword);
    lemma_header_bytes(t, keyword - shift);
    lemma_space_start_shift(s, t, shift, keyword);
    lemma_space_start_shift(s, s, 0, keyword);
    let generation_end = space_start(s, keyword);
    lemma_digits_start_shift(s, s, 0, generation_end);
    let generation_start = digits_start(s, generation_end);
    lemma_space_start_shift(s, s, 0, generation_start);
    let number_end = space_start(s, generation_start);
    lemma_digits_start_shift(s, s, 0, number_end);
    let start = digits_start(s, number_end);
    if start > shift || shift == 0 {
        lemma_digits_start_shift(s, t, shift, generation_end);
        lemma_space_start_shift(s, t, shift, generation_start);
        lemma_digits_start_shift(s, t, shift, number_end);
        lemma_same_part(s, t, shift, generation_start, generation_end);
        lemma_same_part(s, t, shift, start, number_end);
        if start > 0 {
            assert(s[start - 1] == t[(start - 1) - shift]);
            assert(token_start(t, start - shift) == token_start(s, start));
        }
    }
}

/// What one byte of a window adds to what is kept.
proof fn lemma_byte_kept(contents: Seq<u8>, origin: int, base: int, end: int, index: int, scan: ScanView)
    requires
        0 <= origin <= base <= end <= contents.len() <= u64::MAX,
        0 <= index < end - base,
        end == contents.len() || index + 16 <= end - base,
        base == origin || index >= 64,
        scan_kept(contents, origin, base + index, scan),
    ensures
        scan_byte(contents.subrange(base, end), index, base - origin, scan) matches Ok(next) ==> scan_kept(
            contents,
            origin,
            base + index + 1,
            next,
        ),
{
    let window = contents.subrange(base, end);
    let at = base + index;
    lemma_words();
    lemma_word_in_part(contents, base, end, index, obj_word());
    lemma_word_in_part(contents, base, end, index, trailer_word());
    lemma_word_in_part(contents, base, end, index, encrypt_word());
    assert(window[index] == contents[at]);
    if index > 0 {
        assert(window[index - 1] == contents[at - 1]);
    }
    if occurs_at(contents, at, obj_word()) {
        lemma_first_byte(contents, at, obj_word());
    }
    if occurs_at(contents, at, trailer_word()) {
        lemma_first_byte(contents, at, trailer_word());
    }
    if occurs_at(contents, at, encrypt_word()) {
        lemma_first_byte(contents, at, encrypt_word());
    }
    if let Ok(next) = scan_byte(window, index, base - origin, scan) {
        lemma_trailers_after(contents, origin, base, end, index, scan, next);
        lemma_headers_after(contents, origin, base, end, index, scan, next);
    }
}

proof fn lemma_trailers_after(
    contents: Seq<u8>,
    origin: int,
    base: int,
    end: int,
    index: int,
    scan: ScanView,
    next: ScanView,
)
    requires
        0 <= origin <= base <= end <= contents.len() <= u64::MAX,
        0 <= index < end - base,
        end == contents.len() || index + 16 <= end - base,
        base == origin || index >= 64,
        trailers_kept(contents, origin, base + index, scan.trailers),
        scan_byte(contents.subrange(base, end), index, base - origin, scan) == Ok::<ScanView, IndexedReaderError>(next),
    ensures
        trailers_kept(contents, origin, base + index + 1, next.trailers),
{
    let window = contents.subrange(base, end);
    let at = base + index;
    lemma_words();
    lemma_word_in_part(contents, base, end, index, obj_word());
    lemma_word_in_part(contents, base, end, index, trailer_word());
    if occurs_at(contents, at, obj_word()) {
        lemma_first_byte(contents, at, obj_word());
    }
    if occurs_at(contents, at, trailer_word()) {
        lemma_first_byte(contents, at, trailer_word());
        if index + 7 < window.len() {
            assert(window[index + 7] == contents[at + 7]);
        }
        if index > 0 {
            assert(window[index - 1] == contents[at - 1]);
        }
    }
    if trailer_token(contents, origin, at) {
        lemma_trailer_noted(contents, origin, at, scan);
        assert(next.trailers == note_trailer(scan, (at + 7 - origin) as u64).trailers);
    } else {
        assert(next.trailers == scan.trailers);
        assert forall|other: int| #[trigger] trailer_token(contents, origin, other) && other < at + 1 implies other
            < at by {}
    }
}

proof fn lemma_headers_after(
    contents: Seq<u8>,
    origin: int,
    base: int,
    end: int,
    index: int,
    scan: ScanView,
    next: ScanView,
)
    requires
        0 <= origin <= base <= end <= contents.len() <= u64::MAX,
        0 <= index < end - base,
        end == contents.len() || index + 16 <= end - base,
        base == origin || index >= 64,
        headers_kept(contents, origin, base + index, scan),
        scan_byte(contents.subrange(base, end), index, base - origin, scan) == Ok::<ScanView, IndexedReaderError>(next),
    ensures
        headers_kept(contents, origin, base + index + 1, next),
{
    let window = contents.subrange(base, end);
    let at = base + index;
    let whole = contents.skip(origin);
    lemma_words();
    lemma_word_in_part(contents, base, end, index, obj_word());
    assert forall|i: int| base - origin <= i < at - origin implies whole[i] == #[trigger] window[i - (base
        - origin)] by {}
    lemma_header_shift(whole, window, base - origin, at - origin);
    if occurs_at(contents, at, obj_word()) {
        lemma_first_byte(contents, at, obj_word());
        if index + 3 < window.len() {
            assert(window[index + 3] == contents[at + 3]);
        }
    }
    if occurs_at(contents, at, obj_word()) && token_boundary(window, index + 3) && header_before(window, index) is Some {
        let (id, start) = header_before(window, index)->Some_0;
        let offset = (base - origin + start) as u64;
        lemma_header_bytes(window, index);
        let rest = contents.skip(base);
        assert forall|i: int| 0 <= i < index implies rest[i] == #[trigger] window[i - 0] by {}
        lemma_header_shift(rest, window, 0, index);
        assert(rest.subrange(index, index + 3) =~= contents.subrange(at, at + 3));
        law_header_reads_the_same_forward(rest, index);
        assert(rest.skip(start) =~= contents.skip(origin + offset));
        assert(stands_at(contents, origin + offset, id));
        assert(Ok::<ScanView, IndexedReaderError>(next) == note_header(scan, id, offset));
        assert forall|i: int| origin + offset <= i < at implies whitespace(#[trigger] contents[i]) || digit(
            contents[i],
        ) by {
            assert(window[i - base] == contents[i]);
        }
        lemma_header_noted(contents, origin, at, scan, next, id, offset);
    } else {
        assert(next.headers == scan.headers && next.locations == scan.locations && next.highest == scan.highest);
        assert forall|other: int, id: ObjectId, start: int| #[trigger]
            header_token(contents, origin, other, id, start) && other < at + 1 && other - start < 64 implies other
            < at by {}
        assert forall|i: int| 0 <= i < next.headers.len() implies exists|k: int|
            origin + (#[trigger] next.headers[i]).1 < k < at + 1 && #[trigger] contents[k] == 0x6f by {
            assert(origin + scan.headers[i].1 >= 0);
        }
    }
}

proof fn lemma_header_noted(
    contents: Seq<u8>,
    origin: int,
    at: int,
    scan: ScanView,
    next: ScanView,
    id: ObjectId,
    offset: u64,
)
    requires
        0 <= origin <= at < contents.len() <= u64::MAX,
        headers_kept(contents, origin, at, scan),
        Ok::<ScanView, IndexedReaderError>(next) == note_header(scan, id, offset),
        contents[at] == 0x6f,
        origin + offset < at,
        forall|i: int| origin + offset <= i < at ==> whitespace(#[trigger] contents[i]) || digit(contents[i]),
        stands_at(contents, origin + offset, id),
        forall|other: ObjectId, start: int| #[trigger]
            header_token(contents, origin, at, other, start) && at - start < 64 ==> other == id && start == origin
                + offset,
    ensures
        headers_kept(contents, origin, at + 1, next),
{
    let before = scan.headers;
    let after = next.headers;
    assert forall|i: int| 0 <= i < before.len() implies (#[trigger] before[i]).1 < offset by {
        let k = choose|k: int| origin + before[i].1 < k < at && #[trigger] contents[k] == 0x6f;
        if k >= origin + offset {
            assert(whitespace(contents[k]) || digit(contents[k]));
        }
    }
    assert(after[after.len() - 1] == (id.0, offset));
    assert forall|i: int| 0 <= i < before.len() implies #[trigger] after[i] == before[i] by {}
    assert forall|i: int| 0 <= i < after.len() implies exists|k: int|
        origin + (#[trigger] after[i]).1 < k < at + 1 && #[trigger] contents[k] == 0x6f by {
        if i < before.len() {
            let k = choose|k: int| origin + before[i].1 < k < at && #[trigger] contents[k] == 0x6f;
            assert(contents[k] == 0x6f);
        } else {
            assert(contents[at] == 0x6f);
        }
    }
    assert forall|number: u32| #[trigger] next.locations.contains_key(number) implies exists|i: int|
        0 <= i < after.len() && (#[trigger] after[i]).0 == number && (
        next.locations[number] matches ObjectLocation64::Normal { offset, generation } && offset == after[i].1
            && stands_at(contents, origin + offset, (number, generation))) by {
        if number == id.0 {
            assert(after[after.len() - 1].0 == number);
        } else {
            assert(scan.locations.contains_key(number));
            let i = choose|i: int|
                0 <= i < before.len() && (#[trigger] before[i]).0 == number && (
                scan.locations[number] matches ObjectLocation64::Normal { offset, generation } && offset == before[i].1
                    && stands_at(contents, origin + offset, (number, generation)));
            assert(after[i].0 == number);
        }
    }
    assert forall|i: int| 0 <= i < after.len() implies next.locations.contains_key((#[trigger] after[i]).0) && (
    next.locations[after[i].0] matches ObjectLocation64::Normal { offset: last, .. } && last >= after[i].1) by {
        if i < before.len() {
            assert(scan.locations.contains_key(before[i].0));
        }
    }
    assert(exists|i: int| 0 <= i < after.len() && (#[trigger] after[i]).0 == next.highest) by {
        if id.0 > scan.highest || before.len() == 0 {
            assert(after[after.len() - 1].0 == next.highest);
        } else {
            let i = choose|i: int| 0 <= i < before.len() && (#[trigger] before[i]).0 == scan.highest;
            assert(after[i].0 == next.highest);
        }
    }
    assert forall|other: int, found: ObjectId, start: int| #[trigger]
        header_token(contents, origin, other, found, start) && other < at + 1 && other - start
            < 64 implies after.contains((found.0, (start - origin) as u64)) by {
        if other == at {
            assert(after[after.len() - 1] == (found.0, (start - origin) as u64));
        } else {
            let i = choose|i: int| 0 <= i < before.len() && before[i] == (found.0, (start - origin) as u64);
            assert(after[i] == (found.0, (start - origin) as u64));
        }
    }
}

proof fn lemma_bytes_kept(contents: Seq<u8>, origin: int, base: int, end: int, from: int, to: int, scan: ScanView)
    requires
        0 <= origin <= base <= end <= contents.len() <= u64::MAX,
        0 <= from <= to <= end - base,
        end == contents.len() || to + 16 <= end - base,
        base == origin || from >= 64,
        scan_kept(contents, origin, base + from, scan),
    ensures
        scan_bytes(contents.subrange(base, end), from, to, base - origin, scan) matches Ok(next) ==> scan_kept(
            contents,
            origin,
            base + to,
            next,
        ),
    decreases to - from,
{
    if from < to {
        lemma_byte_kept(contents, origin, base, end, from, scan);
        if let Ok(next) = scan_byte(contents.subrange(base, end), from, base - origin, scan) {
            lemma_bytes_kept(contents, origin, base, end, from + 1, to, next);
        }
    }
}

proof fn lemma_scan_kept(contents: Seq<u8>, origin: int, base: int, scanned: int, read: int, scan: ScanView)
    requires
        0 <= origin <= base <= scanned <= read <= contents.len() <= u64::MAX,
        base == origin || scanned - base >= 64,
        read - scanned <= 16,
        read == contents.len() ==> scanned == read,
        scan_kept(contents, origin, scanned, scan),
    ensures
        scan_from(contents, origin, base, scanned, read, scan) matches Ok(found) ==> scan_kept(
            contents,
            origin,
            contents.len() as int,
            found,
        ),
    decreases contents.len() - read,
{
    if read < contents.len() {
        let end = if contents.len() - read < RECOVERY_CHUNK_BYTES {
            contents.len() as int
        } else {
            read + RECOVERY_CHUNK_BYTES
        };
        let window = contents.subrange(base, end);
        let boundary = if end == contents.len() {
            end
        } else {
            end - RECOVERY_LOOKAHEAD_BYTES
        };
        let kept = if window.len() < RECOVERY_LOOKAHEAD_BYTES + RECOVERY_LOOKBEHIND_BYTES {
            window.len() as int
        } else {
            RECOVERY_LOOKAHEAD_BYTES + RECOVERY_LOOKBEHIND_BYTES
        };
        lemma_bytes_kept(contents, origin, base, end, scanned - base, boundary - base, scan);
        if let Ok(next) = scan_bytes(window, scanned - base, boundary - base, base - origin, scan) {
            if end < contents.len() {
                lemma_scan_kept(contents, origin, end - kept, boundary, end, next);
            } else {
                assert(scan_from(contents, origin, end - kept, boundary, end, next) == Ok::<ScanView, IndexedReaderError>(
                    next,
                ));
            }
        }
    }
}

/// A scan finds the trailers and the object headers of the whole body, however it is
/// cut into reads. Of the trailers it keeps where the last thirty-two start, in
/// order. A number leads to the last header that has it, the declared size follows
/// from the largest number, and a mention of encryption anywhere is noticed. A header
/// of less than sixty-four bytes is never missed.
pub proof fn law_scan_sees_the_whole_body(contents: Seq<u8>, origin: u64)
    requires
        origin <= contents.len() <= u64::MAX,
    ensures
        scan_of(contents, origin) matches Ok(scan) ==> {
            &&& trailers_kept(contents, origin as int, contents.len() as int, scan.trailers)
            &&& headers_kept(contents, origin as int, contents.len() as int, scan)
            &&& encryption_seen(contents, origin as int, contents.len() as int, scan.encrypt)
        },
{
    let start = origin as int;
    assert(scan_kept(contents, start, start, empty_scan()));
    lemma_scan_kept(contents, start, start, start, start, empty_scan());
}

/// The dictionary names the object as the document's root: for `Root` it has a
/// reference to it.
pub open spec fn names_root(dict: DictionaryView, root: ObjectId) -> bool {
    dict_get(dict, seq![0x52u8, 0x6f, 0x6f, 0x74]) == Some(ObjectView::Reference(root))
}

/// The dictionary has this type.
pub open spec fn typed(dict: DictionaryView, name: Seq<u8>) -> bool {
    dict_get(dict, seq![0x54u8, 0x79, 0x70, 0x65]) == Some(ObjectView::Name(name))
}

/// Behind the byte at `at` stands a dictionary that names a root.
pub open spec fn rooted_at(contents: Seq<u8>, at: int) -> bool {
    dictionary_at(contents, at as u64) matches Some(dict) && exists|root: ObjectId| #[trigger] names_root(dict, root)
}

proof fn lemma_keys()
    ensures
        KEY_ROOT@ == seq![0x52u8, 0x6f, 0x6f, 0x74],
        KEY_TYPE@ == seq![0x54u8, 0x79, 0x70, 0x65],
        NAME_XREF@ == seq![0x58u8, 0x52, 0x65, 0x66],
        NAME_CATALOG@ == seq![0x43u8, 0x61, 0x74, 0x61, 0x6c, 0x6f, 0x67],
{
    assert(KEY_ROOT@ =~= seq![0x52u8, 0x6f, 0x6f, 0x74]);
    assert(KEY_TYPE@ =~= seq![0x54u8, 0x79, 0x70, 0x65]);
    assert(NAME_XREF@ =~= seq![0x58u8, 0x52, 0x65, 0x66]);
    assert(NAME_CATALOG@ =~= seq![0x43u8, 0x61, 0x74, 0x61, 0x6c, 0x6f, 0x67]);
}

proof fn lemma_root_of(dict: DictionaryView, root: ObjectId)
    ensures
        root_of(dict) == Some(root) <==> names_root(dict, root),
{
    lemma_keys();
}

/// The last candidate that names a root is the one that is taken.
proof fn lemma_classic_takes(contents: Seq<u8>, origin: u64, trailers: Seq<u64>, count: int, index: int)
    requires
        0 <= index < count <= trailers.len(),
        rooted_at(contents, origin + trailers[index]),
        forall|i: int| index < i < count ==> !rooted_at(contents, origin + #[trigger] trailers[i]),
    ensures
        classic_trailer(contents, origin, trailers, count) matches Some((dict, root)) && dictionary_at(
            contents,
            (origin + trailers[index]) as u64,
        ) == Some(dict) && names_root(dict, root),
    decreases count,
{
    let last = trailers[count - 1];
    if let Some(dict) = dictionary_at(contents, (origin + last) as u64) {
        if let Some(root) = root_of(dict) {
            lemma_root_of(dict, root);
        }
        if index == count - 1 {
            let root = choose|root: ObjectId| #[trigger] names_root(dict, root);
            lemma_root_of(dict, root);
        }
    }
    if index < count - 1 {
        assert(!rooted_at(contents, origin + trailers[count - 1]));
        lemma_classic_takes(contents, origin, trailers, count - 1, index);
    }
}

proof fn lemma_classic_takes_none(contents: Seq<u8>, origin: u64, trailers: Seq<u64>, count: int)
    requires
        0 <= count <= trailers.len(),
        forall|i: int| 0 <= i < count ==> !rooted_at(contents, origin + #[trigger] trailers[i]),
    ensures
        classic_trailer(contents, origin, trailers, count) is None,
    decreases count,
{
    if count > 0 {
        if let Some(dict) = dictionary_at(contents, (origin + trailers[count - 1]) as u64) {
            assert(!rooted_at(contents, origin + trailers[count - 1]));
            if let Some(root) = root_of(dict) {
                lemma_root_of(dict, root);
            }
        }
        lemma_classic_takes_none(contents, origin, trailers, count - 1);
    }
}

/// Of the trailers in the body the newest that names a root is recovered: the one
/// behind the last word `trailer` of those that a dictionary with a root follows,
/// unless thirty-two such words without a root stand behind it.
pub proof fn law_newest_trailer_is_recovered(contents: Seq<u8>, origin: u64, version: Seq<char>, at: int)
    requires
        origin <= contents.len() <= u64::MAX,
        trailer_token(contents, origin as int, at),
        rooted_at(contents, at + 7),
        forall|later: int| #[trigger]
            trailer_token(contents, origin as int, later) && later > at ==> !rooted_at(contents, later + 7),
    ensures
        scan_of(contents, origin) matches Ok(scan) ==> {
            ||| scan.trailers.len() == 32 && scan.trailers[0] > at + 7 - origin
            ||| {
                &&& trailer_of(contents, origin, scan) matches Some((dict, root))
                &&& dictionary_at(contents, (at + 7) as u64) == Some(dict)
                &&& names_root(dict, root)
                &&& recovered_index(contents, origin, version) matches Ok(index) ==> index.trailer == dict
            }
        },
{
    law_scan_sees_the_whole_body(contents, origin);
    if let Ok(scan) = scan_of(contents, origin) {
        let sought = (at + 7 - origin) as u64;
        if scan.trailers.contains(sought) {
            let index = choose|i: int| 0 <= i < scan.trailers.len() && scan.trailers[i] == sought;
            assert(origin + scan.trailers[index] == at + 7);
            assert forall|i: int| index < i < scan.trailers.len() implies !rooted_at(
                contents,
                origin + #[trigger] scan.trailers[i],
            ) by {
                assert(scan.trailers[index] < scan.trailers[i]);
                let later = origin + scan.trailers[i] - 7;
                assert(trailer_token(contents, origin as int, later));
                assert(!rooted_at(contents, later + 7));
            }
            lemma_classic_takes(contents, origin, scan.trailers, scan.trailers.len() as int, index);
        }
    }
}

/// How many of the headers from `from` on are still where their number leads.
pub open spec fn live_from(scan: ScanView, from: int) -> nat
    decreases scan.headers.len() - from,
{
    if from >= scan.headers.len() {
        0
    } else {
        live_from(scan, from + 1) + if leads_to(scan, scan.headers[from].0, scan.headers[from].1) {
            1nat
        } else {
            0
        }
    }
}

/// The number leads to this offset.
pub open spec fn leads_to(scan: ScanView, number: u32, offset: u64) -> bool {
    scan.locations.contains_key(number) && (scan.locations[number] matches ObjectLocation64::Normal { offset: held, .. }
        && held == offset)
}

/// The object of the header at `index` is a cross-reference stream that names a root.
pub open spec fn stream_names_root(contents: Seq<u8>, origin: u64, scan: ScanView, index: int) -> bool {
    let (number, offset) = scan.headers[index];
    leads_to(scan, number, offset) && (object_dictionary_at(contents, (origin + offset) as u64) matches Some(dict)
        && typed(dict, seq![0x58u8, 0x52, 0x65, 0x66]) && exists|root: ObjectId| #[trigger] names_root(dict, root))
}

/// The object of the header at `index` is a catalog.
pub open spec fn is_catalog(contents: Seq<u8>, origin: u64, scan: ScanView, index: int) -> bool {
    let (number, offset) = scan.headers[index];
    leads_to(scan, number, offset) && (object_dictionary_at(contents, (origin + offset) as u64) matches Some(dict)
        && typed(dict, seq![0x43u8, 0x61, 0x74, 0x61, 0x6c, 0x6f, 0x67]))
}

proof fn lemma_probe_takes_stream(
    contents: Seq<u8>,
    origin: u64,
    scan: ScanView,
    count: int,
    probes: int,
    catalog: Option<u32>,
    index: int,
)
    requires
        0 <= index < count <= scan.headers.len(),
        probes == live_from(scan, count),
        live_from(scan, index + 1) < 256,
        stream_names_root(contents, origin, scan, index),
        forall|i: int| index < i < count ==> !#[trigger] stream_names_root(contents, origin, scan, i),
    ensures
        probed_trailer(contents, origin, scan, count, probes, catalog) matches Some((dict, root))
            && object_dictionary_at(contents, (origin + scan.headers[index].1) as u64) == Some(dict) && names_root(
            dict,
            root,
        ),
    decreases count,
{
    lemma_keys();
    lemma_live_from(scan, index + 1, count);
    let header = scan.headers[count - 1];
    assert(live_header(scan, header) == leads_to(scan, header.0, header.1));
    if index < count - 1 {
        assert(!stream_names_root(contents, origin, scan, count - 1));
    }
    match object_dictionary_at(contents, (origin + header.1) as u64) {
        Some(dict) => {
            if let Some(root) = root_of(dict) {
                lemma_root_of(dict, root);
            }
            if index == count - 1 {
                let root = choose|root: ObjectId| #[trigger] names_root(dict, root);
                lemma_root_of(dict, root);
            } else {
                let next = if live_header(scan, header) && catalog is None && dict_has_type(dict, NAME_CATALOG@) {
                    Some(header.0)
                } else {
                    catalog
                };
                lemma_probe_takes_stream(
                    contents,
                    origin,
                    scan,
                    count - 1,
                    live_from(scan, count - 1) as int,
                    next,
                    index,
                );
            }
        },
        None => {
            lemma_probe_takes_stream(
                contents,
                origin,
                scan,
                count - 1,
                live_from(scan, count - 1) as int,
                catalog,
                index,
            );
        },
    }
}

proof fn lemma_live_from(scan: ScanView, low: int, high: int)
    requires
        0 <= low <= high,
    ensures
        live_from(scan, high) <= live_from(scan, low),
    decreases high - low,
{
    if low < high {
        lemma_live_from(scan, low + 1, high);
    }
}

/// Where no classic trailer names a root, the newest cross-reference stream that does
/// is the trailer, if it is among the last objects that are probed.
pub proof fn law_newest_stream_trailer_is_recovered(contents: Seq<u8>, origin: u64, scan: ScanView, index: int)
    requires
        forall|i: int| 0 <= i < scan.trailers.len() ==> !rooted_at(contents, origin + #[trigger] scan.trailers[i]),
        0 <= index < scan.headers.len(),
        stream_names_root(contents, origin, scan, index),
        forall|i: int|
            index < i < scan.headers.len() ==> !#[trigger] stream_names_root(contents, origin, scan, i),
        live_from(scan, index + 1) < 256,
    ensures
        trailer_of(contents, origin, scan) matches Some((dict, root)) && object_dictionary_at(
            contents,
            (origin + scan.headers[index].1) as u64,
        ) == Some(dict) && names_root(dict, root),
{
    lemma_classic_takes_none(contents, origin, scan.trailers, scan.trailers.len() as int);
    lemma_probe_takes_stream(contents, origin, scan, scan.headers.len() as int, 0, None, index);
}

proof fn lemma_probe_takes_catalog(
    contents: Seq<u8>,
    origin: u64,
    scan: ScanView,
    count: int,
    probes: int,
    catalog: Option<u32>,
    index: int,
)
    requires
        0 <= count <= scan.headers.len(),
        0 <= index < scan.headers.len(),
        probes == live_from(scan, count),
        live_from(scan, index + 1) < 256,
        is_catalog(contents, origin, scan, index),
        forall|i: int| index < i < scan.headers.len() ==> !#[trigger] is_catalog(contents, origin, scan, i),
        forall|i: int| 0 <= i < count ==> !#[trigger] stream_names_root(contents, origin, scan, i),
        catalog == (if index < count {
            None
        } else {
            Some(scan.headers[index].0)
        }),
    ensures
        probed_trailer(contents, origin, scan, count, probes, catalog) == (if scan.encrypt {
            None
        } else {
            Some((named_root(scan.headers[index].0), (scan.headers[index].0, 0u16)))
        }),
    decreases count,
{
    lemma_keys();
    if index < count {
        lemma_live_from(scan, index + 1, count);
    }
    if count > 0 && probes < 256 {
        let header = scan.headers[count - 1];
        assert(live_header(scan, header) == leads_to(scan, header.0, header.1));
        assert(!stream_names_root(contents, origin, scan, count - 1));
        if index < count - 1 {
            assert(!is_catalog(contents, origin, scan, count - 1));
        }
        if let Some(dict) = object_dictionary_at(contents, (origin + header.1) as u64) {
            if let Some(root) = root_of(dict) {
                lemma_root_of(dict, root);
            }
        }
        let next = if index < count - 1 {
            None
        } else {
            Some(scan.headers[index].0)
        };
        lemma_probe_takes_catalog(
            contents,
            origin,
            scan,
            count - 1,
            live_from(scan, count - 1) as int,
            next,
            index,
        );
    }
}

/// Where nothing in the body is a trailer that names a root, the newest catalog is
/// made the root, unless the body mentions encryption: then there is no trailer.
pub proof fn law_newest_catalog_is_made_the_root(contents: Seq<u8>, origin: u64, scan: ScanView, index: int)
    requires
        forall|i: int| 0 <= i < scan.trailers.len() ==> !rooted_at(contents, origin + #[trigger] scan.trailers[i]),
        forall|i: int| 0 <= i < scan.headers.len() ==> !#[trigger] stream_names_root(contents, origin, scan, i),
        0 <= index < scan.headers.len(),
        is_catalog(contents, origin, scan, index),
        forall|i: int| index < i < scan.headers.len() ==> !#[trigger] is_catalog(contents, origin, scan, i),
        live_from(scan, index + 1) < 256,
    ensures
        match trailer_of(contents, origin, scan) {
            Some((dict, root)) => {
                &&& !scan.encrypt
                &&& root == (scan.headers[index].0, 0u16)
                &&& names_root(dict, root)
                &&& dict.len() == 1
            },
            None => scan.encrypt,
        },
{
    lemma_keys();
    lemma_classic_takes_none(contents, origin, scan.trailers, scan.trailers.len() as int);
    lemma_probe_takes_catalog(contents, origin, scan, scan.headers.len() as int, 0, None, index);
    let root = (scan.headers[index].0, 0u16);
    crate::object::law_dictionary_get_after_set(
        Seq::empty(),
        KEY_ROOT@,
        ObjectView::Reference(root),
        KEY_ROOT@,
    );
}

/// Where a scan settles on a trailer whose root it has found, the index that it gives has
/// that trailer, every object that the scan has found, and the number behind the highest
/// as its size.
pub proof fn law_recovered_index_is_that_of_the_scan(
    contents: Seq<u8>,
    origin: u64,
    version: Seq<char>,
    scan: ScanView,
    trailer: DictionaryView,
    root: ObjectId,
    at: u64,
    generation: u16,
)
    requires
        scan_of(contents, origin) == Ok::<ScanView, IndexedReaderError>(scan),
        trailer_of(contents, origin, scan) == Some((trailer, root)),
        scan.locations.dom().finite(),
        scan.locations.contains_key(root.0),
        scan.locations[root.0] == (ObjectLocation64::Normal { offset: at, generation }),
    ensures
        recovered_index(contents, origin, version) matches Ok(index) && index.trailer == trailer && index.locations
            == scan.locations && index.declared_size == scan.highest + 1 && index.source_origin == origin
            && index.source_len == contents.len() as u64 && index.version == version && index.recovered,
{
    if scan.locations.len() == 0 {
        assert(scan.locations.dom() =~= Set::empty());
        assert(scan.locations.dom().contains(root.0));
    }
}

/// A document whose cross-reference sections are invalid, or are not where they should be,
/// is given the index that a scan of its body gives, where it gives one.
pub proof fn law_unusable_sections_are_answered_by_a_scan(
    contents: Seq<u8>,
    origin: u64,
    version: Seq<char>,
    error: IndexedReaderError,
    index: IndexView,
)
    requires
        header_of(contents) == Ok::<(u64, Seq<char>), IndexedReaderError>((origin, version)),
        index_from_xref(contents, origin, version) == Err::<IndexView, IndexedReaderError>(error),
        error is InvalidStartXref || error is StartXrefOutOfBounds || error is InvalidXref,
        recovered_index(contents, origin, version) == Ok::<IndexView, IndexedReaderError>(index),
    ensures
        index_of(contents) == Ok::<IndexView, IndexedReaderError>(index),
{
}

/// A header is noted, and its number leads to it from there on, unless its number is one
/// too many. A number that is known already may come again at any time.
pub proof fn law_headers_are_noted(scan: ScanView, id: ObjectId, offset: u64)
    ensures
        scan.locations.len() < 2_097_152 || scan.locations.contains_key(id.0) ==> (note_header(
            scan,
            id,
            offset,
        ) matches Ok(next) && next.locations == scan.locations.insert(id.0, ObjectLocation64::Normal { offset, generation: id.1 })
            && next.headers == scan.headers.push((id.0, offset)) && next.trailers == scan.trailers),
        scan.locations.len() >= 2_097_152 && !scan.locations.contains_key(id.0) ==> note_header(scan, id, offset) is Err,
{
}

} // verus!

//! Maps from character codes to Unicode.

use std::collections::BTreeMap;

use rangemap::RangeInclusiveMap;
use vstd::layout::size_of;
use vstd::prelude::*;

use crate::memory::{capped, capped_product, lemma_capped_factor, room_of_vec, vec_room};

verus! {

/// A character code.
pub type SourceCode = u32;

/// How many bytes a character code has.
pub type CodeLen = u8;

/// What a range of codes maps to, as a range map holds it: which kind of target
/// it is, its offset, its string, and its strings.
pub type StoredTarget = (u8, u32, Vec<u16>, Vec<Vec<u16>>);

/// A stored target as a mathematical value.
pub type StoredView = (u8, u32, Seq<u16>, Seq<Seq<u16>>);

#[verifier::external_type_specification]
#[verifier::external_body]
#[verifier::reject_recursive_types(K)]
#[verifier::reject_recursive_types(V)]
#[verifier::reject_recursive_types(StepFnsT)]
pub struct ExRangeInclusiveMap<K, V, StepFnsT>(rangemap::RangeInclusiveMap<K, V, StepFnsT>);

/// What a range map holds for each code.
pub uninterp spec fn range_contents(map: RangeInclusiveMap<u32, (u8, u32, Vec<u16>, Vec<Vec<u16>>), u32>) -> Map<
    u32,
    (u8, u32, Seq<u16>, Seq<Seq<u16>>),
>;

/// The views of strings.
pub open spec fn strings_view(strings: Seq<Vec<u16>>) -> Seq<Seq<u16>> {
    Seq::new(strings.len(), |i: int| strings[i]@)
}

/// The view of a stored target.
pub open spec fn stored_view(target: StoredTarget) -> StoredView {
    (target.0, target.1, target.2@, strings_view(target.3@))
}

/// What the codes from `low` to `high` map to after they have been given a target.
pub open spec fn overwritten(contents: Map<u32, StoredView>, low: u32, high: u32, target: StoredView) -> Map<
    u32,
    StoredView,
> {
    Map::new(
        |code: u32| low <= code <= high || contents.contains_key(code),
        |code: u32|
            if low <= code <= high {
                target
            } else {
                contents[code]
            },
    )
}

/// Where the run of codes with the same target that `code` belongs to starts.
pub open spec fn run_start(contents: Map<u32, StoredView>, code: u32) -> u32
    decreases code,
{
    if code > 0 && contents.contains_key((code - 1) as u32) && contents[(code - 1) as u32] == contents[code] {
        run_start(contents, (code - 1) as u32)
    } else {
        code
    }
}

/// No code maps to anything.
pub open spec fn no_codes() -> Map<u32, StoredView> {
    Map::empty()
}

/// Calls `RangeInclusiveMap::new`: a map that holds nothing.
#[verifier::external_body]
fn new_ranges() -> (r: RangeInclusiveMap<u32, StoredTarget, u32>)
    ensures
        range_contents(r) == no_codes(),
{
    RangeInclusiveMap::new()
}

/// Calls `RangeInclusiveMap::insert`, which panics on a range that ends before
/// it starts: every code of the range maps to the target, the others map to what
/// they mapped to.
#[verifier::external_body]
fn insert_range(map: &mut RangeInclusiveMap<u32, StoredTarget, u32>, low: u32, high: u32, target: StoredTarget)
    requires
        low <= high,
    ensures
        range_contents(*final(map)) == overwritten(range_contents(*old(map)), low, high, stored_view(target)),
{
    map.insert(low..=high, target)
}

/// Calls `RangeInclusiveMap::get_key_value`: the start of the stored range that
/// covers the code, and its target. Ranges that touch and have equal targets are
/// stored as one, so the start is that of the whole run.
#[verifier::external_body]
fn range_at(map: &RangeInclusiveMap<u32, StoredTarget, u32>, code: u32) -> (r: Option<(u32, &StoredTarget)>)
    ensures
        match r {
            Some((start, target)) => {
                &&& range_contents(*map).contains_key(code)
                &&& stored_view(*target) == range_contents(*map)[code]
                &&& start == run_start(range_contents(*map), code)
            },
            None => !range_contents(*map).contains_key(code),
        },
{
    map.get_key_value(&code).map(|(range, target)| (*range.start(), target))
}

/// The stored ranges of a map are the runs of codes with the same target, in order.
pub open spec fn runs_fit(contents: Map<u32, StoredView>, runs: Seq<(u32, u32, StoredView)>) -> bool {
    &&& forall|i: int, code: u32|
        0 <= i < runs.len() && (#[trigger] runs[i]).0 <= code <= runs[i].1 ==> #[trigger] contents.contains_key(code)
            && contents[code] == runs[i].2 && run_start(contents, code) == runs[i].0
    &&& forall|i: int| 0 <= i < runs.len() ==> (#[trigger] runs[i]).0 <= runs[i].1
    &&& forall|i: int, j: int| 0 <= i < j < runs.len() ==> (#[trigger] runs[i]).1 < (#[trigger] runs[j]).0
    &&& forall|code: u32| #[trigger]
        contents.contains_key(code) ==> exists|i: int|
            0 <= i < runs.len() && (#[trigger] runs[i]).0 <= code <= runs[i].1
}

/// The views of stored ranges.
pub open spec fn runs_view(runs: Seq<(u32, u32, &StoredTarget)>) -> Seq<(u32, u32, StoredView)> {
    Seq::new(runs.len(), |i: int| (runs[i].0, runs[i].1, stored_view(*runs[i].2)))
}

/// Calls `RangeInclusiveMap::iter`: the stored ranges in order, each with its
/// target. Ranges that touch and have equal targets are stored as one.
#[verifier::external_body]
fn stored_ranges(map: &RangeInclusiveMap<u32, StoredTarget, u32>) -> (r: Vec<(u32, u32, &StoredTarget)>)
    ensures
        runs_fit(range_contents(*map), runs_view(r@)),
{
    map.iter().map(|(range, target)| (*range.start(), *range.end(), target)).collect()
}

/// What a range of codes maps to, in UTF-16.
#[derive(Debug, Clone, PartialEq, Eq)]
pub enum BfRangeTarget {
    /// The first code maps to this string; each further one adds one to its last unit.
    HexString(Vec<u16>),
    /// A code maps to the single unit that is its sum with this offset, so that
    /// neighbouring ranges can have the same target.
    UTF16CodePoint { offset: u32 },
    /// Each code maps to a string of its own.
    ArrayOfHexStrings(Vec<Vec<u16>>),
}

/// A target as a mathematical value.
pub enum TargetView {
    HexString(Seq<u16>),
    UTF16CodePoint { offset: u32 },
    ArrayOfHexStrings(Seq<Seq<u16>>),
}

const KIND_STRING: u8 = 0;

const KIND_OFFSET: u8 = 1;

const KIND_ARRAY: u8 = 2;

impl BfRangeTarget {
    pub open spec fn view(&self) -> TargetView {
        match self {
            BfRangeTarget::HexString(string) => TargetView::HexString(string@),
            BfRangeTarget::UTF16CodePoint { offset } => TargetView::UTF16CodePoint { offset: *offset },
            BfRangeTarget::ArrayOfHexStrings(strings) => TargetView::ArrayOfHexStrings(strings_view(strings@)),
        }
    }

    /// The target as a range map holds it.
    fn into_stored(self) -> (r: StoredTarget)
        ensures
            stored_view(r) == stored_from(self@),
    {
        let strings: Vec<Vec<u16>> = Vec::new();
        assert(strings_view(strings@) =~= Seq::empty());
        match self {
            BfRangeTarget::HexString(string) => (KIND_STRING, 0, string, strings),
            BfRangeTarget::UTF16CodePoint { offset } => {
                let string: Vec<u16> = Vec::new();
                assert(string@ =~= Seq::empty());
                (KIND_OFFSET, offset, string, strings)
            },
            BfRangeTarget::ArrayOfHexStrings(strings) => {
                let string: Vec<u16> = Vec::new();
                assert(string@ =~= Seq::empty());
                (KIND_ARRAY, 0, string, strings)
            },
        }
    }
}

/// The target as a range map holds it.
pub closed spec fn stored_from(target: TargetView) -> StoredView {
    match target {
        TargetView::HexString(string) => (KIND_STRING, 0, string, Seq::empty()),
        TargetView::UTF16CodePoint { offset } => (KIND_OFFSET, offset, Seq::empty(), Seq::empty()),
        TargetView::ArrayOfHexStrings(strings) => (KIND_ARRAY, 0, Seq::empty(), strings),
    }
}

/// The target that a range map holds.
pub closed spec fn target_from(stored: StoredView) -> TargetView {
    if stored.0 == KIND_OFFSET {
        TargetView::UTF16CodePoint { offset: stored.1 }
    } else if stored.0 == KIND_STRING {
        TargetView::HexString(stored.2)
    } else {
        TargetView::ArrayOfHexStrings(stored.3)
    }
}

/// A range map holds targets so that they can be told apart.
pub proof fn law_targets_are_held_apart(target: TargetView, other: TargetView)
    ensures
        target_from(stored_from(target)) == target,
        stored_from(target) == stored_from(other) ==> target == other,
{
}

/// The low sixteen bits of a number.
pub open spec fn low16(value: int) -> u16 {
    (value % 65536) as u16
}

/// A string with its last unit raised.
pub open spec fn raised(string: Seq<u16>, by: u16) -> Seq<u16> {
    string.update(string.len() - 1, low16(string.last() + by))
}

pub const REPLACEMENT_CHAR: u16 = 0xfffd;

/// What a code that stands `distance` behind the start of its run maps to.
pub open spec fn mapped(target: TargetView, code: u32, distance: u32) -> Seq<u16> {
    match target {
        TargetView::HexString(string) => raised(string, low16(distance as int)),
        TargetView::UTF16CodePoint { offset } => seq![low16(code + offset)],
        TargetView::ArrayOfHexStrings(strings) => if distance < strings.len() {
            strings[distance as int]
        } else {
            seq![REPLACEMENT_CHAR]
        },
    }
}

/// A code that stands `distance` behind the start of its run maps to something:
/// a string has a last unit, and it can be raised that far.
pub open spec fn mappable(target: TargetView, distance: u32) -> bool {
    match target {
        TargetView::HexString(string) => string.len() > 0 && string.last() + low16(distance as int) <= u16::MAX,
        _ => true,
    }
}

/// How far behind the start of its run a code stands.
pub open spec fn distance(contents: Map<u32, StoredView>, code: u32) -> u32 {
    (code - run_start(contents, code)) as u32
}

/// What a code maps to.
pub open spec fn code_value(contents: Map<u32, StoredView>, code: u32) -> Option<Seq<u16>> {
    if contents.contains_key(code) {
        Some(mapped(target_from(contents[code]), code, distance(contents, code)))
    } else {
        None
    }
}

/// What a code maps to can be worked out.
pub open spec fn code_mappable(contents: Map<u32, StoredView>, code: u32) -> bool {
    contents.contains_key(code) ==> mappable(target_from(contents[code]), distance(contents, code))
}

proof fn lemma_run_start(contents: Map<u32, StoredView>, code: u32)
    ensures
        run_start(contents, code) <= code,
    decreases code,
{
    if code > 0 && contents.contains_key((code - 1) as u32) && contents[(code - 1) as u32] == contents[code] {
        lemma_run_start(contents, (code - 1) as u32);
    }
}

/// Where a Unicode string comes from.
#[derive(Debug, Clone, PartialEq, Eq, Hash)]
pub struct ReverseCMapEntry {
    pub source_code: SourceCode,
    pub code_len: CodeLen,
}

/// Why a map could not be read.
#[derive(Debug, Clone, Copy, PartialEq, Eq)]
pub enum CMapParseError {
    Incomplete,
    Error,
}

/// Why a map could not be built.
#[derive(Debug, Clone, Copy, PartialEq, Eq)]
pub enum UnicodeCMapError {
    Parse(CMapParseError),
    InvalidCodeRange,
}

impl From<CMapParseError> for UnicodeCMapError {
    fn from(error: CMapParseError) -> (r: Self) {
        UnicodeCMapError::Parse(error)
    }
}

impl vstd::std_specs::convert::FromSpecImpl<CMapParseError> for UnicodeCMapError {
    open spec fn obeys_from_spec() -> bool {
        true
    }

    open spec fn from_spec(error: CMapParseError) -> Self {
        UnicodeCMapError::Parse(error)
    }
}

/// A section of a map's text.
#[derive(Debug, Clone, PartialEq, Eq)]
pub enum CMapSection {
    /// The codes that there are.
    CsRange(Vec<(SourceCode, SourceCode, CodeLen)>),
    /// Single codes and what they map to.
    BfChar(Vec<((SourceCode, CodeLen), Vec<u16>)>),
    /// Ranges of codes and what they map to.
    BfRange(Vec<((SourceCode, SourceCode, CodeLen), Vec<Vec<u16>>)>),
}

/// A map from character codes to Unicode. Codes of different lengths are kept
/// apart: one of two bytes is never taken for one of a single byte with the same
/// value.
pub struct ToUnicodeCMap {
    pub bf_ranges: [RangeInclusiveMap<SourceCode, StoredTarget, u32>; 4],
    reverse_map: Option<ReverseMap>,
}

/// What the codes of each length map to.
pub type ForwardView = Seq<Map<u32, StoredView>>;

/// What the codes of each length map to after a range has been given a target.
/// Codes are one to four bytes long; others are ignored.
pub open spec fn put_in(forward: ForwardView, low: u32, high: u32, code_len: u8, target: TargetView) -> ForwardView {
    if 1 <= code_len <= 4 {
        forward.update(
            code_len - 1,
            overwritten(forward[code_len - 1], low, high, stored_from(target)),
        )
    } else {
        forward
    }
}

/// The offset that leads from a code to a unit.
pub open spec fn offset_to(unit: u16, code: u32) -> u32 {
    ((unit - code) % 0x1_0000_0000) as u32
}

/// What a single code's string is held as.
pub open spec fn char_target(code: u32, string: Seq<u16>) -> TargetView {
    if string.len() == 1 {
        TargetView::UTF16CodePoint { offset: offset_to(string[0], code) }
    } else {
        TargetView::HexString(string)
    }
}

impl ToUnicodeCMap {
    /// What the codes of each length map to.
    pub closed spec fn forward(&self) -> ForwardView {
        Seq::new(4, |i: int| range_contents(self.bf_ranges@[i]))
    }

    /// A map has contents for each of the four lengths of a code.
    pub proof fn law_there_are_four_lengths(&self)
        ensures
            self.forward().len() == 4,
    {
    }

    /// A map without codes.
    pub fn new() -> (cmap: Self)
        ensures
            cmap.forward() == empty_forward(),
            !cmap.has_reverse(),
            cmap.strings() == Seq::<StringCodesView>::empty(),
    {
        let cmap = ToUnicodeCMap {
            bf_ranges: [new_ranges(), new_ranges(), new_ranges(), new_ranges()],
            reverse_map: None,
        };
        assert(cmap.forward() =~= empty_forward());
        cmap
    }

    /// The map can be asked for the codes of a string.
    pub closed spec fn has_reverse(&self) -> bool {
        self.reverse_map is Some
    }

    /// The start of the run that a code belongs to, and the run's target.
    fn lookup(&self, code: SourceCode, code_len: CodeLen) -> (r: Option<(u32, &StoredTarget)>)
        requires
            1 <= code_len <= 4,
        ensures
            match r {
                Some((start, target)) => {
                    &&& self.forward()[code_len - 1].contains_key(code)
                    &&& stored_view(*target) == self.forward()[code_len - 1][code]
                    &&& start == run_start(self.forward()[code_len - 1], code)
                    &&& start <= code
                },
                None => !self.forward()[code_len - 1].contains_key(code),
            },
    {
        proof {
            lemma_run_start(self.forward()[code_len - 1], code);
        }
        range_at(&self.bf_ranges[(code_len - 1) as usize], code)
    }

    /// What a code of this length maps to.
    pub fn get(&self, code: SourceCode, code_len: CodeLen) -> (r: Option<Vec<u16>>)
        requires
            1 <= code_len <= 4 ==> code_mappable(self.forward()[code_len - 1], code),
        ensures
            string_view(r) == (if 1 <= code_len <= 4 {
                code_value(self.forward()[code_len - 1], code)
            } else {
                None
            }),
    {
        if code_len > 4 || code_len == 0 {
            return None;
        }
        match self.lookup(code, code_len) {
            Some((start, target)) => Some(map_code(target, code, code - start)),
            None => None,
        }
    }

    /// What a code of this length maps to, unless that cannot be worked out.
    pub fn checked_get(&self, code: SourceCode, code_len: CodeLen) -> (r: Result<Option<Vec<u16>>, UnmappableCode>)
        ensures
            match r {
                Ok(value) => {
                    &&& 1 <= code_len <= 4 ==> code_mappable(self.forward()[code_len - 1], code)
                    &&& string_view(value) == (if 1 <= code_len <= 4 {
                        code_value(self.forward()[code_len - 1], code)
                    } else {
                        None
                    })
                },
                Err(_) => 1 <= code_len <= 4 && !code_mappable(self.forward()[code_len - 1], code),
            },
    {
        if code_len <= 4 && code_len > 0 {
            if let Some((start, target)) = self.lookup(code, code_len) {
                if !is_mappable(target, code - start) {
                    return Err(UnmappableCode);
                }
            }
        }
        Ok(self.get(code, code_len))
    }

    /// What a code of this length maps to, else the replacement character.
    pub fn get_or_replacement_char(&self, code: SourceCode, code_len: CodeLen) -> (r: Vec<u16>)
        requires
            1 <= code_len <= 4 ==> code_mappable(self.forward()[code_len - 1], code),
        ensures
            r@ == (if 1 <= code_len <= 4 && self.forward()[code_len - 1].contains_key(code) {
                code_value(self.forward()[code_len - 1], code)->Some_0
            } else {
                seq![REPLACEMENT_CHAR]
            }),
    {
        match self.get(code, code_len) {
            Some(string) => string,
            None => {
                let mut string: Vec<u16> = Vec::new();
                string.push(REPLACEMENT_CHAR);
                assert(string@ =~= seq![REPLACEMENT_CHAR]);
                string
            },
        }
    }

    /// Gives a range of codes a target. Codes are one to four bytes long; others
    /// are ignored.
    pub fn put(&mut self, src_code_lo: SourceCode, src_code_hi: SourceCode, code_len: CodeLen, target: BfRangeTarget)
        requires
            1 <= code_len <= 4 ==> src_code_lo <= src_code_hi,
        ensures
            final(self).forward() == put_in(old(self).forward(), src_code_lo, src_code_hi, code_len, target@),
            final(self).same_reverse(*old(self)),
    {
        if code_len > 4 || code_len == 0 {
            return;
        }
        let stored: StoredTarget = target.into_stored();
        insert_range(&mut self.bf_ranges[(code_len - 1) as usize], src_code_lo, src_code_hi, stored);
        assert(self.forward() =~= put_in(old(self).forward(), src_code_lo, src_code_hi, code_len, target@));
    }

    /// The strings that the map can be asked for, each with its codes.
    pub closed spec fn strings(&self) -> Seq<StringCodesView> {
        match self.reverse_map {
            Some(map) => map.table@,
            None => Seq::empty(),
        }
    }

    /// The answers for strings are the same.
    pub open spec fn same_reverse(&self, other: Self) -> bool {
        self.has_reverse() == other.has_reverse() && self.strings() == other.strings()
    }

    /// The codes that a string comes from, in order of their length and then of
    /// their value.
    pub fn get_source_codes_for_unicode(&self, unicode_sequence: &[u16]) -> (r: Option<&[ReverseCMapEntry]>)
        ensures
            entries_view(r) == codes_among(self.strings(), unicode_sequence@),
    {
        match &self.reverse_map {
            Some(map) => {
                proof {
                    use_type_invariant(map);
                }
                map.table.get(unicode_sequence)
            },
            None => None,
        }
    }

    /// Gives a single code a string.
    pub fn put_char(&mut self, code: SourceCode, code_len: CodeLen, dst: Vec<u16>)
        ensures
            final(self).forward() == put_in(old(self).forward(), code, code, code_len, char_target(code, dst@)),
            final(self).same_reverse(*old(self)),
    {
        let target: BfRangeTarget = if dst.len() == 1 {
            BfRangeTarget::UTF16CodePoint { offset: offset_from(dst[0], code) }
        } else {
            BfRangeTarget::HexString(dst)
        };
        self.put(code, code, code_len, target)
    }
}

/// A string cannot be raised far enough.
#[derive(Debug, Clone, Copy, PartialEq, Eq)]
pub struct UnmappableCode;

/// The view of a string.
pub open spec fn string_view(string: Option<Vec<u16>>) -> Option<Seq<u16>> {
    match string {
        Some(string) => Some(string@),
        None => None,
    }
}

/// The offset that leads from a code to a unit.
fn offset_from(unit: u16, code: u32) -> (r: u32)
    ensures
        r == offset_to(unit, code),
{
    (unit as u32).wrapping_sub(code)
}

fn copy_units(units: &Vec<u16>) -> (r: Vec<u16>)
    ensures
        r@ == units@,
{
    let mut copy: Vec<u16> = Vec::new();
    let mut index: usize = 0;
    while index < units.len()
        invariant
            index <= units@.len(),
            copy@ == units@.take(index as int),
        decreases units@.len() - index,
    {
        copy.push(units[index]);
        assert(units@.take(index + 1) =~= units@.take(index as int).push(units@[index as int]));
        index += 1;
    }
    assert(units@.take(units@.len() as int) =~= units@);
    copy
}

/// The sum of a code and an offset, as one unit.
fn offset_unit(code: u32, offset: u32) -> (r: u16)
    ensures
        r == low16(code + offset),
{
    let sum: u32 = code.wrapping_add(offset);
    (sum % 65536) as u16
}

/// Reports whether a code that stands `distance` behind the start of its run
/// maps to something.
fn is_mappable(target: &StoredTarget, distance: u32) -> (r: bool)
    ensures
        r == mappable(target_from(stored_view(*target)), distance),
{
    if target.0 == KIND_STRING {
        let string: &Vec<u16> = &target.2;
        let length: usize = string.len();
        length > 0 && string[length - 1] as u32 + distance % 65536 <= 65535
    } else {
        true
    }
}

/// What a code that stands `distance` behind the start of its run maps to.
fn map_code(target: &StoredTarget, code: u32, distance: u32) -> (r: Vec<u16>)
    requires
        mappable(target_from(stored_view(*target)), distance),
    ensures
        r@ == mapped(target_from(stored_view(*target)), code, distance),
{
    let ghost shown = stored_view(*target);
    if target.0 == KIND_OFFSET {
        let mut string: Vec<u16> = Vec::new();
        string.push(offset_unit(code, target.1));
        assert(string@ =~= seq![low16(code + target.1)]);
        string
    } else if target.0 == KIND_STRING {
        let mut string: Vec<u16> = copy_units(&target.2);
        let last: usize = string.len() - 1;
        let unit: u16 = string[last] + (distance % 65536) as u16;
        string.set(last, unit);
        assert(string@ =~= raised(shown.2, low16(distance as int)));
        string
    } else if (distance as u64) < target.3.len() as u64 {
        assert(shown.3[distance as int] == target.3@[distance as int]@);
        copy_units(&target.3[distance as usize])
    } else {
        let mut string: Vec<u16> = Vec::new();
        string.push(REPLACEMENT_CHAR);
        assert(string@ =~= seq![REPLACEMENT_CHAR]);
        string
    }
}

/// A single code that is given one unit gives it back, and the codes of other
/// lengths stay what they were.
pub proof fn law_unit_is_given_back(forward: ForwardView, code: u32, code_len: u8, unit: u16)
    requires
        forward.len() == 4,
        1 <= code_len <= 4,
    ensures
        code_value(
            put_in(forward, code, code, code_len, char_target(code, seq![unit]))[code_len - 1],
            code,
        ) == Some(seq![unit]),
        code_mappable(put_in(forward, code, code, code_len, char_target(code, seq![unit]))[code_len - 1], code),
        forall|other: int|
            0 <= other < 4 && other != code_len - 1 ==> #[trigger] put_in(
                forward,
                code,
                code,
                code_len,
                char_target(code, seq![unit]),
            )[other] == forward[other],
{
    assert(low16(code + offset_to(unit, code)) == unit);
    assert(seq![low16(code + offset_to(unit, code))] =~= seq![unit]);
}

/// Every code maps to a unit.
pub open spec fn unit_targets(forward: ForwardView) -> bool {
    forall|length: int, code: u32|
        0 <= length < 4 && #[trigger] forward[length].contains_key(code) ==> target_from(
            forward[length][code],
        ) is UTF16CodePoint
}

/// Where every code maps to a unit, giving a single code another leaves what the
/// others map to as it was, and still every code maps to a unit.
pub proof fn law_unit_leaves_the_others(
    forward: ForwardView,
    code: u32,
    code_len: u8,
    unit: u16,
    other: u32,
    other_len: u8,
)
    requires
        forward.len() == 4,
        unit_targets(forward),
        1 <= code_len <= 4,
        1 <= other_len <= 4,
    ensures
        ({
            let after = put_in(forward, code, code, code_len, char_target(code, seq![unit]));
            &&& unit_targets(after)
            &&& code_mappable(after[other_len - 1], other)
            &&& code_value(after[other_len - 1], other) == if other == code && other_len == code_len {
                Some(seq![unit])
            } else {
                code_value(forward[other_len - 1], other)
            }
        }),
{
    let after = put_in(forward, code, code, code_len, char_target(code, seq![unit]));
    law_unit_is_given_back(forward, code, code_len, unit);
    assert forall|length: int, held: u32| 0 <= length < 4 && #[trigger] after[length].contains_key(
        held,
    ) implies target_from(after[length][held]) is UTF16CodePoint by {
        if length == code_len - 1 && held == code {
            assert(seq![unit].len() == 1);
        } else {
            assert(forward[length].contains_key(held));
        }
    }
    if !(other == code && other_len == code_len) && forward[other_len - 1].contains_key(other) {
        assert(after[other_len - 1].contains_key(other));
        assert(after[other_len - 1][other] == forward[other_len - 1][other]);
    }
}

/// A single code that is given a longer string gives it back, unless the code
/// before it has the same string: then the two are one run.
pub proof fn law_string_is_given_back(forward: ForwardView, code: u32, code_len: u8, string: Seq<u16>)
    requires
        forward.len() == 4,
        1 <= code_len <= 4,
        string.len() > 1,
        code > 0 && forward[code_len - 1].contains_key((code - 1) as u32) ==> target_from(
            forward[code_len - 1][(code - 1) as u32],
        ) != TargetView::HexString(string),
    ensures
        code_value(put_in(forward, code, code, code_len, char_target(code, string))[code_len - 1], code) == Some(
            string,
        ),
{
    let after = put_in(forward, code, code, code_len, char_target(code, string))[code_len - 1];
    assert(run_start(after, code) == code);
    assert(raised(string, 0) =~= string);
}

/// A code of no length that codes have changes nothing.
pub proof fn law_wrong_length_is_ignored(forward: ForwardView, low: u32, high: u32, code_len: u8, target: TargetView)
    requires
        code_len == 0 || code_len > 4,
    ensures
        put_in(forward, low, high, code_len, target) == forward,
{
}

/// A string and the codes that it comes from.
type StringCodes = (Vec<u16>, Vec<ReverseCMapEntry>);

/// A string and the codes that it comes from, as mathematical values.
pub type StringCodesView = (Seq<u16>, Seq<ReverseCMapEntry>);

/// The codes that a string comes from, among those that are listed.
pub open spec fn codes_among(strings: Seq<StringCodesView>, string: Seq<u16>) -> Option<Seq<ReverseCMapEntry>>
    decreases strings.len(),
{
    if strings.len() == 0 {
        None
    } else if strings.last().0 == string {
        Some(strings.last().1)
    } else {
        codes_among(strings.drop_last(), string)
    }
}

proof fn lemma_codes_among(strings: Seq<StringCodesView>, string: Seq<u16>)
    ensures
        codes_among(strings, string) is None ==> forall|i: int|
            0 <= i < strings.len() ==> (#[trigger] strings[i]).0 != string,
        forall|i: int|
            0 <= i < strings.len() && (#[trigger] strings[i]).0 == string && distinct(strings) ==> codes_among(
                strings,
                string,
            ) == Some(strings[i].1),
        (forall|i: int| 0 <= i < strings.len() ==> (#[trigger] strings[i]).0 != string) ==> codes_among(
            strings,
            string,
        ) is None,
    decreases strings.len(),
{
    if strings.len() > 0 {
        let rest = strings.drop_last();
        lemma_codes_among(rest, string);
        assert forall|i: int| 0 <= i < strings.len() && (#[trigger] strings[i]).0 == string && distinct(
            strings,
        ) implies codes_among(strings, string) == Some(strings[i].1) by {
            if i < rest.len() {
                assert(rest[i] == strings[i]);
                assert(distinct(rest));
                assert(strings[i].0 != strings[strings.len() - 1].0);
            }
        }
        assert forall|i: int| 0 <= i < strings.len() && codes_among(strings, string) is None implies (
        #[trigger] strings[i]).0 != string by {
            if i < rest.len() {
                assert(rest[i] == strings[i]);
            }
        }
        if forall|i: int| 0 <= i < strings.len() ==> (#[trigger] strings[i]).0 != string {
            assert forall|i: int| 0 <= i < rest.len() implies (#[trigger] rest[i]).0 != string by {
                assert(rest[i] == strings[i]);
            }
        }
    }
}

/// No string is listed twice.
pub open spec fn distinct(strings: Seq<StringCodesView>) -> bool {
    forall|i: int, j: int| 0 <= i < j < strings.len() ==> (#[trigger] strings[i]).0 != (#[trigger] strings[j]).0
}

/// Strings and the codes that they come from, with buckets to find a string by.
struct StringTable {
    strings: Vec<StringCodes>,
    buckets: BTreeMap<u64, Vec<usize>>,
}

/// A table of strings that can be asked for.
struct ReverseMap {
    table: StringTable,
}

impl ReverseMap {
    #[verifier::type_invariant]
    spec fn well_formed(self) -> bool {
        self.table.well_formed()
    }
}

/// A unit of a string, or zero behind its end.
spec fn unit_at(string: Seq<u16>, index: int) -> int {
    if index < string.len() {
        string[index] as int
    } else {
        0
    }
}

/// The bucket that a string belongs to.
spec fn bucket_of(string: Seq<u16>) -> u64 {
    (unit_at(string, 0) + 65536 * unit_at(string, 1) + 4294967296 * unit_at(string, 2)) as u64
}

fn units_equal(left: &[u16], right: &[u16]) -> (r: bool)
    ensures
        r == (left@ == right@),
{
    if left.len() != right.len() {
        return false;
    }
    let mut index: usize = 0;
    while index < left.len()
        invariant
            index <= left@.len() == right@.len(),
            forall|i: int| 0 <= i < index ==> left@[i] == right@[i],
        decreases left@.len() - index,
    {
        if left[index] != right[index] {
            return false;
        }
        index += 1;
    }
    assert(left@ =~= right@);
    true
}

fn bucket_for(string: &[u16]) -> (r: u64)
    ensures
        r == bucket_of(string@),
{
    let length: usize = string.len();
    let first: u64 = if length > 0 {
        string[0] as u64
    } else {
        0
    };
    let second: u64 = if length > 1 {
        string[1] as u64
    } else {
        0
    };
    let third: u64 = if length > 2 {
        string[2] as u64
    } else {
        0
    };
    first + 65536 * second + 4294967296 * third
}

impl StringTable {
    spec fn view(&self) -> Seq<StringCodesView> {
        Seq::new(self.strings@.len(), |i: int| (self.strings@[i].0@, self.strings@[i].1@))
    }

    /// Every string is listed in its bucket, and no string is listed twice.
    spec fn well_formed(&self) -> bool {
        &&& distinct(self@)
        &&& forall|key: u64, i: int|
            self.buckets@.contains_key(key) && 0 <= i < self.buckets@[key]@.len() ==> #[trigger] self.buckets@[key]@[i]
                < self.strings@.len()
        &&& forall|place: int| #![trigger self.strings@[place]]
            0 <= place < self.strings@.len() ==> self.buckets@.contains_key(bucket_of(self.strings@[place].0@))
                && self.buckets@[bucket_of(self.strings@[place].0@)]@.contains(place as usize)
    }

    fn new() -> (map: Self)
        ensures
            map.well_formed(),
            map@ == Seq::<StringCodesView>::empty(),
    {
        let map = StringTable { strings: Vec::new(), buckets: BTreeMap::new() };
        assert(map@ =~= Seq::empty());
        map
    }

    /// Where a string is listed.
    fn place(&self, string: &[u16]) -> (r: Option<usize>)
        requires
            self.well_formed(),
        ensures
            match r {
                Some(place) => place < self.strings@.len() && self.strings@[place as int].0@ == string@,
                None => forall|i: int| 0 <= i < self@.len() ==> (#[trigger] self@[i]).0 != string@,
            },
    {
        match self.buckets.get(&bucket_for(string)) {
            Some(bucket) => {
                let mut index: usize = 0;
                while index < bucket.len()
                    invariant
                        index <= bucket@.len(),
                        self.well_formed(),
                        self.buckets@.contains_key(bucket_of(string@)),
                        *bucket == self.buckets@[bucket_of(string@)],
                        forall|i: int|
                            0 <= i < index ==> self.strings@[#[trigger] bucket@[i] as int].0@ != string@,
                    decreases bucket@.len() - index,
                {
                    let place: usize = bucket[index];
                    assert(self.buckets@[bucket_of(string@)]@[index as int] < self.strings@.len());
                    if units_equal(self.strings[place].0.as_slice(), string) {
                        return Some(place);
                    }
                    index += 1;
                }
                proof {
                    assert forall|i: int| 0 <= i < self@.len() implies (#[trigger] self@[i]).0 != string@ by {
                        let listed = self.strings@[i];
                        if listed.0@ == string@ {
                            assert(bucket@.contains(i as usize));
                            let at = choose|at: int| 0 <= at < bucket@.len() && bucket@[at] == i as usize;
                            assert(i < self.strings.len());
                            assert(self.strings@[bucket@[at] as int].0@ != string@);
                        }
                    }
                }
                None
            },
            None => {
                proof {
                    assert forall|i: int| 0 <= i < self@.len() implies (#[trigger] self@[i]).0 != string@ by {
                        assert(self.buckets@.contains_key(bucket_of(self.strings@[i].0@)));
                    }
                }
                None
            },
        }
    }

    fn get(&self, string: &[u16]) -> (r: Option<&[ReverseCMapEntry]>)
        requires
            self.well_formed(),
        ensures
            entries_view(r) == codes_among(self@, string@),
    {
        proof {
            lemma_codes_among(self@, string@);
        }
        match self.place(string) {
            Some(place) => {
                assert(self@[place as int].0 == string@);
                Some(self.strings[place].1.as_slice())
            },
            None => None,
        }
    }

    /// Notes one more code that a string comes from.
    fn note(&mut self, string: Vec<u16>, entry: ReverseCMapEntry)
        requires
            old(self).well_formed(),
        ensures
            final(self).well_formed(),
            forall|other: Seq<u16>| #[trigger]
                codes_among(final(self)@, other) == (if other == string@ {
                    Some(
                        match codes_among(old(self)@, other) {
                            Some(codes) => codes.push(entry),
                            None => seq![entry],
                        },
                    )
                } else {
                    codes_among(old(self)@, other)
                }),
    {
        let ghost before = *self;
        let ghost target = string@;
        match self.place(string.as_slice()) {
            Some(place) => {
                self.strings[place].1.push(entry);
                proof {
                    assert(self.well_formed()) by {
                        assert forall|i: int, j: int| 0 <= i < j < self@.len() implies (#[trigger] self@[i]).0 != (
                        #[trigger] self@[j]).0 by {
                            assert(before@[i].0 != before@[j].0);
                        }
                        assert forall|i: int| #![trigger self.strings@[i]] 0 <= i < self.strings@.len() implies {
                            &&& self.buckets@.contains_key(bucket_of(self.strings@[i].0@))
                            &&& self.buckets@[bucket_of(self.strings@[i].0@)]@.contains(i as usize)
                        } by {
                            assert(before.strings@[i].0@ == self.strings@[i].0@);
                        }
                    }
                    assert forall|other: Seq<u16>| #[trigger] codes_among(self@, other) == (if other == target {
                        Some(codes_among(before@, other)->Some_0.push(entry))
                    } else {
                        codes_among(before@, other)
                    }) by {
                        lemma_codes_among(self@, other);
                        lemma_codes_among(before@, other);
                        assert(before@[place as int].0 == target);
                        assert(self@[place as int] == (target, before@[place as int].1.push(entry)));
                        if other != target {
                            if let Some(codes) = codes_among(before@, other) {
                                assert(exists|i: int| 0 <= i < before@.len() && (#[trigger] before@[i]).0 == other);
                                let i = choose|i: int| 0 <= i < before@.len() && (#[trigger] before@[i]).0 == other;
                                assert(self@[i] == before@[i]);
                            } else {
                                assert forall|i: int| 0 <= i < self@.len() implies (#[trigger] self@[i]).0
                                    != other by {
                                    assert(before@[i].0 == self@[i].0);
                                }
                            }
                        }
                    }
                    lemma_codes_among(before@, target);
                    assert(before@[place as int].0 == target);
                }
            },
            None => {
                let place: usize = self.strings.len();
                let key: u64 = bucket_for(string.as_slice());
                let mut bucket: Vec<usize> = match self.buckets.remove(&key) {
                    Some(bucket) => bucket,
                    None => Vec::new(),
                };
                let ghost held = bucket@;
                bucket.push(place);
                let ghost grown = bucket@;
                self.buckets.insert(key, bucket);
                let mut entries: Vec<ReverseCMapEntry> = Vec::new();
                entries.push(entry);
                assert(entries@ =~= seq![entry]);
                self.strings.push((string, entries));
                proof {
                    assert(self@ =~= before@.push((target, seq![entry])));
                    assert(self@.drop_last() =~= before@);
                    lemma_codes_among(before@, target);
                    assert(self.well_formed()) by {
                        assert(grown == held.push(place));
                        assert(grown[held.len() as int] == place);
                        assert forall|i: int| #![trigger self.strings@[i]] 0 <= i < self.strings@.len() implies {
                            &&& self.buckets@.contains_key(bucket_of(self.strings@[i].0@))
                            &&& self.buckets@[bucket_of(self.strings@[i].0@)]@.contains(i as usize)
                        } by {
                            if i < before.strings@.len() {
                                assert(before.strings@[i] == self.strings@[i]);
                                let own = bucket_of(before.strings@[i].0@);
                                let listed = before.buckets@[own]@;
                                let at = choose|at: int| 0 <= at < listed.len() && listed[at] == i as usize;
                                assert(listed[at] == i as usize);
                                if own == key {
                                    assert(held == listed);
                                    assert(grown[at] == i as usize);
                                }
                            }
                        }
                        assert forall|k: u64, i: int|
                            self.buckets@.contains_key(k) && 0 <= i < self.buckets@[k]@.len() implies
                            #[trigger] self.buckets@[k]@[i] < self.strings@.len() by {
                            if k == key {
                                if i < held.len() {
                                    assert(before.buckets@[key]@[i] < before.strings@.len());
                                }
                            } else {
                                assert(before.buckets@[k]@[i] < before.strings@.len());
                            }
                        }
                    }
                }
            },
        }
    }
}

/// The view of a string's codes.
pub open spec fn entries_view(entries: Option<&[ReverseCMapEntry]>) -> Option<Seq<ReverseCMapEntry>> {
    match entries {
        Some(entries) => Some(entries@),
        None => None,
    }
}

/// The string that a code which stands `distance` behind the start of its run is
/// noted for, if any.
pub open spec fn noted_string(target: TargetView, code: u32, distance: u32) -> Option<Seq<u16>> {
    match target {
        TargetView::HexString(string) => if string.len() > 0 {
            Some(raised(string, low16(distance as int)))
        } else {
            None
        },
        TargetView::UTF16CodePoint { offset } => Some(seq![low16(code + offset)]),
        TargetView::ArrayOfHexStrings(strings) => if distance < strings.len() && strings[distance as int].len() > 0 {
            Some(strings[distance as int])
        } else {
            None
        },
    }
}

/// The code is one that the string comes from.
pub open spec fn comes_from(contents: Map<u32, StoredView>, code: u32, string: Seq<u16>) -> bool {
    contents.contains_key(code) && noted_string(target_from(contents[code]), code, distance(contents, code)) == Some(
        string,
    )
}

/// The codes of one length below a limit that a string comes from, in order.
pub open spec fn codes_below(contents: Map<u32, StoredView>, code_len: u8, string: Seq<u16>, limit: int) -> Seq<
    ReverseCMapEntry,
>
    decreases limit,
{
    if limit <= 0 {
        Seq::empty()
    } else {
        let rest = codes_below(contents, code_len, string, limit - 1);
        let code = (limit - 1) as u32;
        if comes_from(contents, code, string) {
            rest.push(ReverseCMapEntry { source_code: code, code_len })
        } else {
            rest
        }
    }
}

pub const CODE_COUNT: u64 = 0x1_0000_0000;

/// The codes of the first few lengths that a string comes from, the shorter ones
/// before the longer ones and each length in order.
pub open spec fn codes_of(forward: ForwardView, string: Seq<u16>, lengths: int) -> Seq<ReverseCMapEntry>
    decreases lengths,
{
    if lengths <= 0 {
        Seq::empty()
    } else {
        codes_of(forward, string, lengths - 1) + codes_below(
            forward[lengths - 1],
            lengths as u8,
            string,
            CODE_COUNT as int,
        )
    }
}

/// Some codes, unless there are none.
pub open spec fn unless_none(codes: Seq<ReverseCMapEntry>) -> Option<Seq<ReverseCMapEntry>> {
    if codes.len() > 0 {
        Some(codes)
    } else {
        None
    }
}

/// Codes that map to nothing are noted for no string.
proof fn lemma_gap(contents: Map<u32, StoredView>, code_len: u8, string: Seq<u16>, from: int, to: int)
    requires
        0 <= from <= to <= CODE_COUNT,
        forall|code: u32| from <= code < to ==> !#[trigger] contents.contains_key(code),
    ensures
        codes_below(contents, code_len, string, from) == codes_below(contents, code_len, string, to),
    decreases to - from,
{
    if from < to {
        lemma_gap(contents, code_len, string, from, to - 1);
        assert(!contents.contains_key((to - 1) as u32));
    }
}

/// What the strings of single codes make of a map.
pub open spec fn chars_put(forward: ForwardView, chars: Seq<((SourceCode, CodeLen), Vec<u16>)>, from: int) -> ForwardView
    decreases chars.len() - from,
{
    if from >= chars.len() {
        forward
    } else {
        let ((code, code_len), string) = chars[from];
        chars_put(put_in(forward, code, code, code_len, char_target(code, string@)), chars, from + 1)
    }
}

/// What the strings of a range are held as.
pub open spec fn range_target(start: u32, strings: Seq<Seq<u16>>) -> TargetView {
    if strings.len() == 1 {
        if strings[0].len() == 1 {
            TargetView::UTF16CodePoint { offset: offset_to(strings[0][0], start) }
        } else {
            TargetView::HexString(strings[0])
        }
    } else {
        TargetView::ArrayOfHexStrings(strings)
    }
}

/// What ranges of codes make of a map, unless one of them ends before it starts or
/// has no string.
pub open spec fn ranges_put(
    forward: ForwardView,
    ranges: Seq<((SourceCode, SourceCode, CodeLen), Vec<Vec<u16>>)>,
    from: int,
) -> Option<ForwardView>
    decreases ranges.len() - from,
{
    if from >= ranges.len() {
        Some(forward)
    } else {
        let ((start, end, code_len), strings) = ranges[from];
        if end < start || strings@.len() == 0 {
            None
        } else {
            ranges_put(
                put_in(forward, start, end, code_len, range_target(start, strings_view(strings@))),
                ranges,
                from + 1,
            )
        }
    }
}

/// What sections make of a map.
pub open spec fn sections_put(forward: ForwardView, sections: Seq<CMapSection>, from: int) -> Option<ForwardView>
    decreases sections.len() - from,
{
    if from >= sections.len() {
        Some(forward)
    } else {
        match sections[from] {
            CMapSection::CsRange(_) => sections_put(forward, sections, from + 1),
            CMapSection::BfChar(chars) => sections_put(chars_put(forward, chars@, 0), sections, from + 1),
            CMapSection::BfRange(ranges) => match ranges_put(forward, ranges@, 0) {
                Some(further) => sections_put(further, sections, from + 1),
                None => None,
            },
        }
    }
}

/// A map without codes.
pub open spec fn empty_forward() -> ForwardView {
    seq![no_codes(), no_codes(), no_codes(), no_codes()]
}

/// The string that a code is noted for, if any.
fn note_of(target: &StoredTarget, code: u32, distance: u32) -> (r: Option<Vec<u16>>)
    ensures
        string_view(r) == noted_string(target_from(stored_view(*target)), code, distance),
{
    let ghost shown = stored_view(*target);
    if target.0 == KIND_OFFSET {
        let mut string: Vec<u16> = Vec::new();
        string.push(offset_unit(code, target.1));
        assert(string@ =~= seq![low16(code + target.1)]);
        Some(string)
    } else if target.0 == KIND_STRING {
        if target.2.len() == 0 {
            return None;
        }
        let mut string: Vec<u16> = copy_units(&target.2);
        let last: usize = string.len() - 1;
        let unit: u16 = string[last].wrapping_add((distance % 65536) as u16);
        string.set(last, unit);
        assert(string@ =~= raised(shown.2, low16(distance as int)));
        Some(string)
    } else if (distance as u64) < target.3.len() as u64 {
        assert(shown.3[distance as int] == target.3@[distance as int]@);
        if target.3[distance as usize].len() == 0 {
            None
        } else {
            Some(copy_units(&target.3[distance as usize]))
        }
    } else {
        None
    }
}

fn copy_strings(strings: &Vec<Vec<u16>>) -> (r: Vec<Vec<u16>>)
    ensures
        strings_view(r@) == strings_view(strings@),
{
    let mut copy: Vec<Vec<u16>> = Vec::new();
    let mut index: usize = 0;
    while index < strings.len()
        invariant
            index <= strings@.len(),
            copy@.len() == index,
            forall|i: int| 0 <= i < index ==> (#[trigger] copy@[i])@ == strings@[i]@,
        decreases strings@.len() - index,
    {
        copy.push(copy_units(&strings[index]));
        index += 1;
    }
    assert(strings_view(copy@) =~= strings_view(strings@));
    copy
}

impl ToUnicodeCMap {
    fn put_chars(&mut self, chars: &Vec<((SourceCode, CodeLen), Vec<u16>)>)
        ensures
            final(self).forward() == chars_put(old(self).forward(), chars@, 0),
            final(self).same_reverse(*old(self)),
    {
        let mut index: usize = 0;
        while index < chars.len()
            invariant
                index <= chars@.len(),
                chars_put(old(self).forward(), chars@, 0) == chars_put(self.forward(), chars@, index as int),
                self.same_reverse(*old(self)),
            decreases chars@.len() - index,
        {
            let (code, code_len) = chars[index].0;
            self.put_char(code, code_len, copy_units(&chars[index].1));
            index += 1;
        }
    }

    fn put_ranges(&mut self, ranges: &Vec<((SourceCode, SourceCode, CodeLen), Vec<Vec<u16>>)>) -> (r: Result<
        (),
        UnicodeCMapError,
    >)
        ensures
            match ranges_put(old(self).forward(), ranges@, 0) {
                Some(forward) => r is Ok && final(self).forward() == forward,
                None => r == Err::<(), UnicodeCMapError>(UnicodeCMapError::InvalidCodeRange),
            },
            final(self).same_reverse(*old(self)),
    {
        let mut index: usize = 0;
        while index < ranges.len()
            invariant
                index <= ranges@.len(),
                ranges_put(old(self).forward(), ranges@, 0) == ranges_put(self.forward(), ranges@, index as int),
                self.same_reverse(*old(self)),
            decreases ranges@.len() - index,
        {
            let (start, end, code_len) = ranges[index].0;
            let strings: &Vec<Vec<u16>> = &ranges[index].1;
            if end < start {
                return Err(UnicodeCMapError::InvalidCodeRange);
            }
            let ghost shown = strings_view(strings@);
            let target: BfRangeTarget = match strings.len() {
                0 => {
                    return Err(UnicodeCMapError::InvalidCodeRange);
                },
                1 => {
                    assert(shown[0] == strings@[0]@);
                    if strings[0].len() == 1 {
                        BfRangeTarget::UTF16CodePoint { offset: offset_from(strings[0][0], start) }
                    } else {
                        BfRangeTarget::HexString(copy_units(&strings[0]))
                    }
                },
                _ => BfRangeTarget::ArrayOfHexStrings(copy_strings(strings)),
            };
            assert(target@ == range_target(start, shown));
            self.put(start, end, code_len, target);
            index += 1;
        }
        Ok(())
    }

    /// The map is what the sections make; the strings can be asked for where it was
    /// built with its reverse.
    pub open spec fn built_from(&self, sections: Seq<CMapSection>, reverse: bool) -> bool {
        &&& sections_put(empty_forward(), sections, 0) == Some(self.forward())
        &&& self.has_reverse() == reverse
        &&& distinct(self.strings())
        &&& forall|string: Seq<u16>| #[trigger]
            codes_among(self.strings(), string) == (if reverse {
                unless_none(codes_of(self.forward(), string, 4))
            } else {
                None
            })
    }

    /// Builds a map from the sections of its text. The strings can be asked for
    /// only where the map was built with its reverse.
    pub fn from_sections(cmap_sections: Vec<CMapSection>, build_reverse_map: bool) -> (r: Result<
        ToUnicodeCMap,
        UnicodeCMapError,
    >)
        ensures
            match sections_put(empty_forward(), cmap_sections@, 0) {
                Some(_) => r matches Ok(cmap) && cmap.built_from(cmap_sections@, build_reverse_map),
                None => r matches Err(error) && error == UnicodeCMapError::InvalidCodeRange,
            },
    {
        let mut cmap = ToUnicodeCMap::new();
        let mut index: usize = 0;
        while index < cmap_sections.len()
            invariant
                index <= cmap_sections@.len(),
                sections_put(empty_forward(), cmap_sections@, 0) == sections_put(
                    cmap.forward(),
                    cmap_sections@,
                    index as int,
                ),
                !cmap.has_reverse(),
            decreases cmap_sections@.len() - index,
        {
            match &cmap_sections[index] {
                CMapSection::CsRange(_) => {},
                CMapSection::BfChar(chars) => {
                    cmap.put_chars(chars);
                },
                CMapSection::BfRange(ranges) => {
                    match cmap.put_ranges(ranges) {
                        Ok(()) => {},
                        Err(error) => {
                            return Err(error);
                        },
                    }
                },
            }
            index += 1;
        }
        if !build_reverse_map {
            return Ok(cmap);
        }
        let map = cmap.reversed();
        let forward_only = cmap;
        let cmap = ToUnicodeCMap { bf_ranges: forward_only.bf_ranges, reverse_map: Some(ReverseMap { table: map }) };
        assert(cmap.forward() =~= forward_only.forward());
        Ok(cmap)
    }

    /// The strings that codes map to, each with its codes.
    fn reversed(&self) -> (map: StringTable)
        ensures
            map.well_formed(),
            forall|string: Seq<u16>| #[trigger]
                codes_among(map@, string) == unless_none(codes_of(self.forward(), string, 4)),
    {
        let mut map = StringTable::new();
        let mut length: usize = 0;
        while length < 4
            invariant
                length <= 4,
                map.well_formed(),
                forall|string: Seq<u16>| #[trigger]
                    codes_among(map@, string) == unless_none(codes_of(self.forward(), string, length as int)),
            decreases 4 - length,
        {
            self.note_length(&mut map, length);
            length += 1;
        }
        map
    }

    /// Notes the codes of one length, behind the shorter ones.
    fn note_length(&self, map: &mut StringTable, length: usize)
        requires
            length < 4,
            old(map).well_formed(),
            forall|string: Seq<u16>| #[trigger]
                codes_among(old(map)@, string) == unless_none(codes_of(self.forward(), string, length as int)),
        ensures
            final(map).well_formed(),
            forall|string: Seq<u16>| #[trigger]
                codes_among(final(map)@, string) == unless_none(codes_of(self.forward(), string, length + 1)),
    {
        let ghost contents = self.forward()[length as int];
        let ghost shorter = |string: Seq<u16>| codes_of(self.forward(), string, length as int);
        let code_len: u8 = (length + 1) as u8;
        let runs: Vec<(u32, u32, &StoredTarget)> = stored_ranges(&self.bf_ranges[length]);
        let ghost shown = runs_view(runs@);
        let mut index: usize = 0;
        let ghost mut done: int = 0;
        assert(noted_below(*map, shorter, contents, code_len, 0)) by {
            assert forall|string: Seq<u16>| #[trigger] codes_among(map@, string) == unless_none(
                shorter(string) + codes_below(contents, code_len, string, 0),
            ) by {
                assert(shorter(string) + codes_below(contents, code_len, string, 0) =~= shorter(string));
            }
        }
        while index < runs.len()
            invariant
                index <= runs@.len(),
                shown == runs_view(runs@),
                runs_fit(contents, shown),
                0 <= done <= CODE_COUNT,
                done == reached(shown, index as int),
                map.well_formed(),
                noted_below(*map, shorter, contents, code_len, done),
            decreases runs@.len() - index,
        {
            let (start, end, target) = runs[index];
            proof {
                assert(shown[index as int] == (start, end, stored_view(*target)));
                lemma_nothing_between(contents, shown, index as int);
                lemma_noted_gap(*map, shorter, contents, code_len, done, start as int);
                assert(is_run(contents, start, end, stored_view(*target))) by {
                    assert forall|code: u32| start <= code <= end implies #[trigger] contents.contains_key(code)
                        && contents[code] == stored_view(*target) && run_start(contents, code) == start by {
                        assert(shown[index as int].0 <= code <= shown[index as int].1);
                    }
                }
            }
            note_run(map, start, end, target, code_len, Ghost(contents), Ghost(shorter));
            proof {
                done = end + 1;
            }
            index += 1;
        }
        proof {
            lemma_nothing_behind(contents, shown);
            lemma_noted_gap(*map, shorter, contents, code_len, done, CODE_COUNT as int);
            assert forall|string: Seq<u16>| #[trigger] codes_among(map@, string) == unless_none(
                codes_of(self.forward(), string, length + 1),
            ) by {
                assert(codes_of(self.forward(), string, length + 1) == shorter(string) + codes_below(
                    contents,
                    code_len,
                    string,
                    CODE_COUNT as int,
                ));
            }
        }
    }
}

/// The first code behind the first few runs.
spec fn reached(runs: Seq<(u32, u32, StoredView)>, count: int) -> int {
    if count > 0 {
        runs[count - 1].1 + 1
    } else {
        0
    }
}

proof fn lemma_nothing_between(contents: Map<u32, StoredView>, runs: Seq<(u32, u32, StoredView)>, index: int)
    requires
        runs_fit(contents, runs),
        0 <= index < runs.len(),
    ensures
        reached(runs, index) <= runs[index].0,
        forall|code: u32| reached(runs, index) <= code < runs[index].0 ==> !#[trigger] contents.contains_key(code),
{
    if index > 0 {
        assert(runs[index - 1].1 < runs[index].0);
    }
    assert forall|code: u32| reached(runs, index) <= code < runs[index].0 implies !#[trigger] contents.contains_key(
        code,
    ) by {
        if contents.contains_key(code) {
            let i = choose|i: int| 0 <= i < runs.len() && (#[trigger] runs[i]).0 <= code <= runs[i].1;
            if i < index - 1 {
                assert(runs[i].1 < runs[index - 1].0);
                assert(runs[index - 1].0 <= runs[index - 1].1);
            } else if i > index {
                assert(runs[index].1 < runs[i].0);
                assert(runs[index].0 <= runs[index].1);
            }
        }
    }
}

proof fn lemma_nothing_behind(contents: Map<u32, StoredView>, runs: Seq<(u32, u32, StoredView)>)
    requires
        runs_fit(contents, runs),
    ensures
        forall|code: u32| reached(runs, runs.len() as int) <= code ==> !#[trigger] contents.contains_key(code),
{
    assert forall|code: u32| reached(runs, runs.len() as int) <= code implies !#[trigger] contents.contains_key(
        code,
    ) by {
        if contents.contains_key(code) {
            let i = choose|i: int| 0 <= i < runs.len() && (#[trigger] runs[i]).0 <= code <= runs[i].1;
            if i < runs.len() - 1 {
                assert(runs[i].1 < runs[runs.len() - 1].0);
                assert(runs[runs.len() - 1].0 <= runs[runs.len() - 1].1);
            }
        }
    }
}

/// The table lists for every string the shorter codes and, behind them, those of
/// one length below a limit.
spec fn noted_below(
    map: StringTable,
    shorter: spec_fn(Seq<u16>) -> Seq<ReverseCMapEntry>,
    contents: Map<u32, StoredView>,
    code_len: u8,
    limit: int,
) -> bool {
    forall|string: Seq<u16>| #[trigger]
        codes_among(map@, string) == unless_none(
            shorter(string) + codes_below(contents, code_len, string, limit),
        )
}

proof fn lemma_noted_gap(
    map: StringTable,
    shorter: spec_fn(Seq<u16>) -> Seq<ReverseCMapEntry>,
    contents: Map<u32, StoredView>,
    code_len: u8,
    from: int,
    to: int,
)
    requires
        noted_below(map, shorter, contents, code_len, from),
        0 <= from <= to <= CODE_COUNT,
        forall|code: u32| from <= code < to ==> !#[trigger] contents.contains_key(code),
    ensures
        noted_below(map, shorter, contents, code_len, to),
{
    assert forall|string: Seq<u16>| #[trigger] codes_among(map@, string) == unless_none(
        shorter(string) + codes_below(contents, code_len, string, to),
    ) by {
        lemma_gap(contents, code_len, string, from, to);
    }
}

/// The codes from `start` to `end` are one run, from its start on.
spec fn is_run(contents: Map<u32, StoredView>, start: u32, end: u32, target: StoredView) -> bool {
    forall|code: u32|
        start <= code <= end ==> #[trigger] contents.contains_key(code) && contents[code] == target && run_start(
            contents,
            code,
        ) == start
}

/// Notes the codes of a run.
fn note_run(
    map: &mut StringTable,
    start: u32,
    end: u32,
    target: &StoredTarget,
    code_len: u8,
    Ghost(contents): Ghost<Map<u32, StoredView>>,
    Ghost(shorter): Ghost<spec_fn(Seq<u16>) -> Seq<ReverseCMapEntry>>,
)
    requires
        old(map).well_formed(),
        start <= end,
        is_run(contents, start, end, stored_view(*target)),
        noted_below(*old(map), shorter, contents, code_len, start as int),
    ensures
        final(map).well_formed(),
        noted_below(*final(map), shorter, contents, code_len, end + 1),
{
    let mut next: u64 = start as u64;
    while next <= end as u64
        invariant
            is_run(contents, start, end, stored_view(*target)),
            start <= next <= end + 1,
            map.well_formed(),
            noted_below(*map, shorter, contents, code_len, next as int),
        decreases end + 1 - next,
    {
        let code: u32 = next as u32;
        let ghost before = *map;
        assert(contents.contains_key(code));
        let noted: Option<Vec<u16>> = note_of(target, code, code - start);
        let entry = ReverseCMapEntry { source_code: code, code_len };
        let ghost string_noted = string_view(noted);
        if let Some(string) = noted {
            map.note(string, entry);
        }
        proof {
            assert forall|string: Seq<u16>| #[trigger] codes_among(map@, string) == unless_none(
                shorter(string) + codes_below(contents, code_len, string, next + 1),
            ) by {
                let below = codes_below(contents, code_len, string, next as int);
                assert(codes_among(before@, string) == unless_none(shorter(string) + below));
                assert(comes_from(contents, code, string) == (string_noted == Some(string)));
                if string_noted == Some(string) {
                    assert(shorter(string) + below.push(entry) =~= (shorter(string) + below).push(entry));
                    if (shorter(string) + below).len() == 0 {
                        assert((shorter(string) + below).push(entry) =~= seq![entry]);
                    }
                }
            }
        }
        next += 1;
    }
}

proof fn lemma_codes_below(contents: Map<u32, StoredView>, code_len: u8, string: Seq<u16>, limit: int)
    requires
        limit <= CODE_COUNT,
    ensures
        forall|i: int|
            0 <= i < codes_below(contents, code_len, string, limit).len() ==> {
                let entry = #[trigger] codes_below(contents, code_len, string, limit)[i];
                entry.code_len == code_len && entry.source_code < limit && comes_from(
                    contents,
                    entry.source_code,
                    string,
                )
            },
        forall|code: u32|
            code < limit && #[trigger] comes_from(contents, code, string) ==> codes_below(
                contents,
                code_len,
                string,
                limit,
            ).contains(ReverseCMapEntry { source_code: code, code_len }),
        forall|i: int, j: int|
            0 <= i < j < codes_below(contents, code_len, string, limit).len() ==> (#[trigger] codes_below(
                contents,
                code_len,
                string,
                limit,
            )[i]).source_code < (#[trigger] codes_below(contents, code_len, string, limit)[j]).source_code,
    decreases limit,
{
    if limit > 0 {
        lemma_codes_below(contents, code_len, string, limit - 1);
        let rest = codes_below(contents, code_len, string, limit - 1);
        let all = codes_below(contents, code_len, string, limit);
        let last = (limit - 1) as u32;
        assert forall|code: u32| code < limit && #[trigger] comes_from(contents, code, string) implies all.contains(
            ReverseCMapEntry { source_code: code, code_len },
        ) by {
            let entry = ReverseCMapEntry { source_code: code, code_len };
            if code == last {
                assert(all[rest.len() as int] == entry);
            } else {
                let i = choose|i: int| 0 <= i < rest.len() && rest[i] == entry;
                assert(all[i] == entry);
            }
        }
    }
}

/// The codes that a string comes from are those that are noted for it: all of
/// them and no others, the shorter ones before the longer ones, and those of one
/// length in order.
pub proof fn law_codes_of_a_string(forward: ForwardView, string: Seq<u16>, lengths: int)
    requires
        0 <= lengths <= 4,
    ensures
        forall|i: int|
            0 <= i < codes_of(forward, string, lengths).len() ==> {
                let entry = #[trigger] codes_of(forward, string, lengths)[i];
                1 <= entry.code_len <= lengths && comes_from(
                    forward[entry.code_len - 1],
                    entry.source_code,
                    string,
                )
            },
        forall|code: u32, code_len: u8|
            1 <= code_len <= lengths && #[trigger] comes_from(forward[code_len - 1], code, string) ==> codes_of(
                forward,
                string,
                lengths,
            ).contains(ReverseCMapEntry { source_code: code, code_len }),
        forall|i: int, j: int|
            0 <= i < j < codes_of(forward, string, lengths).len() ==> {
                let earlier = #[trigger] codes_of(forward, string, lengths)[i];
                let later = #[trigger] codes_of(forward, string, lengths)[j];
                earlier.code_len < later.code_len || (earlier.code_len == later.code_len && earlier.source_code
                    < later.source_code)
            },
    decreases lengths,
{
    if lengths > 0 {
        law_codes_of_a_string(forward, string, lengths - 1);
        lemma_codes_below(forward[lengths - 1], lengths as u8, string, CODE_COUNT as int);
        let rest = codes_of(forward, string, lengths - 1);
        let own = codes_below(forward[lengths - 1], lengths as u8, string, CODE_COUNT as int);
        let all = codes_of(forward, string, lengths);
        assert forall|code: u32, code_len: u8|
            1 <= code_len <= lengths && #[trigger] comes_from(forward[code_len - 1], code, string) implies all.contains(
            ReverseCMapEntry { source_code: code, code_len },
        ) by {
            let entry = ReverseCMapEntry { source_code: code, code_len };
            if code_len == lengths {
                assert(own.contains(entry));
                let i = choose|i: int| 0 <= i < own.len() && own[i] == entry;
                assert(all[rest.len() + i] == entry);
            } else {
                assert(rest.contains(entry));
                let i = choose|i: int| 0 <= i < rest.len() && rest[i] == entry;
                assert(all[i] == entry);
            }
        }
        assert forall|i: int| 0 <= i < all.len() implies {
            let entry = #[trigger] all[i];
            1 <= entry.code_len <= lengths && comes_from(forward[entry.code_len - 1], entry.source_code, string)
        } by {
            if i < rest.len() {
                assert(all[i] == rest[i]);
            } else {
                assert(all[i] == own[i - rest.len()]);
            }
        }
        assert forall|i: int, j: int| 0 <= i < j < all.len() implies {
            let earlier = #[trigger] all[i];
            let later = #[trigger] all[j];
            earlier.code_len < later.code_len || (earlier.code_len == later.code_len && earlier.source_code
                < later.source_code)
        } by {
            if j < rest.len() {
                assert(all[i] == rest[i] && all[j] == rest[j]);
            } else if i < rest.len() {
                assert(all[i] == rest[i] && all[j] == own[j - rest.len()]);
            } else {
                assert(all[i] == own[i - rest.len()] && all[j] == own[j - rest.len()]);
            }
        }
    }
}

/// A code that a string comes from maps to that string, where what it maps to can
/// be worked out.
pub proof fn law_codes_map_back(contents: Map<u32, StoredView>, code: u32, string: Seq<u16>)
    requires
        comes_from(contents, code, string),
        code_mappable(contents, code),
    ensures
        code_value(contents, code) == Some(string),
{
}

/// A code maps to a string exactly where the string is noted for it. The
/// replacement character is left out: a code behind the end of its array maps to it
/// and is not noted.
proof fn lemma_noted_where_mapped(contents: Map<u32, StoredView>, code: u32, string: Seq<u16>)
    requires
        code_mappable(contents, code),
        string.len() > 0,
    ensures
        comes_from(contents, code, string) ==> code_value(contents, code) == Some(string),
        string != seq![REPLACEMENT_CHAR] && code_value(contents, code) == Some(string) ==> comes_from(
            contents,
            code,
            string,
        ),
{
}

/// What every code maps to can be worked out.
pub open spec fn all_mappable(forward: ForwardView) -> bool {
    forall|length: int, code: u32| 0 <= length < 4 ==> #[trigger] code_mappable(forward[length], code)
}

/// Asked for a string, a map that was built with its reverse names codes that map
/// to it, each once, in order of their length and then of their value. It names
/// all of them, but for the replacement character, and it names none only where
/// there are none.
pub proof fn law_strings_lead_to_their_codes(cmap: ToUnicodeCMap, sections: Seq<CMapSection>, string: Seq<u16>)
    requires
        cmap.built_from(sections, true),
        all_mappable(cmap.forward()),
        string.len() > 0,
    ensures
        codes_among(cmap.strings(), string) matches Some(entries) ==> {
            &&& entries.len() > 0
            &&& forall|i: int, j: int|
                0 <= i < j < entries.len() ==> (#[trigger] entries[i]).code_len < (#[trigger] entries[j]).code_len || (
                entries[i].code_len == entries[j].code_len && entries[i].source_code < entries[j].source_code)
            &&& forall|i: int|
                0 <= i < entries.len() ==> 1 <= (#[trigger] entries[i]).code_len <= 4 && code_value(
                    cmap.forward()[entries[i].code_len - 1],
                    entries[i].source_code,
                ) == Some(string)
            &&& string != seq![REPLACEMENT_CHAR] ==> forall|code: u32, code_len: u8|
                1 <= code_len <= 4 && #[trigger] code_value(cmap.forward()[code_len - 1], code) == Some(string)
                    ==> entries.contains(ReverseCMapEntry { source_code: code, code_len })
        },
        codes_among(cmap.strings(), string) is None && string != seq![REPLACEMENT_CHAR] ==> forall|
            code: u32,
            code_len: u8,
        |
            1 <= code_len <= 4 ==> #[trigger] code_value(cmap.forward()[code_len - 1], code) != Some(string),
{
    let forward = cmap.forward();
    let codes = codes_of(forward, string, 4);
    law_codes_of_a_string(forward, string, 4);
    assert forall|i: int| 0 <= i < codes.len() implies 1 <= (#[trigger] codes[i]).code_len <= 4 && code_value(
        forward[codes[i].code_len - 1],
        codes[i].source_code,
    ) == Some(string) by {
        lemma_noted_where_mapped(forward[codes[i].code_len - 1], codes[i].source_code, string);
    }
    if string != seq![REPLACEMENT_CHAR] {
        assert forall|code: u32, code_len: u8|
            1 <= code_len <= 4 && #[trigger] code_value(forward[code_len - 1], code) == Some(
                string,
            ) implies codes.contains(ReverseCMapEntry { source_code: code, code_len }) by {
            lemma_noted_where_mapped(forward[code_len - 1], code, string);
            assert(comes_from(forward[code_len - 1], code, string));
        }
    }
}

/// What a stored range takes at most besides its strings: a whole node of the
/// tree that the ranges are kept in.
pub const RANGE_NODE_ALLOCATION_ENVELOPE: usize = 2048;

/// What a string that can be asked for takes at most besides its parts.
pub const REVERSE_SLOT_ENVELOPE: usize = 128;

/// The room that was made for a target.
pub enum TargetRoom {
    Nothing,
    String(usize),
    Strings(usize, Seq<usize>),
}

/// Some strings, asked for their capacities, may answer with these.
pub open spec fn strings_hold(capacity: usize, parts: Seq<usize>, strings: Vec<Vec<u16>>) -> bool {
    &&& vec_room(strings, capacity)
    &&& parts.len() == strings@.len()
    &&& forall|i: int| 0 <= i < parts.len() ==> vec_room(strings@[i], #[trigger] parts[i])
}

/// The strings of the target, asked for their capacities, may answer with these.
pub open spec fn target_room_holds(room: TargetRoom, target: BfRangeTarget) -> bool {
    match (room, target) {
        (TargetRoom::Nothing, BfRangeTarget::UTF16CodePoint { .. }) => true,
        (TargetRoom::String(capacity), BfRangeTarget::HexString(string)) => vec_room(string, capacity),
        (TargetRoom::Strings(capacity, parts), BfRangeTarget::ArrayOfHexStrings(strings)) => strings_hold(
            capacity,
            parts,
            strings,
        ),
        _ => false,
    }
}

/// The strings of a target that a range map holds, asked for their capacities, may
/// answer with these.
pub open spec fn stored_room_holds(room: TargetRoom, target: StoredTarget) -> bool {
    match (room, target_from(stored_view(target))) {
        (TargetRoom::Nothing, TargetView::UTF16CodePoint { .. }) => true,
        (TargetRoom::String(capacity), TargetView::HexString(_)) => vec_room(target.2, capacity),
        (TargetRoom::Strings(capacity, parts), TargetView::ArrayOfHexStrings(_)) => strings_hold(
            capacity,
            parts,
            target.3,
        ),
        _ => false,
    }
}

/// The bytes of the room for some strings.
pub open spec fn units_bytes(parts: Seq<usize>) -> nat
    decreases parts.len(),
{
    if parts.len() == 0 {
        0
    } else {
        units_bytes(parts.drop_last()) + (parts.last() as nat) * size_of::<u16>()
    }
}

/// The bytes of the room that a target was made with.
pub open spec fn target_room_bytes(room: TargetRoom) -> nat {
    match room {
        TargetRoom::Nothing => 0,
        TargetRoom::String(capacity) => (capacity as nat) * size_of::<u16>(),
        TargetRoom::Strings(capacity, parts) => (capacity as nat) * size_of::<Vec<u16>>() + units_bytes(parts),
    }
}

/// The bytes of a string with room for `capacity` units.
pub fn string_weight(capacity: usize) -> (r: usize)
    ensures
        r == capped((capacity as nat) * size_of::<u16>()),
{
    capped_product(capacity, core::mem::size_of::<u16>())
}

/// The bytes of an array with room for `capacity` strings, which keep `parts`.
pub fn strings_weight(capacity: usize, parts: usize) -> (r: usize)
    ensures
        r == capped((capacity as nat) * size_of::<Vec<u16>>() + parts as nat),
{
    capped_product(capacity, core::mem::size_of::<Vec<u16>>()).saturating_add(parts)
}

fn strings_heap_bytes(strings: &Vec<Vec<u16>>) -> (r: usize)
    ensures
        exists|capacity: usize, parts: Seq<usize>| #[trigger]
            strings_hold(capacity, parts, *strings) && r == capped(
                target_room_bytes(TargetRoom::Strings(capacity, parts)),
            ),
{
    let capacity: usize = room_of_vec(strings);
    let mut total: usize = 0;
    let ghost mut parts: Seq<usize> = Seq::empty();
    let mut index: usize = 0;
    while index < strings.len()
        invariant
            index <= strings@.len(),
            parts.len() == index,
            forall|i: int| 0 <= i < index ==> vec_room(strings@[i], #[trigger] parts[i]),
            total == capped(units_bytes(parts)),
        decreases strings@.len() - index,
    {
        let room: usize = room_of_vec(&strings[index]);
        total = total.saturating_add(string_weight(room));
        proof {
            assert(parts.push(room).drop_last() =~= parts);
            parts = parts.push(room);
        }
        index += 1;
    }
    assert(strings_hold(capacity, parts, *strings));
    strings_weight(capacity, total)
}

impl BfRangeTarget {
    /// The bytes that the target's strings keep.
    pub fn retained_heap_bytes(&self) -> (r: usize)
        ensures
            exists|room: TargetRoom| #[trigger]
                target_room_holds(room, *self) && r == capped(target_room_bytes(room)),
    {
        match self {
            BfRangeTarget::HexString(string) => {
                let capacity: usize = room_of_vec(string);
                assert(target_room_holds(TargetRoom::String(capacity), *self));
                string_weight(capacity)
            },
            BfRangeTarget::UTF16CodePoint { .. } => {
                assert(target_room_holds(TargetRoom::Nothing, *self));
                0
            },
            BfRangeTarget::ArrayOfHexStrings(strings) => {
                let r: usize = strings_heap_bytes(strings);
                proof {
                    let (capacity, parts) = choose|capacity: usize, parts: Seq<usize>| #[trigger]
                        strings_hold(capacity, parts, *strings) && r == capped(
                            target_room_bytes(TargetRoom::Strings(capacity, parts)),
                        );
                    assert(target_room_holds(TargetRoom::Strings(capacity, parts), *self));
                }
                r
            },
        }
    }
}

fn stored_heap_bytes(target: &StoredTarget) -> (r: usize)
    ensures
        exists|room: TargetRoom| #[trigger]
            stored_room_holds(room, *target) && r == capped(target_room_bytes(room)),
{
    if target.0 == KIND_OFFSET {
        assert(stored_room_holds(TargetRoom::Nothing, *target));
        0
    } else if target.0 == KIND_STRING {
        let capacity: usize = room_of_vec(&target.2);
        assert(stored_room_holds(TargetRoom::String(capacity), *target));
        string_weight(capacity)
    } else {
        let r: usize = strings_heap_bytes(&target.3);
        proof {
            let (capacity, parts) = choose|capacity: usize, parts: Seq<usize>| #[trigger]
                strings_hold(capacity, parts, target.3) && r == capped(
                    target_room_bytes(TargetRoom::Strings(capacity, parts)),
                );
            assert(stored_room_holds(TargetRoom::Strings(capacity, parts), *target));
        }
        r
    }
}

/// The ranges of one length and the rooms that their targets were made with.
pub open spec fn range_rooms_hold(contents: Map<u32, StoredView>, rooms: Seq<TargetRoom>) -> bool {
    exists|runs: Seq<(u32, u32, &StoredTarget)>|
        runs_fit(contents, #[trigger] runs_view(runs)) && rooms.len() == runs.len() && forall|i: int|
            0 <= i < rooms.len() ==> stored_room_holds(#[trigger] rooms[i], *runs[i].2)
}

/// The bytes that ranges keep with these rooms.
pub open spec fn range_rooms_bytes(rooms: Seq<TargetRoom>) -> nat
    decreases rooms.len(),
{
    if rooms.len() == 0 {
        0
    } else {
        range_rooms_bytes(rooms.drop_last()) + RANGE_NODE_ALLOCATION_ENVELOPE as nat + target_room_bytes(rooms.last())
    }
}

/// The rooms that the ranges of each length were made with.
pub open spec fn forward_rooms_hold(forward: ForwardView, rooms: Seq<Seq<TargetRoom>>) -> bool {
    rooms.len() <= forward.len() && forall|i: int|
        0 <= i < rooms.len() ==> range_rooms_hold(forward[i], #[trigger] rooms[i])
}

/// The bytes that the ranges of each length keep.
pub open spec fn forward_rooms_bytes(rooms: Seq<Seq<TargetRoom>>) -> nat
    decreases rooms.len(),
{
    if rooms.len() == 0 {
        0
    } else {
        forward_rooms_bytes(rooms.drop_last()) + range_rooms_bytes(rooms.last())
    }
}

/// The strings that can be asked for are held in this vector.
pub open spec fn listed_in(strings: Seq<StringCodesView>, held: Vec<(Vec<u16>, Vec<ReverseCMapEntry>)>) -> bool {
    held@.len() == strings.len() && forall|i: int|
        0 <= i < strings.len() ==> #[trigger] strings[i] == (held@[i].0@, held@[i].1@)
}

/// The vector that holds the strings and their codes, and they themselves, asked for
/// their capacities, may answer with these.
pub open spec fn string_rooms_hold(
    held: Vec<(Vec<u16>, Vec<ReverseCMapEntry>)>,
    slots: usize,
    rooms: Seq<(usize, usize)>,
) -> bool {
    &&& vec_room(held, slots)
    &&& rooms.len() == held@.len()
    &&& forall|i: int|
        0 <= i < rooms.len() ==> vec_room(held@[i].0, (#[trigger] rooms[i]).0) && vec_room(held@[i].1, rooms[i].1)
}

/// The bytes that strings and their codes keep with these rooms.
pub open spec fn string_rooms_bytes(rooms: Seq<(usize, usize)>) -> nat
    decreases rooms.len(),
{
    if rooms.len() == 0 {
        0
    } else {
        string_rooms_bytes(rooms.drop_last()) + ((rooms.last().0 as nat) * size_of::<u16>() + (rooms.last().1 as nat)
            * size_of::<ReverseCMapEntry>())
    }
}

/// The bytes that a map keeps with these rooms.
pub open spec fn map_bytes(forward: Seq<Seq<TargetRoom>>, slots: usize, strings: Seq<(usize, usize)>) -> nat {
    forward_rooms_bytes(forward) + (slots as nat) * (size_of::<(Vec<u16>, Vec<ReverseCMapEntry>)>()
        + REVERSE_SLOT_ENVELOPE as nat) + string_rooms_bytes(strings)
}

/// The parts of the map, asked for their capacities, may answer with these.
pub open spec fn map_rooms_hold(
    forward: ForwardView,
    has_reverse: bool,
    strings: Seq<StringCodesView>,
    forward_rooms: Seq<Seq<TargetRoom>>,
    slots: usize,
    string_rooms: Seq<(usize, usize)>,
) -> bool {
    &&& forward_rooms.len() == 4
    &&& forward_rooms_hold(forward, forward_rooms)
    &&& if has_reverse {
        exists|held: Vec<(Vec<u16>, Vec<ReverseCMapEntry>)>|
            listed_in(strings, held) && #[trigger] string_rooms_hold(held, slots, string_rooms)
    } else {
        slots == 0 && string_rooms.len() == 0
    }
}

/// The bytes of a string with room for `string` units and of its codes with room for
/// `codes` of them.
pub fn string_codes_weight(string: usize, codes: usize) -> (r: usize)
    ensures
        r == capped((string as nat) * size_of::<u16>() + (codes as nat) * size_of::<ReverseCMapEntry>()),
{
    string_weight(string).saturating_add(capped_product(codes, core::mem::size_of::<ReverseCMapEntry>()))
}

/// The bytes of a map whose ranges keep `forward`, with room for `slots` strings,
/// which keep `strings` with their codes.
pub fn map_weight(forward: usize, slots: usize, strings: usize) -> (r: usize)
    ensures
        r == capped(
            forward as nat + (slots as nat) * (size_of::<(Vec<u16>, Vec<ReverseCMapEntry>)>()
                + REVERSE_SLOT_ENVELOPE as nat) + strings as nat,
        ),
{
    let slot: usize = core::mem::size_of::<(Vec<u16>, Vec<ReverseCMapEntry>)>().saturating_add(REVERSE_SLOT_ENVELOPE);
    proof {
        lemma_capped_factor(
            slots as nat,
            size_of::<(Vec<u16>, Vec<ReverseCMapEntry>)>() + REVERSE_SLOT_ENVELOPE as nat,
        );
    }
    forward.saturating_add(capped_product(slots, slot)).saturating_add(strings)
}

fn ranges_heap_bytes(map: &RangeInclusiveMap<u32, StoredTarget, u32>) -> (r: usize)
    ensures
        exists|rooms: Seq<TargetRoom>| #[trigger]
            range_rooms_hold(range_contents(*map), rooms) && r == capped(range_rooms_bytes(rooms)),
{
    let runs: Vec<(u32, u32, &StoredTarget)> = stored_ranges(map);
    let ghost mut rooms: Seq<TargetRoom> = Seq::empty();
    let mut total: usize = 0;
    let mut index: usize = 0;
    while index < runs.len()
        invariant
            index <= runs@.len(),
            rooms.len() == index,
            forall|i: int| 0 <= i < index ==> stored_room_holds(#[trigger] rooms[i], *runs@[i].2),
            total == capped(range_rooms_bytes(rooms)),
        decreases runs@.len() - index,
    {
        let part: usize = stored_heap_bytes(runs[index].2);
        total = total.saturating_add(RANGE_NODE_ALLOCATION_ENVELOPE).saturating_add(part);
        proof {
            let room = choose|room: TargetRoom| #[trigger]
                stored_room_holds(room, *runs@[index as int].2) && part == capped(target_room_bytes(room));
            assert(rooms.push(room).drop_last() =~= rooms);
            rooms = rooms.push(room);
        }
        index += 1;
    }
    assert(runs_fit(range_contents(*map), runs_view(runs@)));
    assert(range_rooms_hold(range_contents(*map), rooms));
    total
}

impl StringTable {
    /// How many strings the table has room for, and the bytes that the strings and
    /// their codes keep.
    fn rooms(&self) -> (r: (usize, usize))
        ensures
            exists|string_rooms: Seq<(usize, usize)>| #[trigger]
                string_rooms_hold(self.strings, r.0, string_rooms) && r.1 == capped(string_rooms_bytes(string_rooms)),
    {
        let slots: usize = room_of_vec(&self.strings);
        let mut total: usize = 0;
        let ghost mut string_rooms: Seq<(usize, usize)> = Seq::empty();
        let mut index: usize = 0;
        while index < self.strings.len()
            invariant
                index <= self.strings@.len(),
                string_rooms.len() == index,
                forall|i: int|
                    0 <= i < index ==> vec_room(self.strings@[i].0, (#[trigger] string_rooms[i]).0) && vec_room(
                        self.strings@[i].1,
                        string_rooms[i].1,
                    ),
                total == capped(string_rooms_bytes(string_rooms)),
            decreases self.strings@.len() - index,
        {
            let string: usize = room_of_vec(&self.strings[index].0);
            let codes: usize = room_of_vec(&self.strings[index].1);
            total = total.saturating_add(string_codes_weight(string, codes));
            proof {
                assert(string_rooms.push((string, codes)).drop_last() =~= string_rooms);
                string_rooms = string_rooms.push((string, codes));
            }
            index += 1;
        }
        let r: (usize, usize) = (slots, total);
        assert(string_rooms_hold(self.strings, r.0, string_rooms));
        r
    }
}

impl ToUnicodeCMap {
    /// The bytes that the map keeps, at most. Room that is not used counts.
    pub fn retained_heap_bytes(&self) -> (r: usize)
        ensures
            exists|forward_rooms: Seq<Seq<TargetRoom>>, slots: usize, string_rooms: Seq<(usize, usize)>| #[trigger]
                map_rooms_hold(
                    self.forward(),
                    self.has_reverse(),
                    self.strings(),
                    forward_rooms,
                    slots,
                    string_rooms,
                ) && r == capped(map_bytes(forward_rooms, slots, string_rooms)),
    {
        let ghost forward = self.forward();
        let ghost mut rooms: Seq<Seq<TargetRoom>> = Seq::empty();
        let mut total: usize = 0;
        let mut length: usize = 0;
        while length < 4
            invariant
                length <= 4,
                forward == self.forward(),
                forward.len() == 4,
                rooms.len() == length,
                forward_rooms_hold(forward, rooms),
                total == capped(forward_rooms_bytes(rooms)),
            decreases 4 - length,
        {
            let part: usize = ranges_heap_bytes(&self.bf_ranges[length]);
            total = total.saturating_add(part);
            proof {
                assert(forward[length as int] == range_contents(self.bf_ranges@[length as int]));
                let own = choose|own: Seq<TargetRoom>| #[trigger]
                    range_rooms_hold(forward[length as int], own) && part == capped(range_rooms_bytes(own));
                assert(rooms.push(own).drop_last() =~= rooms);
                rooms = rooms.push(own);
            }
            length += 1;
        }
        let (slots, strings): (usize, usize) = match &self.reverse_map {
            None => (0, 0),
            Some(map) => map.table.rooms(),
        };
        proof {
            let string_rooms: Seq<(usize, usize)> = match &self.reverse_map {
                None => Seq::empty(),
                Some(map) => {
                    let found = choose|string_rooms: Seq<(usize, usize)>| #[trigger]
                        string_rooms_hold(map.table.strings, slots, string_rooms) && strings == capped(
                            string_rooms_bytes(string_rooms),
                        );
                    assert(listed_in(self.strings(), map.table.strings));
                    assert(string_rooms_hold(map.table.strings, slots, found));
                    found
                },
            };
            assert(map_rooms_hold(
                self.forward(),
                self.has_reverse(),
                self.strings(),
                rooms,
                slots,
                string_rooms,
            ));
        }
        map_weight(total, slots, strings)
    }
}

} // verus!

//! Incremental framing of one direct object inside a growing window.

use vstd::prelude::*;

use crate::lex::{
    is_digit, is_hex_digit, is_line_end, is_pdf_delimiter, is_pdf_whitespace, read_decimal, BACKSLASH, BRACKET_CLOSE,
    BRACKET_OPEN, CR, DIGIT_ZERO, DOT, GREATER, HASH, KEYWORD_FALSE, KEYWORD_NULL, KEYWORD_STREAM, KEYWORD_TRUE, LESS,
    LETTER_F, LETTER_N, LETTER_R, LETTER_S, LETTER_T, LF, MINUS, PAREN_CLOSE, PAREN_OPEN, PERCENT, PLUS, SLASH, SPACE,
    TAB,
};
use crate::lex::digits_only;

verus! {

/// How many arrays and dictionaries may stand inside one another.
pub const MAX_NESTING_DEPTH: usize = 100;

/// How many parentheses a literal string may open inside its own.
pub const MAX_BRACKET: usize = 100;

/// What the framer has found out about its object.
#[derive(Clone, Copy, Debug, PartialEq, Eq, Structural)]
pub enum FrameStatus {
    /// The object may continue behind the bytes seen so far.
    NeedMore,
    /// The bytes seen so far hold the whole object.
    Ready,
    /// No continuation makes an object of the bytes seen so far.
    Invalid,
}

/// A keyword that is an object of its own.
#[derive(Clone, Copy, Debug, PartialEq, Eq, Structural)]
pub enum FrameKeyword {
    True,
    False,
    Null,
}

/// An open container: an array, or a dictionary that expects a key or a value.
#[derive(Clone, Copy, Debug, PartialEq, Eq, Structural)]
pub enum FrameContainer {
    Array,
    Key,
    Value,
}

/// The lexical state between two bytes.
#[derive(Clone, Copy, Debug, PartialEq, Eq, Structural)]
pub enum FrameLex {
    Normal,
    Comment,
    Name { hash_digits: u8, dictionary_key: bool },
    Keyword { kind: FrameKeyword, matched: usize },
    Number { start: usize, dot: bool, digits: bool, unsigned: bool },
    ReferenceGap { scalar_completion: usize },
    ReferenceSecond { scalar_completion: usize, value: u32 },
    ReferenceTail { scalar_completion: usize, second_token_end: usize, second_completion: usize },
    ReferenceComment { scalar_completion: usize, second_end: Option<usize> },
    ReferenceBoundary,
    Literal { depth: usize, escaped: bool },
    Hex,
    LessThan,
    GreaterThan,
    AfterValue,
    AfterDictionary,
    AfterComment,
    StreamToken { matched: usize },
    StreamEol,
    StreamEolCr,
}

impl FrameKeyword {
    /// The bytes that write the keyword.
    pub open spec fn text(self) -> Seq<u8> {
        match self {
            FrameKeyword::True => KEYWORD_TRUE@,
            FrameKeyword::False => KEYWORD_FALSE@,
            FrameKeyword::Null => KEYWORD_NULL@,
        }
    }

    /// How many bytes write the keyword.
    pub fn length(self) -> (r: usize)
        ensures
            r == self.text().len(),
    {
        match self {
            FrameKeyword::True => 4,
            FrameKeyword::False => 5,
            FrameKeyword::Null => 4,
        }
    }

    /// The byte of the keyword at `index`.
    pub fn byte_at(self, index: usize) -> (r: u8)
        requires
            index < self.text().len(),
        ensures
            r == self.text()[index as int],
    {
        match self {
            FrameKeyword::True => KEYWORD_TRUE[index],
            FrameKeyword::False => KEYWORD_FALSE[index],
            FrameKeyword::Null => KEYWORD_NULL[index],
        }
    }
}

/// Where a framer stands, as mathematical values.
pub struct FramerState {
    /// The next byte to look at.
    pub position: int,
    /// The open containers, outermost first.
    pub containers: Seq<FrameContainer>,
    pub lex: FrameLex,
    pub status: FrameStatus,
    /// How many bytes have been stepped over, those stepped over again included.
    pub work: int,
}

/// The text is an optional sign and at least one digit, and writes a number
/// that an `i64` holds.
pub open spec fn integer_text(text: Seq<u8>) -> bool {
    let signed = text.len() > 0 && (text[0] == PLUS || text[0] == MINUS);
    let digits = if signed {
        text.skip(1)
    } else {
        text
    };
    &&& digits.len() > 0
    &&& crate::lex::all_digits(digits)
    &&& crate::lex::decimal_value(digits) <= if text[0] == MINUS {
        0x8000_0000_0000_0000int
    } else {
        0x7fff_ffff_ffff_ffffint
    }
}

/// Digits with at most one dot among them, from `position` on; `dot` and
/// `any_digit` say what was seen before.
pub open spec fn real_tail(text: Seq<u8>, position: int, dot: bool, any_digit: bool) -> bool
    decreases text.len() - position,
{
    if position >= text.len() {
        dot && any_digit
    } else if text[position] == DOT {
        !dot && real_tail(text, position + 1, true, any_digit)
    } else {
        crate::lex::digit(text[position]) && real_tail(text, position + 1, dot, true)
    }
}

/// The text is an optional sign and digits with one dot among them.
pub open spec fn real_text(text: Seq<u8>) -> bool {
    real_tail(text, if text.len() > 0 && (text[0] == PLUS || text[0] == MINUS) { 1 } else { 0 }, false, false)
}

/// The text writes a number: with a dot a real one, else one that an `i64` holds.
pub open spec fn number_text(text: Seq<u8>, dot: bool) -> bool {
    if dot {
        real_text(text)
    } else {
        integer_text(text)
    }
}

/// The text is made of digits and writes a number that a `u32` holds.
pub open spec fn object_number_text(text: Seq<u8>) -> bool {
    crate::lex::all_digits(text) && crate::lex::decimal_value(text) <= u32::MAX
}

impl FramerState {
    /// Stays at the same byte in another lexical state.
    pub open spec fn enter(self, lex: FrameLex) -> FramerState {
        FramerState { lex, ..self }
    }

    /// Steps over one byte.
    pub open spec fn step_over(self) -> FramerState {
        FramerState { position: self.position + 1, ..self }
    }

    /// Ends with a verdict.
    pub open spec fn conclude(self, status: FrameStatus) -> FramerState {
        FramerState { status, ..self }
    }

    /// The innermost open container is a dictionary that expects a key.
    pub open spec fn expects_key(self) -> bool {
        self.containers.len() > 0 && self.containers.last() == FrameContainer::Key
    }

    /// A whole value stands before this byte.
    pub open spec fn finish(self, dictionary: bool) -> FramerState {
        if self.containers.len() == 0 {
            self.enter(if dictionary { FrameLex::AfterDictionary } else { FrameLex::AfterValue })
        } else {
            match self.containers.last() {
                FrameContainer::Value => FramerState {
                    containers: self.containers.update(self.containers.len() - 1, FrameContainer::Key),
                    ..self
                }.enter(FrameLex::Normal),
                FrameContainer::Array => self.enter(FrameLex::Normal),
                FrameContainer::Key => self.conclude(FrameStatus::Invalid),
            }
        }
    }

    /// A container opens before this byte.
    pub open spec fn open(self, container: FrameContainer) -> FramerState {
        if self.containers.len() >= MAX_NESTING_DEPTH {
            self.conclude(FrameStatus::Invalid)
        } else {
            FramerState { containers: self.containers.push(container), ..self }.enter(FrameLex::Normal)
        }
    }

    /// A container closes before this byte.
    pub open spec fn close(self, container: FrameContainer, dictionary: bool) -> FramerState {
        if self.containers.len() == 0 || self.containers.last() != container {
            self.conclude(FrameStatus::Invalid)
        } else {
            FramerState { containers: self.containers.drop_last(), ..self }.finish(dictionary)
        }
    }

    /// The integer in front of `position` is not the start of a reference.
    pub open spec fn settle_integer(self, position: int) -> FramerState {
        FramerState { position, ..self }.enter(FrameLex::Normal).finish(false)
    }

    pub open spec fn normal_step(self, byte: u8) -> FramerState {
        if self.expects_key() && byte != PERCENT && byte != SLASH && byte != GREATER && !crate::lex::whitespace(byte) {
            self.conclude(FrameStatus::Invalid)
        } else if byte == PERCENT {
            self.step_over().enter(FrameLex::Comment)
        } else if byte == PAREN_OPEN {
            self.step_over().enter(FrameLex::Literal { depth: 1, escaped: false })
        } else if byte == SLASH {
            self.step_over().enter(FrameLex::Name { hash_digits: 0, dictionary_key: self.expects_key() })
        } else if byte == LESS {
            self.step_over().enter(FrameLex::LessThan)
        } else if byte == GREATER {
            self.step_over().enter(FrameLex::GreaterThan)
        } else if byte == BRACKET_OPEN {
            self.step_over().open(FrameContainer::Array)
        } else if byte == BRACKET_CLOSE {
            self.step_over().close(FrameContainer::Array, false)
        } else if byte == LETTER_T {
            self.step_over().enter(FrameLex::Keyword { kind: FrameKeyword::True, matched: 1 })
        } else if byte == LETTER_F {
            self.step_over().enter(FrameLex::Keyword { kind: FrameKeyword::False, matched: 1 })
        } else if byte == LETTER_N {
            self.step_over().enter(FrameLex::Keyword { kind: FrameKeyword::Null, matched: 1 })
        } else if byte == PLUS || byte == MINUS || byte == DOT || crate::lex::digit(byte) {
            self.step_over().enter(
                FrameLex::Number {
                    start: self.position as usize,
                    dot: byte == DOT,
                    digits: crate::lex::digit(byte),
                    unsigned: crate::lex::digit(byte),
                },
            )
        } else if crate::lex::whitespace(byte) {
            self.step_over()
        } else {
            self.conclude(FrameStatus::Invalid)
        }
    }

    pub open spec fn name_step(self, byte: u8, hash_digits: u8, dictionary_key: bool) -> FramerState {
        if hash_digits != 0 {
            if !crate::lex::hex_digit(byte) {
                FramerState { position: self.position - 1, ..self }.finish(false)
            } else {
                self.step_over().enter(
                    FrameLex::Name { hash_digits: if hash_digits == 1 { 2u8 } else { 0u8 }, dictionary_key },
                )
            }
        } else if byte == HASH {
            self.step_over().enter(FrameLex::Name { hash_digits: 1, dictionary_key })
        } else if crate::lex::whitespace(byte) || crate::lex::delimiter(byte) {
            if dictionary_key {
                FramerState {
                    containers: self.containers.update(self.containers.len() - 1, FrameContainer::Value),
                    ..self
                }.enter(FrameLex::Normal)
            } else {
                self.finish(false)
            }
        } else {
            self.step_over()
        }
    }

    pub open spec fn keyword_step(self, byte: u8, kind: FrameKeyword, matched: usize) -> FramerState {
        if matched < kind.text().len() {
            if byte != kind.text()[matched as int] {
                self.conclude(FrameStatus::Invalid)
            } else {
                self.step_over().enter(FrameLex::Keyword { kind, matched: (matched + 1) as usize })
            }
        } else {
            self.finish(false)
        }
    }

    pub open spec fn number_step(
        self,
        input: Seq<u8>,
        start: usize,
        dot: bool,
        digits: bool,
        unsigned: bool,
    ) -> FramerState {
        let byte = input[self.position];
        let text = input.subrange(start as int, self.position);
        if crate::lex::digit(byte) {
            self.step_over().enter(FrameLex::Number { start, dot, digits: true, unsigned })
        } else if byte == DOT && !dot {
            self.step_over().enter(FrameLex::Number { start, dot: true, digits, unsigned: false })
        } else if !digits || !number_text(text, dot) {
            self.conclude(FrameStatus::Invalid)
        } else if (crate::lex::whitespace(byte) || byte == PERCENT) && unsigned && !dot && object_number_text(text) {
            self.enter(FrameLex::ReferenceGap { scalar_completion: self.position as usize })
        } else {
            self.finish(false)
        }
    }

    pub open spec fn gap_step(self, byte: u8, scalar_completion: usize) -> FramerState {
        if crate::lex::whitespace(byte) {
            self.step_over().enter(FrameLex::ReferenceGap { scalar_completion: (self.position + 1) as usize })
        } else if byte == PERCENT {
            self.step_over().enter(FrameLex::ReferenceComment { scalar_completion, second_end: None })
        } else if crate::lex::digit(byte) {
            self.step_over().enter(
                FrameLex::ReferenceSecond { scalar_completion, value: (byte - DIGIT_ZERO) as u32 },
            )
        } else {
            self.settle_integer(scalar_completion as int)
        }
    }

    pub open spec fn second_step(self, byte: u8, scalar_completion: usize, value: u32) -> FramerState {
        if crate::lex::digit(byte) {
            let next = value * 10 + (byte - DIGIT_ZERO);
            if next <= u16::MAX {
                self.step_over().enter(FrameLex::ReferenceSecond { scalar_completion, value: next as u32 })
            } else if self.containers.len() == 0 {
                self.settle_integer(scalar_completion as int)
            } else {
                let settled = self.finish(false);
                if settled.status != FrameStatus::NeedMore {
                    settled
                } else {
                    settled.enter(
                        FrameLex::Number { start: scalar_completion, dot: false, digits: true, unsigned: true },
                    )
                }
            }
        } else {
            self.enter(
                FrameLex::ReferenceTail {
                    scalar_completion,
                    second_token_end: self.position as usize,
                    second_completion: self.position as usize,
                },
            )
        }
    }

    pub open spec fn tail_step(
        self,
        byte: u8,
        scalar_completion: usize,
        second_token_end: usize,
        second_completion: usize,
    ) -> FramerState {
        if crate::lex::whitespace(byte) {
            self.step_over().enter(
                FrameLex::ReferenceTail {
                    scalar_completion,
                    second_token_end,
                    second_completion: (self.position + 1) as usize,
                },
            )
        } else if byte == PERCENT {
            self.step_over().enter(
                FrameLex::ReferenceComment { scalar_completion, second_end: Some(second_token_end) },
            )
        } else if byte == LETTER_R {
            self.step_over().enter(FrameLex::ReferenceBoundary)
        } else if byte == DOT && self.position == second_token_end {
            if self.containers.len() == 0 {
                self.settle_integer(scalar_completion as int)
            } else {
                let settled = self.finish(false);
                if settled.status != FrameStatus::NeedMore {
                    settled
                } else {
                    settled.step_over().enter(
                        FrameLex::Number { start: scalar_completion, dot: true, digits: true, unsigned: false },
                    )
                }
            }
        } else {
            let settled = FramerState { position: scalar_completion as int, ..self }.finish(false);
            if self.containers.len() == 0 || settled.status != FrameStatus::NeedMore {
                settled
            } else {
                FramerState { position: self.position, ..settled }.enter(
                    FrameLex::ReferenceGap { scalar_completion: second_completion },
                )
            }
        }
    }

    pub open spec fn reference_comment_step(
        self,
        byte: u8,
        scalar_completion: usize,
        second_token_end: Option<usize>,
    ) -> FramerState {
        if crate::lex::line_end(byte) {
            match second_token_end {
                Some(end) => self.step_over().enter(
                    FrameLex::ReferenceTail {
                        scalar_completion,
                        second_token_end: end,
                        second_completion: (self.position + 1) as usize,
                    },
                ),
                None => self.step_over().enter(
                    FrameLex::ReferenceGap { scalar_completion: (self.position + 1) as usize },
                ),
            }
        } else {
            self.step_over()
        }
    }

    pub open spec fn literal_step(self, byte: u8, depth: usize, escaped: bool) -> FramerState {
        let next = self.step_over();
        if escaped {
            next.enter(FrameLex::Literal { depth, escaped: false })
        } else if byte == BACKSLASH {
            next.enter(FrameLex::Literal { depth, escaped: true })
        } else if byte == PAREN_OPEN {
            if depth > MAX_BRACKET {
                next.conclude(FrameStatus::Invalid)
            } else {
                next.enter(FrameLex::Literal { depth: (depth + 1) as usize, escaped: false })
            }
        } else if byte == PAREN_CLOSE {
            if depth == 1 {
                next.finish(false)
            } else {
                next.enter(FrameLex::Literal { depth: (depth - 1) as usize, escaped: false })
            }
        } else {
            next
        }
    }

    pub open spec fn hex_step(self, byte: u8) -> FramerState {
        if byte == GREATER {
            self.step_over().finish(false)
        } else if crate::lex::hex_digit(byte) || crate::lex::whitespace(byte) {
            self.step_over()
        } else {
            self.conclude(FrameStatus::Invalid)
        }
    }

    pub open spec fn after_dictionary_step(self, byte: u8) -> FramerState {
        if byte == PERCENT {
            self.step_over().enter(FrameLex::AfterComment)
        } else if crate::lex::whitespace(byte) {
            self.step_over()
        } else if byte == LETTER_S {
            self.step_over().enter(FrameLex::StreamToken { matched: 1 })
        } else {
            self.conclude(FrameStatus::Ready)
        }
    }

    pub open spec fn stream_eol_step(self, byte: u8) -> FramerState {
        if byte == SPACE || byte == TAB {
            self.step_over()
        } else if byte == CR {
            self.step_over().enter(FrameLex::StreamEolCr)
        } else if byte == LF {
            self.step_over().conclude(FrameStatus::Ready)
        } else {
            self.conclude(FrameStatus::Ready)
        }
    }

    pub open spec fn stream_token_step(self, byte: u8, matched: usize) -> FramerState {
        if matched < KEYWORD_STREAM@.len() {
            if byte != KEYWORD_STREAM@[matched as int] {
                self.conclude(FrameStatus::Ready)
            } else {
                self.step_over().enter(FrameLex::StreamToken { matched: (matched + 1) as usize })
            }
        } else if !crate::lex::whitespace(byte) && !crate::lex::delimiter(byte) {
            self.conclude(FrameStatus::Ready)
        } else {
            self.enter(FrameLex::StreamEol).stream_eol_step(byte)
        }
    }

    /// What one step does with the byte at the current position.
    pub open spec fn lex_step(self, input: Seq<u8>) -> FramerState {
        let byte = input[self.position];
        match self.lex {
            FrameLex::Normal => self.normal_step(byte),
            FrameLex::Comment => if crate::lex::line_end(byte) {
                self.step_over().enter(FrameLex::Normal)
            } else {
                self.step_over()
            },
            FrameLex::Name { hash_digits, dictionary_key } => self.name_step(byte, hash_digits, dictionary_key),
            FrameLex::Keyword { kind, matched } => self.keyword_step(byte, kind, matched),
            FrameLex::Number { start, dot, digits, unsigned } => self.number_step(input, start, dot, digits, unsigned),
            FrameLex::ReferenceGap { scalar_completion } => self.gap_step(byte, scalar_completion),
            FrameLex::ReferenceSecond { scalar_completion, value } => self.second_step(byte, scalar_completion, value),
            FrameLex::ReferenceTail { scalar_completion, second_token_end, second_completion } => self.tail_step(
                byte,
                scalar_completion,
                second_token_end,
                second_completion,
            ),
            FrameLex::ReferenceComment { scalar_completion, second_end } => self.reference_comment_step(
                byte,
                scalar_completion,
                second_end,
            ),
            FrameLex::ReferenceBoundary => self.finish(false),
            FrameLex::Literal { depth, escaped } => self.literal_step(byte, depth, escaped),
            FrameLex::Hex => self.hex_step(byte),
            FrameLex::LessThan => if byte == LESS {
                self.step_over().open(FrameContainer::Key)
            } else {
                self.enter(FrameLex::Hex)
            },
            FrameLex::GreaterThan => if byte == GREATER {
                self.step_over().close(FrameContainer::Key, true)
            } else {
                self.conclude(FrameStatus::Invalid)
            },
            FrameLex::AfterValue => self.conclude(FrameStatus::Ready),
            FrameLex::AfterDictionary => self.after_dictionary_step(byte),
            FrameLex::AfterComment => if crate::lex::line_end(byte) {
                self.step_over().enter(FrameLex::AfterDictionary)
            } else {
                self.step_over()
            },
            FrameLex::StreamToken { matched } => self.stream_token_step(byte, matched),
            FrameLex::StreamEol => self.stream_eol_step(byte),
            FrameLex::StreamEolCr => if byte == LF {
                self.step_over().conclude(FrameStatus::Ready)
            } else {
                self.conclude(FrameStatus::Ready)
            },
        }
    }

    /// One step, with the bytes that it steps over counted.
    pub open spec fn step(self, input: Seq<u8>) -> FramerState {
        let next = self.lex_step(input);
        let moved = if next.position > self.position {
            next.position - self.position
        } else {
            0
        };
        let work = if self.work + moved > usize::MAX {
            usize::MAX as int
        } else {
            self.work + moved
        };
        FramerState { work, ..next }
    }

    /// The position that the lexical state remembers lies where it has to.
    pub open spec fn lex_well_formed(self) -> bool {
        match self.lex {
            FrameLex::Name { hash_digits, dictionary_key } => {
                &&& hash_digits <= 2
                &&& hash_digits != 0 ==> self.position > 0
                &&& dictionary_key ==> self.containers.len() > 0
            },
            FrameLex::Keyword { kind, matched } => matched <= kind.text().len(),
            FrameLex::Number { start, .. } => start <= self.position,
            FrameLex::ReferenceGap { scalar_completion } => scalar_completion == self.position,
            FrameLex::ReferenceSecond { scalar_completion, value } => {
                &&& scalar_completion <= self.position
                &&& value <= u16::MAX
            },
            FrameLex::ReferenceTail { scalar_completion, second_completion, .. } => {
                &&& scalar_completion <= self.position
                &&& second_completion == self.position
            },
            FrameLex::ReferenceComment { scalar_completion, .. } => scalar_completion <= self.position,
            FrameLex::Literal { depth, .. } => 1 <= depth <= MAX_BRACKET + 1,
            FrameLex::StreamToken { matched } => matched <= KEYWORD_STREAM@.len(),
            _ => true,
        }
    }

    /// What every framer keeps.
    pub open spec fn well_formed(self) -> bool {
        &&& 0 <= self.position <= usize::MAX
        &&& 0 <= self.work <= usize::MAX
        &&& self.containers.len() <= MAX_NESTING_DEPTH
        &&& self.status == FrameStatus::NeedMore ==> self.lex_well_formed()
    }

    /// How far the lexical state is from handing the current byte on.
    pub open spec fn rank(self) -> int {
        match self.lex {
            FrameLex::Name { hash_digits, .. } => if hash_digits == 0 {
                2
            } else {
                4
            },
            FrameLex::ReferenceSecond { .. } => 3,
            FrameLex::Number { .. } => 2,
            FrameLex::ReferenceTail { .. } => 2,
            FrameLex::Keyword { .. } => 1,
            FrameLex::ReferenceGap { .. } => 1,
            FrameLex::ReferenceBoundary => 1,
            FrameLex::LessThan => 1,
            _ => 0,
        }
    }

    /// A settled value is one step from the verdict.
    pub open spec fn unsettled(self) -> int {
        if self.status != FrameStatus::NeedMore {
            0
        } else if self.lex == FrameLex::AfterValue {
            1
        } else {
            2
        }
    }

    /// What is left to do before the input of `length` bytes is used up.
    pub open spec fn fuel(self, length: int) -> int {
        3 * (length - self.position) + self.rank()
    }

    /// Steps until a verdict is reached or the input is used up.
    pub open spec fn run(self, input: Seq<u8>) -> FramerState
        decreases self.unsettled(), self.fuel(input.len() as int),
        when self.well_formed() && input.len() <= usize::MAX
    {
        if self.status == FrameStatus::NeedMore && self.position < input.len() {
            proof {
                lemma_step(self, input);
            }
            self.step(input).run(input)
        } else {
            self
        }
    }
}

/// A step keeps what every framer keeps, stays inside the input, and leaves less to do.
#[verifier::rlimit(80)]
pub proof fn lemma_step(s: FramerState, input: Seq<u8>)
    requires
        s.well_formed(),
        s.status == FrameStatus::NeedMore,
        s.position < input.len() <= usize::MAX,
    ensures
        s.step(input).well_formed(),
        s.step(input).position <= input.len(),
        decreases_to!(s.unsettled(), s.fuel(input.len() as int) => s.step(input).unsettled(),
            s.step(input).fuel(input.len() as int)),
{
}

/// Looking at a longer input changes no step that the shorter one admits.
pub proof fn lemma_step_local(s: FramerState, prefix: Seq<u8>, input: Seq<u8>)
    requires
        s.well_formed(),
        s.status == FrameStatus::NeedMore,
        s.position < prefix.len() <= input.len(),
        input.take(prefix.len() as int) == prefix,
    ensures
        s.step(prefix) == s.step(input),
{
    assert(prefix[s.position] == input.take(prefix.len() as int)[s.position]);
    if let FrameLex::Number { start, .. } = s.lex {
        assert forall|i: int| 0 <= i < prefix.len() implies prefix[i] == input[i] by {
            assert(prefix[i] == input.take(prefix.len() as int)[i]);
        }
        assert(prefix.subrange(start as int, s.position) =~= input.subrange(start as int, s.position));
    }
}

/// Framing is resumable: a framer that has seen any prefix of an input and then
/// sees the whole input stands where one that sees the whole input at once stands.
pub proof fn law_framing_resumes(s: FramerState, prefix: Seq<u8>, input: Seq<u8>)
    requires
        s.well_formed(),
        prefix.len() <= input.len() <= usize::MAX,
        input.take(prefix.len() as int) == prefix,
    ensures
        s.run(prefix).run(input) == s.run(input),
    decreases s.unsettled(), s.fuel(prefix.len() as int),
{
    if s.status == FrameStatus::NeedMore && s.position < prefix.len() {
        lemma_step(s, prefix);
        lemma_step_local(s, prefix, input);
        law_framing_resumes(s.step(prefix), prefix, input);
    }
}

/// A framer keeps its invariant, and stays inside the bytes it has been shown.
pub proof fn law_framing_stays_inside(s: FramerState, input: Seq<u8>)
    requires
        s.well_formed(),
        input.len() <= usize::MAX,
    ensures
        s.run(input).well_formed(),
        s.position <= input.len() ==> s.run(input).position <= input.len(),
        s.run(input).status == FrameStatus::NeedMore ==> s.run(input).position >= input.len(),
    decreases s.unsettled(), s.fuel(input.len() as int),
{
    if s.status == FrameStatus::NeedMore && s.position < input.len() {
        lemma_step(s, input);
        law_framing_stays_inside(s.step(input), input);
    }
}

/// A verdict is final: no further bytes change it.
pub proof fn law_verdict_is_final(s: FramerState, input: Seq<u8>)
    requires
        s.well_formed(),
        s.status != FrameStatus::NeedMore,
        input.len() <= usize::MAX,
    ensures
        s.run(input) == s,
{
}

/// Reports whether the bytes between `start` and `end` write a number that an
/// `i64` holds.
fn is_integer_text(input: &[u8], start: usize, end: usize) -> (r: bool)
    requires
        start <= end <= input@.len(),
    ensures
        r == integer_text(input@.subrange(start as int, end as int)),
{
    let ghost text = input@.subrange(start as int, end as int);
    if start == end {
        return false;
    }
    let negative: bool = input[start] == MINUS;
    let first: usize = if negative || input[start] == PLUS {
        start + 1
    } else {
        start
    };
    let ghost digits = input@.subrange(first as int, end as int);
    assert(digits =~= if first == start {
        text
    } else {
        text.skip(1)
    });
    if first == end || !digits_only(input, first, end) {
        return false;
    }
    let limit: u64 = if negative {
        0x8000_0000_0000_0000
    } else {
        0x7fff_ffff_ffff_ffff
    };
    read_decimal(input, first, end, limit).is_some()
}

/// Reports whether the bytes between `start` and `end` are an optional sign and
/// digits with one dot among them.
fn is_real_text(input: &[u8], start: usize, end: usize) -> (r: bool)
    requires
        start <= end <= input@.len(),
    ensures
        r == real_text(input@.subrange(start as int, end as int)),
{
    let ghost text = input@.subrange(start as int, end as int);
    let mut position: usize = start;
    if start < end && (input[start] == PLUS || input[start] == MINUS) {
        position += 1;
    }
    let mut dot: bool = false;
    let mut any_digit: bool = false;
    while position < end
        invariant
            start <= position <= end <= input@.len(),
            text == input@.subrange(start as int, end as int),
            real_text(text) == real_tail(text, position - start, dot, any_digit),
        decreases end - position,
    {
        let byte: u8 = input[position];
        assert(byte == text[position - start]);
        if byte == DOT {
            if dot {
                return false;
            }
            dot = true;
        } else if is_digit(byte) {
            any_digit = true;
        } else {
            return false;
        }
        position += 1;
    }
    dot && any_digit
}

/// Incrementally frames one direct object and a possible `stream` header behind
/// a dictionary. Each call of [`DirectObjectFramer::advance`] is handed the
/// window from its first byte on, and goes on where the last one stopped.
pub struct DirectObjectFramer {
    position: usize,
    containers: Vec<FrameContainer>,
    lex: FrameLex,
    status: FrameStatus,
    scanned_work: usize,
}

impl DirectObjectFramer {
    /// Where the framer stands.
    pub closed spec fn view(&self) -> FramerState {
        FramerState {
            position: self.position as int,
            containers: self.containers@,
            lex: self.lex,
            status: self.status,
            work: self.scanned_work as int,
        }
    }

    /// A framer in front of an object.
    pub fn new() -> (framer: Self)
        ensures
            framer@.well_formed(),
            framer@ == initial_framer(),
    {
        DirectObjectFramer {
            position: 0,
            containers: Vec::new(),
            lex: FrameLex::Normal,
            status: FrameStatus::NeedMore,
            scanned_work: 0,
        }
    }

    /// A framer that has seen `input`, where that opens a dictionary.
    pub fn for_dictionary(input: &[u8]) -> (r: Option<Self>)
        ensures
            r is Some <==> input@.len() >= 2 && input@[0] == LESS && input@[1] == LESS,
            r matches Some(framer) ==> framer@ == initial_framer().run(input@) && framer@.well_formed(),
    {
        if input.len() < 2 || input[0] != LESS || input[1] != LESS {
            return None;
        }
        let mut framer = DirectObjectFramer::new();
        let _ = framer.advance(input);
        Some(framer)
    }

    /// How many bytes have been stepped over.
    pub fn scanned_work(&self) -> (r: usize)
        ensures
            r == self@.work,
    {
        self.scanned_work
    }

    /// The verdict so far.
    pub fn status(&self) -> (r: FrameStatus)
        ensures
            r == self@.status,
    {
        self.status
    }

    /// Goes on with the window `input`, which starts with what was shown before.
    pub fn advance(&mut self, input: &[u8]) -> (r: FrameStatus)
        requires
            old(self)@.well_formed(),
        ensures
            final(self)@.well_formed(),
            final(self)@ == old(self)@.run(input@),
            r == final(self)@.status,
    {
        let length: usize = input.len();
        let ghost start = self@;
        while self.status == FrameStatus::NeedMore && self.position < length
            invariant
                length == input@.len(),
                self@.well_formed(),
                start.well_formed(),
                start.run(input@) == self@.run(input@),
            decreases self@.unsettled(), self@.fuel(length as int),
        {
            let ghost before = self@;
            proof {
                lemma_step(before, input@);
            }
            let position: usize = self.position;
            match self.lex {
                FrameLex::Normal => self.advance_normal(input),
                FrameLex::Comment => self.advance_comment(input),
                FrameLex::Name { hash_digits, dictionary_key } => self.advance_name(
                    input,
                    hash_digits,
                    dictionary_key,
                ),
                FrameLex::Keyword { kind, matched } => self.advance_keyword(input, kind, matched),
                FrameLex::Number { start, dot, digits, unsigned } => self.advance_number(
                    input,
                    start,
                    dot,
                    digits,
                    unsigned,
                ),
                FrameLex::ReferenceGap { scalar_completion } => self.advance_reference_gap(input, scalar_completion),
                FrameLex::ReferenceSecond { scalar_completion, value } => self.advance_reference_second(
                    input,
                    scalar_completion,
                    value,
                ),
                FrameLex::ReferenceTail { scalar_completion, second_token_end, second_completion } => {
                    self.advance_reference_tail(input, scalar_completion, second_token_end, second_completion)
                },
                FrameLex::ReferenceComment { scalar_completion, second_end } => self.advance_reference_comment(
                    input,
                    scalar_completion,
                    second_end,
                ),
                FrameLex::ReferenceBoundary => self.advance_reference_boundary(),
                FrameLex::Literal { depth, escaped } => self.advance_literal(input, depth, escaped),
                FrameLex::Hex => self.advance_hex(input),
                FrameLex::LessThan => self.advance_less_than(input),
                FrameLex::GreaterThan => self.advance_greater_than(input),
                FrameLex::AfterValue => self.status = FrameStatus::Ready,
                FrameLex::AfterDictionary => self.advance_after_dictionary(input),
                FrameLex::AfterComment => self.advance_after_comment(input),
                FrameLex::StreamToken { matched } => self.advance_stream_token(input, matched),
                FrameLex::StreamEol => self.advance_stream_eol(input),
                FrameLex::StreamEolCr => self.advance_stream_eol_cr(input),
            }
            assert(self@ == before.lex_step(input@));
            let moved: usize = self.position.saturating_sub(position);
            self.scanned_work = self.scanned_work.saturating_add(moved);
            assert(self@ == before.step(input@));
        }
        self.status
    }

    /// The framer may look at the byte at its position.
    spec fn may_step(&self, input: Seq<u8>) -> bool {
        &&& self@.well_formed()
        &&& self@.status == FrameStatus::NeedMore
        &&& self@.position < input.len() <= usize::MAX
    }

    fn advance_normal(&mut self, input: &[u8])
        requires
            old(self).may_step(input@),
        ensures
            final(self)@ == old(self)@.normal_step(input@[old(self)@.position]),
    {
        let byte: u8 = input[self.position];
        let depth: usize = self.containers.len();
        let expects_key: bool = depth != 0 && self.containers[depth - 1] == FrameContainer::Key;
        if expects_key && byte != PERCENT && byte != SLASH && byte != GREATER && !is_pdf_whitespace(byte) {
            self.status = FrameStatus::Invalid;
            return;
        }
        match byte {
            PERCENT => {
                self.position += 1;
                self.lex = FrameLex::Comment;
            },
            PAREN_OPEN => {
                self.position += 1;
                self.lex = FrameLex::Literal { depth: 1, escaped: false };
            },
            SLASH => {
                self.position += 1;
                self.lex = FrameLex::Name { hash_digits: 0, dictionary_key: expects_key };
            },
            LESS => {
                self.position += 1;
                self.lex = FrameLex::LessThan;
            },
            GREATER => {
                self.position += 1;
                self.lex = FrameLex::GreaterThan;
            },
            BRACKET_OPEN => {
                self.position += 1;
                self.push_container(FrameContainer::Array);
            },
            BRACKET_CLOSE => {
                self.position += 1;
                self.close_container(FrameContainer::Array, false);
            },
            LETTER_T => self.start_keyword(FrameKeyword::True),
            LETTER_F => self.start_keyword(FrameKeyword::False),
            LETTER_N => self.start_keyword(FrameKeyword::Null),
            _ => {
                if byte == PLUS || byte == MINUS || byte == DOT || is_digit(byte) {
                    self.start_number(byte);
                } else if is_pdf_whitespace(byte) {
                    self.position += 1;
                } else {
                    self.status = FrameStatus::Invalid;
                }
            },
        }
    }

    fn advance_comment(&mut self, input: &[u8])
        requires
            old(self).may_step(input@),
            old(self)@.lex == FrameLex::Comment,
        ensures
            final(self)@ == old(self)@.lex_step(input@),
    {
        let byte: u8 = input[self.position];
        self.position += 1;
        if is_line_end(byte) {
            self.lex = FrameLex::Normal;
        }
    }

    fn advance_name(&mut self, input: &[u8], hash_digits: u8, dictionary_key: bool)
        requires
            old(self).may_step(input@),
            old(self)@.lex == (FrameLex::Name { hash_digits, dictionary_key }),
        ensures
            final(self)@ == old(self)@.name_step(input@[old(self)@.position], hash_digits, dictionary_key),
    {
        let byte: u8 = input[self.position];
        if hash_digits != 0 {
            if !is_hex_digit(byte) {
                // The name is the valid prefix in front of a malformed escape.
                self.position -= 1;
                self.finish_value(false);
                return;
            }
            self.position += 1;
            self.lex = FrameLex::Name { hash_digits: if hash_digits == 1 { 2 } else { 0 }, dictionary_key };
        } else if byte == HASH {
            self.position += 1;
            self.lex = FrameLex::Name { hash_digits: 1, dictionary_key };
        } else if is_pdf_whitespace(byte) || is_pdf_delimiter(byte) {
            if dictionary_key {
                let depth: usize = self.containers.len();
                self.containers.set(depth - 1, FrameContainer::Value);
                self.lex = FrameLex::Normal;
            } else {
                self.finish_value(false);
            }
        } else {
            self.position += 1;
        }
    }

    fn start_keyword(&mut self, kind: FrameKeyword)
        requires
            old(self)@.position < usize::MAX,
        ensures
            final(self)@ == old(self)@.step_over().enter(FrameLex::Keyword { kind, matched: 1 }),
    {
        self.position += 1;
        self.lex = FrameLex::Keyword { kind, matched: 1 };
    }

    fn advance_keyword(&mut self, input: &[u8], kind: FrameKeyword, matched: usize)
        requires
            old(self).may_step(input@),
        ensures
            final(self)@ == old(self)@.keyword_step(input@[old(self)@.position], kind, matched),
    {
        let byte: u8 = input[self.position];
        if matched < kind.length() {
            if byte != kind.byte_at(matched) {
                self.status = FrameStatus::Invalid;
            } else {
                self.position += 1;
                self.lex = FrameLex::Keyword { kind, matched: matched + 1 };
            }
        } else {
            self.finish_value(false);
        }
    }

    fn start_number(&mut self, byte: u8)
        requires
            old(self)@.position < usize::MAX,
        ensures
            final(self)@ == old(self)@.step_over().enter(
                FrameLex::Number {
                    start: old(self)@.position as usize,
                    dot: byte == DOT,
                    digits: crate::lex::digit(byte),
                    unsigned: crate::lex::digit(byte),
                },
            ),
    {
        let start: usize = self.position;
        self.position += 1;
        self.lex = FrameLex::Number { start, dot: byte == DOT, digits: is_digit(byte), unsigned: is_digit(byte) };
    }

    fn advance_number(&mut self, input: &[u8], start: usize, dot: bool, digits: bool, unsigned: bool)
        requires
            old(self).may_step(input@),
            start <= old(self)@.position,
        ensures
            final(self)@ == old(self)@.number_step(input@, start, dot, digits, unsigned),
    {
        let byte: u8 = input[self.position];
        if is_digit(byte) {
            self.position += 1;
            self.lex = FrameLex::Number { start, dot, digits: true, unsigned };
        } else if byte == DOT && !dot {
            self.position += 1;
            self.lex = FrameLex::Number { start, dot: true, digits, unsigned: false };
        } else if !digits || !self.number_is_valid(input, start, dot) {
            self.status = FrameStatus::Invalid;
        } else if (is_pdf_whitespace(byte) || byte == PERCENT) && unsigned && !dot && digits_only(
            input,
            start,
            self.position,
        ) && read_decimal(input, start, self.position, u32::MAX as u64).is_some() {
            self.lex = FrameLex::ReferenceGap { scalar_completion: self.position };
        } else {
            self.finish_value(false);
        }
    }

    fn number_is_valid(&self, input: &[u8], start: usize, dot: bool) -> (r: bool)
        requires
            start <= self@.position <= input@.len(),
        ensures
            r == number_text(input@.subrange(start as int, self@.position), dot),
    {
        if dot {
            is_real_text(input, start, self.position)
        } else {
            is_integer_text(input, start, self.position)
        }
    }

    fn advance_reference_gap(&mut self, input: &[u8], scalar_completion: usize)
        requires
            old(self).may_step(input@),
        ensures
            final(self)@ == old(self)@.gap_step(input@[old(self)@.position], scalar_completion),
    {
        let byte: u8 = input[self.position];
        if is_pdf_whitespace(byte) {
            self.position += 1;
            self.lex = FrameLex::ReferenceGap { scalar_completion: self.position };
        } else if byte == PERCENT {
            self.position += 1;
            self.lex = FrameLex::ReferenceComment { scalar_completion, second_end: None };
        } else if is_digit(byte) {
            self.position += 1;
            self.lex = FrameLex::ReferenceSecond { scalar_completion, value: (byte - DIGIT_ZERO) as u32 };
        } else {
            self.fallback_integer(scalar_completion);
        }
    }

    fn advance_reference_second(&mut self, input: &[u8], scalar_completion: usize, value: u32)
        requires
            old(self).may_step(input@),
            value <= u16::MAX,
        ensures
            final(self)@ == old(self)@.second_step(input@[old(self)@.position], scalar_completion, value),
    {
        let byte: u8 = input[self.position];
        if is_digit(byte) {
            let next: u32 = value * 10 + (byte - DIGIT_ZERO) as u32;
            if next <= u16::MAX as u32 {
                self.position += 1;
                self.lex = FrameLex::ReferenceSecond { scalar_completion, value: next };
            } else {
                // No generation is larger: what was scanned is an integer that goes on.
                self.continue_second_integer(scalar_completion);
            }
        } else {
            self.lex =
            FrameLex::ReferenceTail {
                scalar_completion,
                second_token_end: self.position,
                second_completion: self.position,
            };
        }
    }

    fn advance_reference_tail(
        &mut self,
        input: &[u8],
        scalar_completion: usize,
        second_token_end: usize,
        second_completion: usize,
    )
        requires
            old(self).may_step(input@),
        ensures
            final(self)@ == old(self)@.tail_step(
                input@[old(self)@.position],
                scalar_completion,
                second_token_end,
                second_completion,
            ),
    {
        let byte: u8 = input[self.position];
        if is_pdf_whitespace(byte) {
            self.position += 1;
            self.lex =
            FrameLex::ReferenceTail { scalar_completion, second_token_end, second_completion: self.position };
        } else if byte == PERCENT {
            self.position += 1;
            self.lex = FrameLex::ReferenceComment { scalar_completion, second_end: Some(second_token_end) };
        } else if byte == LETTER_R {
            self.position += 1;
            self.lex = FrameLex::ReferenceBoundary;
        } else if byte == DOT && self.position == second_token_end {
            self.continue_adjacent_real(scalar_completion);
        } else {
            self.fallback_two_integers(scalar_completion, second_completion);
        }
    }

    fn advance_reference_comment(
        &mut self,
        input: &[u8],
        scalar_completion: usize,
        second_token_end: Option<usize>,
    )
        requires
            old(self).may_step(input@),
        ensures
            final(self)@ == old(self)@.reference_comment_step(
                input@[old(self)@.position],
                scalar_completion,
                second_token_end,
            ),
    {
        let byte: u8 = input[self.position];
        self.position += 1;
        if is_line_end(byte) {
            self.lex =
            match second_token_end {
                Some(end) => FrameLex::ReferenceTail {
                    scalar_completion,
                    second_token_end: end,
                    second_completion: self.position,
                },
                None => FrameLex::ReferenceGap { scalar_completion: self.position },
            };
        }
    }

    fn advance_reference_boundary(&mut self)
        ensures
            final(self)@ == old(self)@.finish(false),
    {
        // A reference ends at its `R` whatever byte follows.
        self.finish_value(false);
    }

    fn fallback_integer(&mut self, fallback: usize)
        ensures
            final(self)@ == old(self)@.settle_integer(fallback as int),
    {
        self.position = fallback;
        self.lex = FrameLex::Normal;
        self.finish_value(false);
    }

    fn continue_adjacent_real(&mut self, second_token_start: usize)
        requires
            old(self)@.position < usize::MAX,
        ensures
            final(self)@ == (if old(self)@.containers.len() == 0 {
                old(self)@.settle_integer(second_token_start as int)
            } else if old(self)@.finish(false).status != FrameStatus::NeedMore {
                old(self)@.finish(false)
            } else {
                old(self)@.finish(false).step_over().enter(
                    FrameLex::Number { start: second_token_start, dot: true, digits: true, unsigned: false },
                )
            }),
    {
        if self.containers.len() == 0 {
            self.fallback_integer(second_token_start);
            return;
        }
        self.finish_value(false);
        if self.status != FrameStatus::NeedMore {
            return;
        }
        self.position += 1;
        self.lex = FrameLex::Number { start: second_token_start, dot: true, digits: true, unsigned: false };
    }

    fn continue_second_integer(&mut self, second_token_start: usize)
        ensures
            final(self)@ == (if old(self)@.containers.len() == 0 {
                old(self)@.settle_integer(second_token_start as int)
            } else if old(self)@.finish(false).status != FrameStatus::NeedMore {
                old(self)@.finish(false)
            } else {
                old(self)@.finish(false).enter(
                    FrameLex::Number { start: second_token_start, dot: false, digits: true, unsigned: true },
                )
            }),
    {
        if self.containers.len() == 0 {
            self.fallback_integer(second_token_start);
            return;
        }
        self.finish_value(false);
        if self.status != FrameStatus::NeedMore {
            return;
        }
        self.lex = FrameLex::Number { start: second_token_start, dot: false, digits: true, unsigned: true };
    }

    fn fallback_two_integers(&mut self, second_token_start: usize, second_completion: usize)
        ensures
            ({
                let settled = FramerState { position: second_token_start as int, ..old(self)@ }.finish(false);
                final(self)@ == if old(self)@.containers.len() == 0 || settled.status != FrameStatus::NeedMore {
                    settled
                } else {
                    FramerState { position: old(self)@.position, ..settled }.enter(
                        FrameLex::ReferenceGap { scalar_completion: second_completion },
                    )
                }
            }),
    {
        let probe_position: usize = self.position;
        let top_level: bool = self.containers.len() == 0;
        self.position = second_token_start;
        self.finish_value(false);
        if top_level || self.status != FrameStatus::NeedMore {
            return;
        }
        // Only the first integer is settled: the second may begin a reference,
        // as in `255 34473 0 R`.

        self.position = probe_position;
        self.lex = FrameLex::ReferenceGap { scalar_completion: second_completion };
    }

    fn advance_literal(&mut self, input: &[u8], depth: usize, escaped: bool)
        requires
            old(self).may_step(input@),
            1 <= depth <= MAX_BRACKET + 1,
        ensures
            final(self)@ == old(self)@.literal_step(input@[old(self)@.position], depth, escaped),
    {
        let byte: u8 = input[self.position];
        self.position += 1;
        if escaped {
            self.lex = FrameLex::Literal { depth, escaped: false };
            return;
        }
        match byte {
            BACKSLASH => {
                self.lex = FrameLex::Literal { depth, escaped: true };
            },
            PAREN_OPEN => {
                if depth > MAX_BRACKET {
                    self.status = FrameStatus::Invalid;
                    return;
                }
                self.lex = FrameLex::Literal { depth: depth + 1, escaped: false };
            },
            PAREN_CLOSE => {
                if depth == 1 {
                    self.finish_value(false);
                } else {
                    self.lex = FrameLex::Literal { depth: depth - 1, escaped: false };
                }
            },
            _ => {},
        }
    }

    fn advance_hex(&mut self, input: &[u8])
        requires
            old(self).may_step(input@),
        ensures
            final(self)@ == old(self)@.hex_step(input@[old(self)@.position]),
    {
        let byte: u8 = input[self.position];
        if byte == GREATER {
            self.position += 1;
            self.finish_value(false);
        } else if is_hex_digit(byte) || is_pdf_whitespace(byte) {
            self.position += 1;
        } else {
            self.status = FrameStatus::Invalid;
        }
    }

    fn advance_less_than(&mut self, input: &[u8])
        requires
            old(self).may_step(input@),
            old(self)@.lex == FrameLex::LessThan,
        ensures
            final(self)@ == old(self)@.lex_step(input@),
    {
        if input[self.position] == LESS {
            self.position += 1;
            self.push_container(FrameContainer::Key);
        } else {
            self.lex = FrameLex::Hex;
        }
    }

    fn advance_greater_than(&mut self, input: &[u8])
        requires
            old(self).may_step(input@),
            old(self)@.lex == FrameLex::GreaterThan,
        ensures
            final(self)@ == old(self)@.lex_step(input@),
    {
        if input[self.position] != GREATER {
            self.status = FrameStatus::Invalid;
            return;
        }
        self.position += 1;
        self.close_container(FrameContainer::Key, true);
    }

    fn push_container(&mut self, container: FrameContainer)
        ensures
            final(self)@ == old(self)@.open(container),
    {
        if self.containers.len() >= MAX_NESTING_DEPTH {
            self.status = FrameStatus::Invalid;
        } else {
            self.containers.push(container);
            self.lex = FrameLex::Normal;
        }
    }

    fn close_container(&mut self, container: FrameContainer, dictionary: bool)
        ensures
            final(self)@ == old(self)@.close(container, dictionary),
    {
        let depth: usize = self.containers.len();
        if depth == 0 || self.containers[depth - 1] != container {
            self.status = FrameStatus::Invalid;
            return;
        }
        self.containers.pop();
        assert(self.containers@ =~= old(self).containers@.drop_last());
        self.finish_value(dictionary);
    }

    fn finish_value(&mut self, dictionary: bool)
        ensures
            final(self)@ == old(self)@.finish(dictionary),
    {
        let depth: usize = self.containers.len();
        if depth == 0 {
            // A following byte tells a complete object from a window that ends with it.
            self.lex = if dictionary {
                FrameLex::AfterDictionary
            } else {
                FrameLex::AfterValue
            };
        } else {
            match self.containers[depth - 1] {
                FrameContainer::Value => {
                    self.containers.set(depth - 1, FrameContainer::Key);
                    self.lex = FrameLex::Normal;
                },
                FrameContainer::Array => {
                    self.lex = FrameLex::Normal;
                },
                FrameContainer::Key => {
                    self.status = FrameStatus::Invalid;
                },
            }
        }
    }

    fn advance_after_dictionary(&mut self, input: &[u8])
        requires
            old(self).may_step(input@),
        ensures
            final(self)@ == old(self)@.after_dictionary_step(input@[old(self)@.position]),
    {
        let byte: u8 = input[self.position];
        if byte == PERCENT {
            self.position += 1;
            self.lex = FrameLex::AfterComment;
        } else if is_pdf_whitespace(byte) {
            self.position += 1;
        } else if byte == LETTER_S {
            self.position += 1;
            self.lex = FrameLex::StreamToken { matched: 1 };
        } else {
            self.status = FrameStatus::Ready;
        }
    }

    fn advance_after_comment(&mut self, input: &[u8])
        requires
            old(self).may_step(input@),
            old(self)@.lex == FrameLex::AfterComment,
        ensures
            final(self)@ == old(self)@.lex_step(input@),
    {
        let byte: u8 = input[self.position];
        self.position += 1;
        if is_line_end(byte) {
            self.lex = FrameLex::AfterDictionary;
        }
    }

    fn advance_stream_token(&mut self, input: &[u8], matched: usize)
        requires
            old(self).may_step(input@),
        ensures
            final(self)@ == old(self)@.stream_token_step(input@[old(self)@.position], matched),
    {
        let byte: u8 = input[self.position];
        if matched < 6 {
            if byte != KEYWORD_STREAM[matched] {
                self.status = FrameStatus::Ready;
            } else {
                self.position += 1;
                self.lex = FrameLex::StreamToken { matched: matched + 1 };
            }
        } else if !is_pdf_whitespace(byte) && !is_pdf_delimiter(byte) {
            self.status = FrameStatus::Ready;
        } else {
            self.lex = FrameLex::StreamEol;
            self.advance_stream_eol(input);
        }
    }

    fn advance_stream_eol(&mut self, input: &[u8])
        requires
            old(self).may_step(input@),
        ensures
            final(self)@ == old(self)@.stream_eol_step(input@[old(self)@.position]),
    {
        match input[self.position] {
            SPACE | TAB => {
                self.position += 1;
            },
            CR => {
                self.position += 1;
                self.lex = FrameLex::StreamEolCr;
            },
            LF => {
                self.position += 1;
                self.status = FrameStatus::Ready;
            },
            _ => {
                self.status = FrameStatus::Ready;
            },
        }
    }

    fn advance_stream_eol_cr(&mut self, input: &[u8])
        requires
            old(self).may_step(input@),
            old(self)@.lex == FrameLex::StreamEolCr,
        ensures
            final(self)@ == old(self)@.lex_step(input@),
    {
        if input[self.position] == LF {
            self.position += 1;
        }
        self.status = FrameStatus::Ready;
    }
}

/// A framer in front of an object.
pub open spec fn initial_framer() -> FramerState {
    FramerState {
        position: 0,
        containers: Seq::empty(),
        lex: FrameLex::Normal,
        status: FrameStatus::NeedMore,
        work: 0,
    }
}

} // verus!

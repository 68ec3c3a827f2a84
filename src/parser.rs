use vstd::prelude::*;

verus! {

/// A location in the input: characters consumed, line and column (both counted from 1).
#[derive(Clone, Copy, Debug, PartialEq, Eq, Structural)]
pub struct SimplePosition {
    pub index: u32,
    pub line: u32,
    pub column: u32,
}

impl SimplePosition {
    /// The position at the start of an input.
    pub fn new() -> (r: SimplePosition)
        ensures
            r.index == 0 && r.line == 1 && r.column == 1,
    {
        SimplePosition { index: 0, line: 1, column: 1 }
    }

    /// Line and column can only have grown as fast as the index.
    pub open spec fn wf(self) -> bool {
        self.line <= self.index + 1 && self.column <= self.index + 1
    }

    pub open spec fn spec_next(self, c: char) -> SimplePosition {
        if c == '\n' {
            SimplePosition { index: (self.index + 1) as u32, line: (self.line + 1) as u32, column: 1 }
        } else {
            SimplePosition { index: (self.index + 1) as u32, line: self.line, column: (self.column + 1) as u32 }
        }
    }

    /// The position after reading `c` here.
    pub fn next(self, c: char) -> (r: SimplePosition)
        requires
            self.wf(),
            self.index + 1 < u32::MAX,
        ensures
            r == self.spec_next(c),
            r.wf(),
    {
        if c == '\n' {
            SimplePosition { index: self.index + 1, line: self.line + 1, column: 1 }
        } else {
            SimplePosition { index: self.index + 1, line: self.line, column: self.column + 1 }
        }
    }

    /// Signed distance in characters from `other` to `self`.
    pub fn distance(self, other: SimplePosition) -> (r: i64)
        ensures
            r == self.index - other.index,
    {
        self.index as i64 - other.index as i64
    }
}

/// The position reached from `p` by reading the characters of `s` from `p.index` up to `e`.
pub open spec fn pos_after(s: Seq<char>, p: SimplePosition, e: int) -> SimplePosition
    decreases e - p.index,
{
    if e <= p.index {
        p
    } else {
        pos_after(s, p, e - 1).spec_next(s[e - 1])
    }
}

/// Reading nothing leaves a position as it is.
pub broadcast proof fn lemma_pos_after_refl(s: Seq<char>, p: SimplePosition)
    ensures
        #[trigger] pos_after(s, p, p.index as int) == p,
{
}

/// Reading one character is one step of `spec_next`.
pub proof fn lemma_pos_after_one(s: Seq<char>, p: SimplePosition)
    ensures
        pos_after(s, p, p.index + 1) == p.spec_next(s[p.index as int]),
{
    assert(pos_after(s, p, p.index as int) == p);
}

/// Reading up to `e` leaves the index at `e`, with line and column in bounds.
pub broadcast proof fn lemma_pos_after_index(s: Seq<char>, p: SimplePosition, e: int)
    requires
        p.wf(),
        p.index <= e < u32::MAX,
    ensures
        #[trigger] pos_after(s, p, e).index == e,
        pos_after(s, p, e).wf(),
    decreases e - p.index,
{
    if e > p.index {
        lemma_pos_after_index(s, p, e - 1);
    }
}

/// Reading up to `m`, then on up to `e`, is reading up to `e`.
pub broadcast proof fn lemma_pos_after_trans(s: Seq<char>, p: SimplePosition, m: int, e: int)
    requires
        p.wf(),
        p.index <= m <= e < u32::MAX,
    ensures
        #[trigger] pos_after(s, pos_after(s, p, m), e) == pos_after(s, p, e),
    decreases e - m,
{
    lemma_pos_after_index(s, p, m);
    if e > m {
        lemma_pos_after_trans(s, p, m, e - 1);
    }
}

/// The rule or combinator that raised or passed on an error.
#[derive(Clone, Copy, Debug, PartialEq, Eq, Structural)]
pub enum Reason {
    OutOfBounds,
    ExpectChar,
    Hex,
    Escape,
    Character,
    String,
    Number,
    Member,
    Value,
    TypeMismatch,
    Element,
    Object,
    Array,
    Members,
    Elements,
    Concat1,
    Concat2,
    OneOf,
    OneOrMore,
}

/// An error: a trail of (position, reason) pairs, deepest first.
#[derive(Clone, Debug)]
pub struct SimpleError {
    pub reasons: Vec<(Option<SimplePosition>, Reason)>,
}

impl SimpleError {
    pub open spec fn trail(self) -> Seq<(Option<SimplePosition>, Reason)> {
        self.reasons@
    }

    /// An error with one reason and no position.
    pub fn plain_str(reason: Reason) -> (r: SimpleError)
        ensures
            r.trail() == seq![(None::<SimplePosition>, reason)],
    {
        let mut reasons = Vec::new();
        reasons.push((None, reason));
        SimpleError { reasons }
    }

    /// An error with one reason at `pos`.
    pub fn at(pos: SimplePosition, reason: Reason) -> (r: SimpleError)
        ensures
            r.trail() == seq![(Some(pos), reason)],
    {
        let mut reasons = Vec::new();
        reasons.push((Some(pos), reason));
        SimpleError { reasons }
    }

    /// The trail with one more (outer) reason.
    pub fn add_reason(self, position: Option<SimplePosition>, reason: Reason) -> (r: SimpleError)
        ensures
            r.trail() == self.trail().push((position, reason)),
    {
        let mut reasons = self.reasons;
        reasons.push((position, reason));
        SimpleError { reasons }
    }

    pub fn reasons(&self) -> (r: &Vec<(Option<SimplePosition>, Reason)>)
        ensures
            r@ == self.trail(),
    {
        &self.reasons
    }
}

/// What a rule returns: its output and the position after it, or an error.
pub type ResultOf<O> = Result<(O, SimplePosition), SimpleError>;

/// A character source held in memory.
pub struct TextInput {
    pub chars: Vec<char>,
}

/// A source of characters: one at a time, or a fixed number at once.
pub trait Input {
    /// The characters of the source.
    spec fn text(&self) -> Seq<char>;

    /// Reads the character at `pos`; past the end, it is out of bounds.
    fn next(&self, pos: SimplePosition) -> (r: Result<(char, SimplePosition), SimpleError>)
        requires
            self.text().len() < u32::MAX,
            pos.wf(),
        ensures
            match r {
                Ok((c, p)) => pos.index < self.text().len() && c == self.text()[pos.index as int]
                    && p == pos.spec_next(c) && p == pos_after(self.text(), pos, pos.index + 1)
                    && p.wf() && p.index <= self.text().len(),
                Err(e) => pos.index >= self.text().len() && e.trail() == seq![
                    (Some(pos), Reason::OutOfBounds),
                ],
            },
    ;

    /// Reads `counts` characters from `start`; where fewer are left, it is out of bounds.
    fn next_range(&self, start: SimplePosition, counts: u32) -> (r: Result<(Vec<char>, SimplePosition), SimpleError>)
        requires
            self.text().len() < u32::MAX,
            start.wf(),
        ensures
            match r {
                Ok((s, p)) => start.index + counts <= self.text().len()
                    && s@ == self.text().subrange(start.index as int, start.index + counts)
                    && p.index == start.index + counts
                    && p == pos_after(self.text(), start, start.index + counts)
                    && p.wf() && p.index <= self.text().len(),
                Err(e) => start.index + counts > self.text().len() && e.trail() == seq![
                    (Some(start), Reason::OutOfBounds),
                ],
            },
    ;

    /// A fresh error with one reason at `pos`.
    fn error_at(&self, pos: SimplePosition, reason: Reason) -> (r: SimpleError)
        ensures
            r.trail() == seq![(Some(pos), reason)],
    ;
}

impl TextInput {
    pub fn new(chars: Vec<char>) -> (r: TextInput)
        ensures
            r.chars@ == chars@,
    {
        TextInput { chars }
    }

    /// Every position in the input has an index that fits in `u32`.
    pub open spec fn wf(&self) -> bool {
        self.chars@.len() < u32::MAX
    }

    /// A position at or before the end of this input.
    pub open spec fn valid_pos(&self, p: SimplePosition) -> bool {
        p.wf() && p.index <= self.chars@.len()
    }
}

impl Input for TextInput {
    open spec fn text(&self) -> Seq<char> {
        self.chars@
    }
    fn next(&self, pos: SimplePosition) -> (r: Result<(char, SimplePosition), SimpleError>)
    {
        assert(pos_after(self.text(), pos, pos.index as int) == pos);
        if (pos.index as usize) < self.chars.len() {
            let c = self.chars[pos.index as usize];
            Ok((c, pos.next(c)))
        } else {
            Err(SimpleError::at(pos, Reason::OutOfBounds))
        }
    }

    fn next_range(&self, start: SimplePosition, counts: u32) -> (r: Result<(Vec<char>, SimplePosition), SimpleError>)
    {
        if start.index as usize > self.chars.len() || counts as usize > self.chars.len()
            - start.index as usize {
            return Err(SimpleError::at(start, Reason::OutOfBounds));
        }
        let end: usize = start.index as usize + counts as usize;
        let mut out: Vec<char> = Vec::new();
        let mut pos = start;
        let mut i: usize = start.index as usize;
        while i < end
            invariant
                self.wf(),
                start.index <= i <= end <= self.text().len(),
                pos.index == i,
                pos.wf(),
                pos == pos_after(self.text(), start, i as int),
                out@ == self.text().subrange(start.index as int, i as int),
            decreases end - i,
        {
            let c = self.chars[i];
            out.push(c);
            pos = pos.next(c);
            i = i + 1;
            assert(out@ =~= self.text().subrange(start.index as int, i as int));
        }
        Ok((out, pos))
    }

    fn error_at(&self, pos: SimplePosition, reason: Reason) -> (r: SimpleError)
    {
        SimpleError::at(pos, reason)
    }
}

/// The named character classes of the grammar.
#[derive(Clone, Copy, Debug, PartialEq, Eq, Structural)]
pub enum CharClass {
    Whitespace,
    Sign,
    NegativeSign,
    E,
    OneToNine,
    Digit,
    Dot,
    Hex,
    DoubleQuote,
    OpenCurlyBracket,
    CloseCurlyBracket,
    Comma,
    Colon,
    OpenSquareBracket,
    CloseSquareBracket,
}

pub open spec fn class_accepts(cls: CharClass, c: char) -> bool {
    match cls {
        CharClass::Whitespace => c == ' ' || c == '\r' || c == '\n' || c == '\t',
        CharClass::Sign => c == '+' || c == '-',
        CharClass::NegativeSign => c == '-',
        CharClass::E => c == 'E' || c == 'e',
        CharClass::OneToNine => '1' <= c <= '9',
        CharClass::Digit => '0' <= c <= '9',
        CharClass::Dot => c == '.',
        CharClass::Hex => ('0' <= c <= '9') || ('a' <= c <= 'f') || ('A' <= c <= 'F'),
        CharClass::DoubleQuote => c == '"',
        CharClass::OpenCurlyBracket => c == '{',
        CharClass::CloseCurlyBracket => c == '}',
        CharClass::Comma => c == ',',
        CharClass::Colon => c == ':',
        CharClass::OpenSquareBracket => c == '[',
        CharClass::CloseSquareBracket => c == ']',
    }
}

impl CharClass {
    /// Whether `c` belongs to this class.
    pub fn eval(&self, c: &char) -> (r: bool)
        ensures
            r == class_accepts(*self, *c),
    {
        let c = *c;
        match self {
            CharClass::Whitespace => c == ' ' || c == '\r' || c == '\n' || c == '\t',
            CharClass::Sign => c == '+' || c == '-',
            CharClass::NegativeSign => c == '-',
            CharClass::E => c == 'E' || c == 'e',
            CharClass::OneToNine => '1' <= c && c <= '9',
            CharClass::Digit => '0' <= c && c <= '9',
            CharClass::Dot => c == '.',
            CharClass::Hex => ('0' <= c && c <= '9') || ('a' <= c && c <= 'f') || ('A' <= c && c <= 'F'),
            CharClass::DoubleQuote => c == '"',
            CharClass::OpenCurlyBracket => c == '{',
            CharClass::CloseCurlyBracket => c == '}',
            CharClass::Comma => c == ',',
            CharClass::Colon => c == ':',
            CharClass::OpenSquareBracket => c == '[',
            CharClass::CloseSquareBracket => c == ']',
        }
    }
}

/// The trail of a failed one-character match at `p`: out of bounds past the end,
/// else a mismatch there.
pub open spec fn expect_trail(s: Seq<char>, p: SimplePosition) -> Seq<(Option<SimplePosition>, Reason)> {
    if p.index < s.len() {
        seq![(Some(p), Reason::ExpectChar)]
    } else {
        seq![(Some(p), Reason::OutOfBounds), (Some(p), Reason::ExpectChar)]
    }
}

/// Matches one character of a class.
#[derive(Clone, Copy, Debug)]
pub struct ExpectChar {
    pub class: CharClass,
}

impl ExpectChar {
    /// Reads one character at `current` and accepts it if it is in the class.
    pub fn parse(&self, input: &TextInput, current: SimplePosition) -> (r: ResultOf<char>)
        requires
            input.wf(),
            current.wf(),
        ensures
            match r {
                Ok((c, p)) => current.index < input.text().len()
                    && c == input.text()[current.index as int]
                    && class_accepts(self.class, c) && p == current.spec_next(c)
                    && p == pos_after(input.text(), current, current.index + 1)
                    && input.valid_pos(p),
                Err(e) => !(current.index < input.text().len()
                    && class_accepts(self.class, input.text()[current.index as int]))
                    && e.trail() == expect_trail(input.text(), current),
            },
    {
        match input.next(current) {
            Err(e) => Err(e.add_reason(Some(current), Reason::ExpectChar)),
            Ok((c, next)) => {
                if self.class.eval(&c) {
                    Ok((c, next))
                } else {
                    Err(input.error_at(current, Reason::ExpectChar))
                }
            },
        }
    }
}

} // verus!

//! The lexer of term listings: braces, brackets, commas, dots and pipes,
//! atoms, strings and numbers.

use vstd::prelude::*;

verus! {

/// A number with a fractional part, kept as it was written: digits, a dot,
/// and digits.
#[derive(Debug, Clone, PartialEq, Eq)]
pub struct Float(pub String);

/// A whole number of any size, kept as it was written: decimal digits.
#[derive(Debug, Clone, PartialEq, Eq)]
pub struct Integer(pub String);

/// A token of a term listing.
#[derive(Debug, Clone, PartialEq, Eq)]
pub enum Token {
    EOF,
    Comma,
    Dot,
    Pipe,
    SquareOpen,
    SquareClose,
    CurlyOpen,
    CurlyClose,
    Atom(String),
    String(String),
    Integer(Integer),
    Float(Float),
}

/// The mathematical value of a [`Token`].
pub enum TokenModel {
    EOF,
    Comma,
    Dot,
    Pipe,
    SquareOpen,
    SquareClose,
    CurlyOpen,
    CurlyClose,
    Atom(Seq<char>),
    String(Seq<char>),
    Integer(Seq<char>),
    Float(Seq<char>),
}

impl View for Token {
    type V = TokenModel;

    open spec fn view(&self) -> TokenModel {
        match *self {
            Token::EOF => TokenModel::EOF,
            Token::Comma => TokenModel::Comma,
            Token::Dot => TokenModel::Dot,
            Token::Pipe => TokenModel::Pipe,
            Token::SquareOpen => TokenModel::SquareOpen,
            Token::SquareClose => TokenModel::SquareClose,
            Token::CurlyOpen => TokenModel::CurlyOpen,
            Token::CurlyClose => TokenModel::CurlyClose,
            Token::Atom(s) => TokenModel::Atom(s@),
            Token::String(s) => TokenModel::String(s@),
            Token::Integer(i) => TokenModel::Integer(i.0@),
            Token::Float(f) => TokenModel::Float(f.0@),
        }
    }
}

/// What is wrong with the input.
#[derive(Clone, Copy, Debug, PartialEq, Eq, Structural)]
pub enum LexErrorKind {
    /// A backslash in a quoted atom or a string.
    BadEscape,
    /// A character that starts no token.
    UnrecognizedCharacter,
    /// The input ends inside a quoted atom or a string.
    UnterminatedLiteral,
}

/// An error of the lexer, with the span of input that it is about.
#[derive(Clone, Copy, Debug, PartialEq, Eq, Structural)]
pub struct LexError {
    pub kind: LexErrorKind,
    pub start: usize,
    pub end: usize,
}

/// Whether `c` has the Unicode property White_Space.
pub open spec fn is_whitespace(c: char) -> bool {
    let n = c as u32;
    ||| 0x09 <= n <= 0x0D
    ||| n == 0x20
    ||| n == 0x85
    ||| n == 0xA0
    ||| n == 0x1680
    ||| 0x2000 <= n <= 0x200A
    ||| n == 0x2028
    ||| n == 0x2029
    ||| n == 0x202F
    ||| n == 0x205F
    ||| n == 0x3000
}

/// Whether `c` is a decimal digit.
pub open spec fn is_digit(c: char) -> bool {
    '0' <= c <= '9'
}

/// Whether `c` can stand in an unquoted atom after its first character.
pub open spec fn is_atom_char(c: char) -> bool {
    ||| 'a' <= c <= 'z'
    ||| 'A' <= c <= 'Z'
    ||| '0' <= c <= '9'
    ||| c == '_'
    ||| c == '@'
}

/// Whether the input ends at `p`: there is no character, or the character
/// NUL.
pub open spec fn at_end(input: Seq<char>, p: int) -> bool {
    p >= input.len() || input[p] == '\0'
}

/// Whether `c` ends the text of a literal that `quote` closes.
pub open spec fn ends_literal(c: char, quote: char) -> bool {
    c == quote || c == '\\' || c == '\0'
}

/// The first place from `p` on whose character is not white space.
pub open spec fn skip_whitespace(input: Seq<char>, p: int) -> int
    decreases input.len() - p,
{
    if 0 <= p < input.len() && is_whitespace(input[p]) {
        skip_whitespace(input, p + 1)
    } else {
        p
    }
}

/// The first place from `p` on whose character cannot stand in an atom.
pub open spec fn atom_end(input: Seq<char>, p: int) -> int
    decreases input.len() - p,
{
    if 0 <= p < input.len() && is_atom_char(input[p]) {
        atom_end(input, p + 1)
    } else {
        p
    }
}

/// The first place from `p` on whose character is no digit.
pub open spec fn digits_end(input: Seq<char>, p: int) -> int
    decreases input.len() - p,
{
    if 0 <= p < input.len() && is_digit(input[p]) {
        digits_end(input, p + 1)
    } else {
        p
    }
}

/// The first place from `p` on where the text of a literal ends.
pub open spec fn literal_end(input: Seq<char>, p: int, quote: char) -> int
    decreases input.len() - p,
{
    if 0 <= p < input.len() && !ends_literal(input[p], quote) {
        literal_end(input, p + 1, quote)
    } else {
        p
    }
}

/// What the lexer finds next.
pub enum Scan {
    /// A token and the span it was read from.
    Found { start: int, token: TokenModel, end: int },
    /// An error and the span it is about.
    Failed { kind: LexErrorKind, start: int, end: int },
}

/// The quoted atom or string whose opening quote is at `start`.
pub open spec fn scan_literal(input: Seq<char>, start: int, quote: char) -> Scan {
    let close = literal_end(input, start + 1, quote);
    if close < input.len() && input[close] == quote {
        let text = input.subrange(start + 1, close);
        Scan::Found {
            start: start,
            token: if quote == '"' {
                TokenModel::String(text)
            } else {
                TokenModel::Atom(text)
            },
            end: close + 1,
        }
    } else if close < input.len() && input[close] == '\\' {
        Scan::Failed { kind: LexErrorKind::BadEscape, start: start, end: close + 1 }
    } else {
        Scan::Failed { kind: LexErrorKind::UnterminatedLiteral, start: start, end: close }
    }
}

/// The number whose first digit is at `start`: a float where the digits
/// are followed by a dot and at least one more digit, else an integer.
pub open spec fn scan_number(input: Seq<char>, start: int) -> Scan {
    let whole = digits_end(input, start + 1);
    if whole + 1 < input.len() && input[whole] == '.' && is_digit(input[whole + 1]) {
        let end = digits_end(input, whole + 2);
        Scan::Found { start: start, token: TokenModel::Float(input.subrange(start, end)), end: end }
    } else {
        Scan::Found {
            start: start,
            token: TokenModel::Integer(input.subrange(start, whole)),
            end: whole,
        }
    }
}

/// The token that starts at `start`, where the input has not ended.
pub open spec fn scan_token(input: Seq<char>, start: int) -> Scan {
    let c = input[start];
    if c == '{' {
        Scan::Found { start: start, token: TokenModel::CurlyOpen, end: start + 1 }
    } else if c == '}' {
        Scan::Found { start: start, token: TokenModel::CurlyClose, end: start + 1 }
    } else if c == '[' {
        Scan::Found { start: start, token: TokenModel::SquareOpen, end: start + 1 }
    } else if c == ']' {
        Scan::Found { start: start, token: TokenModel::SquareClose, end: start + 1 }
    } else if c == ',' {
        Scan::Found { start: start, token: TokenModel::Comma, end: start + 1 }
    } else if c == '.' {
        Scan::Found { start: start, token: TokenModel::Dot, end: start + 1 }
    } else if c == '|' {
        Scan::Found { start: start, token: TokenModel::Pipe, end: start + 1 }
    } else if 'a' <= c <= 'z' {
        let end = atom_end(input, start + 1);
        Scan::Found { start: start, token: TokenModel::Atom(input.subrange(start, end)), end: end }
    } else if is_digit(c) {
        scan_number(input, start)
    } else if c == '\'' || c == '"' {
        scan_literal(input, start, c)
    } else {
        Scan::Failed { kind: LexErrorKind::UnrecognizedCharacter, start: start, end: start + 1 }
    }
}

/// What the lexer finds from `p` on: white space is skipped; where the
/// input has ended, the end-of-file token; else the token that starts there.
pub open spec fn scan(input: Seq<char>, p: int) -> Scan {
    let start = skip_whitespace(input, p);
    if at_end(input, start) {
        Scan::Found { start: start, token: TokenModel::EOF, end: start }
    } else {
        scan_token(input, start)
    }
}

/// Whether the text is one or more decimal digits.
pub open spec fn is_digits(text: Seq<char>) -> bool {
    text.len() > 0 && forall|i: int| 0 <= i < text.len() ==> is_digit(#[trigger] text[i])
}

/// Whether the text is digits, a dot at `dot`, and digits.
pub open spec fn splits_at(text: Seq<char>, dot: int) -> bool {
    &&& 0 < dot < text.len() - 1
    &&& text[dot] == '.'
    &&& is_digits(text.subrange(0, dot))
    &&& is_digits(text.subrange(dot + 1, text.len() as int))
}

/// Whether the text is one or more digits, a dot, and one or more digits.
pub open spec fn is_float_text(text: Seq<char>) -> bool {
    exists|dot: int| splits_at(text, dot)
}

/// From `p` up to where the digits end there are digits only.
pub proof fn lemma_digits(input: Seq<char>, p: int)
    requires
        0 <= p,
    ensures
        p <= digits_end(input, p),
        digits_end(input, p) <= input.len() || digits_end(input, p) == p,
        forall|i: int| p <= i < digits_end(input, p) ==> is_digit(#[trigger] input[i]),
    decreases input.len() - p,
{
    if p < input.len() && is_digit(input[p]) {
        lemma_digits(input, p + 1);
    }
}

/// The shape of numbers. An integer is one or more digits. A float is one
/// or more digits, a dot, and one or more digits.
pub proof fn lemma_number_shape(input: Seq<char>, start: int)
    requires
        0 <= start < input.len(),
        is_digit(input[start]),
    ensures
        scan_number(input, start) is Found,
        scan_number(input, start)->token is Integer || scan_number(input, start)->token is Float,
        scan_number(input, start)->token matches TokenModel::Integer(text) ==> is_digits(text),
        scan_number(input, start)->token matches TokenModel::Float(text) ==> is_float_text(text),
{
    lemma_digits(input, start + 1);
    let whole = digits_end(input, start + 1);
    if whole + 1 < input.len() && input[whole] == '.' && is_digit(input[whole + 1]) {
        lemma_digits(input, whole + 2);
        let end = digits_end(input, whole + 2);
        let text = input.subrange(start, end);
        let dot = whole - start;
        assert(text[dot] == '.');
        assert(is_digits(text.subrange(0, dot))) by {
            assert forall|i: int| 0 <= i < dot implies is_digit(
                #[trigger] text.subrange(0, dot)[i],
            ) by {
                assert(text.subrange(0, dot)[i] == input[start + i]);
            }
        }
        assert(is_digits(text.subrange(dot + 1, text.len() as int))) by {
            assert forall|i: int| 0 <= i < text.len() - dot - 1 implies is_digit(
                #[trigger] text.subrange(dot + 1, text.len() as int)[i],
            ) by {
                assert(text.subrange(dot + 1, text.len() as int)[i] == input[whole + 1 + i]);
            }
        }
        assert(scan_number(input, start) == (Scan::Found {
            start: start,
            token: TokenModel::Float(text),
            end: end,
        }));
        assert(splits_at(text, dot));
    } else {
        let text = input.subrange(start, whole);
        assert forall|i: int| 0 <= i < text.len() implies is_digit(#[trigger] text[i]) by {
            assert(text[i] == input[start + i]);
        }
        assert(scan_number(input, start) == (Scan::Found {
            start: start,
            token: TokenModel::Integer(text),
            end: whole,
        }));
    }
}

/// Whether `c` has the Unicode property White_Space.
pub fn char_is_whitespace(c: char) -> (r: bool)
    ensures
        r == is_whitespace(c),
{
    (c >= '\u{09}' && c <= '\u{0D}') || c == ' ' || c == '\u{85}' || c == '\u{A0}' || c
        == '\u{1680}' || (c >= '\u{2000}' && c <= '\u{200A}') || c == '\u{2028}' || c == '\u{2029}'
        || c == '\u{202F}' || c == '\u{205F}' || c == '\u{3000}'
}

/// Whether `c` is a decimal digit.
pub fn char_is_digit(c: char) -> (r: bool)
    ensures
        r == is_digit(c),
{
    c >= '0' && c <= '9'
}

/// Whether `c` can stand in an unquoted atom after its first character.
pub fn char_is_atom_char(c: char) -> (r: bool)
    ensures
        r == is_atom_char(c),
{
    (c >= 'a' && c <= 'z') || (c >= 'A' && c <= 'Z') || (c >= '0' && c <= '9') || c == '_' || c
        == '@'
}

/// The text made of `chars`. The contract states what `String::from_iter`
/// does with references to characters: the string holds the characters in
/// order.
#[verifier::external_body]
pub(crate) fn text_of(chars: &Vec<char>) -> (s: String)
    ensures
        s@ == chars@,
{
    String::from_iter(chars)
}

/// A lexer over a sequence of characters. Positions count characters from
/// the start of the input.
pub struct Lexer {
    input: Vec<char>,
    pos: usize,
    token_start: usize,
    token_end: usize,
    done: bool,
}

/// The mathematical state of a [`Lexer`].
pub struct LexerModel {
    pub input: Seq<char>,
    /// Where the next token is looked for.
    pub pos: int,
    /// The span of the token that was read last.
    pub token_start: int,
    pub token_end: int,
    /// Whether the lexer has yielded the end-of-file token or an error.
    pub done: bool,
}

impl View for Lexer {
    type V = LexerModel;

    closed spec fn view(&self) -> LexerModel {
        LexerModel {
            input: self.input@,
            pos: self.pos as int,
            token_start: self.token_start as int,
            token_end: self.token_end as int,
            done: self.done,
        }
    }
}

impl Lexer {
    /// A lexer at the start of `input`.
    pub fn new(input: Vec<char>) -> (lexer: Lexer)
        ensures
            lexer@ == (LexerModel {
                input: input@,
                pos: 0,
                token_start: 0,
                token_end: 0,
                done: false,
            }),
    {
        Lexer { input: input, pos: 0, token_start: 0, token_end: 0, done: false }
    }

    /// The span of the token or error that was yielded last.
    pub fn span(&self) -> (r: (usize, usize))
        ensures
            r.0 == self@.token_start,
            r.1 == self@.token_end,
    {
        (self.token_start, self.token_end)
    }

    /// The first place from `p` on whose character is not white space.
    fn skip_whitespace(&self, p: usize) -> (r: usize)
        requires
            p <= self@.input.len(),
        ensures
            r == skip_whitespace(self@.input, p as int),
            p <= r <= self@.input.len(),
    {
        let mut i: usize = p;
        while i < self.input.len() && char_is_whitespace(self.input[i])
            invariant
                p <= i <= self.input.len(),
                skip_whitespace(self@.input, p as int) == skip_whitespace(self@.input, i as int),
            decreases self.input.len() - i,
        {
            i = i + 1;
        }
        i
    }

    fn atom_end(&self, p: usize) -> (r: usize)
        requires
            p <= self@.input.len(),
        ensures
            r == atom_end(self@.input, p as int),
            p <= r <= self@.input.len(),
    {
        let mut i: usize = p;
        while i < self.input.len() && char_is_atom_char(self.input[i])
            invariant
                p <= i <= self.input.len(),
                atom_end(self@.input, p as int) == atom_end(self@.input, i as int),
            decreases self.input.len() - i,
        {
            i = i + 1;
        }
        i
    }

    fn digits_end(&self, p: usize) -> (r: usize)
        requires
            p <= self@.input.len(),
        ensures
            r == digits_end(self@.input, p as int),
            p <= r <= self@.input.len(),
    {
        let mut i: usize = p;
        while i < self.input.len() && char_is_digit(self.input[i])
            invariant
                p <= i <= self.input.len(),
                digits_end(self@.input, p as int) == digits_end(self@.input, i as int),
            decreases self.input.len() - i,
        {
            i = i + 1;
        }
        i
    }

    fn literal_end(&self, p: usize, quote: char) -> (r: usize)
        requires
            p <= self@.input.len(),
        ensures
            r == literal_end(self@.input, p as int, quote),
            p <= r <= self@.input.len(),
    {
        let mut i: usize = p;
        while i < self.input.len() && !(self.input[i] == quote || self.input[i] == '\\'
            || self.input[i] == '\0')
            invariant
                p <= i <= self.input.len(),
                literal_end(self@.input, p as int, quote) == literal_end(
                    self@.input,
                    i as int,
                    quote,
                ),
            decreases self.input.len() - i,
        {
            i = i + 1;
        }
        i
    }

    /// The text of the input from `from` up to `to`.
    fn slice(&self, from: usize, to: usize) -> (s: String)
        requires
            from <= to <= self@.input.len(),
        ensures
            s@ == self@.input.subrange(from as int, to as int),
    {
        let mut buf: Vec<char> = Vec::new();
        let mut i: usize = from;
        while i < to
            invariant
                from <= i <= to <= self.input.len(),
                buf@ == self@.input.subrange(from as int, i as int),
            decreases to - i,
        {
            buf.push(self.input[i]);
            assert(buf@ =~= self@.input.subrange(from as int, i + 1));
            i = i + 1;
        }
        text_of(&buf)
    }

    /// Reads the unquoted atom that starts at `start`.
    fn lex_unquoted_atom(&self, start: usize) -> (r: (Token, usize))
        requires
            start < self@.input.len(),
        ensures
            r.0@ == TokenModel::Atom(
                self@.input.subrange(start as int, atom_end(self@.input, start + 1)),
            ),
            r.1 == atom_end(self@.input, start + 1),
            start < r.1 <= self@.input.len(),
    {
        let _ = self.input.len();
        let end = self.atom_end(start + 1);
        (Token::Atom(self.slice(start, end)), end)
    }

    /// Reads the quoted atom or string whose opening quote is at `start`.
    fn lex_literal(&self, start: usize, quote: char) -> (r: Result<(Token, usize), LexError>)
        requires
            start < self@.input.len(),
            quote == '\'' || quote == '"',
        ensures
            match scan_literal(self@.input, start as int, quote) {
                Scan::Found { start: s, token, end } => r matches Ok((t, e)) && t@ == token && e
                    == end && start < e <= self@.input.len(),
                Scan::Failed { kind, start: s, end } => r == Err::<(Token, usize), LexError>(
                    LexError { kind: kind, start: start, end: end as usize },
                ) && start <= end <= self@.input.len(),
            },
    {
        let _ = self.input.len();
        let close = self.literal_end(start + 1, quote);
        if close < self.input.len() && self.input[close] == quote {
            let text = self.slice(start + 1, close);
            let token = if quote == '"' {
                Token::String(text)
            } else {
                Token::Atom(text)
            };
            Ok((token, close + 1))
        } else if close < self.input.len() && self.input[close] == '\\' {
            Err(LexError { kind: LexErrorKind::BadEscape, start: start, end: close + 1 })
        } else {
            Err(LexError { kind: LexErrorKind::UnterminatedLiteral, start: start, end: close })
        }
    }

    /// Reads the quoted atom whose opening quote is at `start`.
    fn lex_quoted_atom(&self, start: usize) -> (r: Result<(Token, usize), LexError>)
        requires
            start < self@.input.len(),
        ensures
            match scan_literal(self@.input, start as int, '\'') {
                Scan::Found { start: s, token, end } => r matches Ok((t, e)) && t@ == token && e
                    == end && start < e <= self@.input.len(),
                Scan::Failed { kind, start: s, end } => r == Err::<(Token, usize), LexError>(
                    LexError { kind: kind, start: start, end: end as usize },
                ) && start <= end <= self@.input.len(),
            },
    {
        self.lex_literal(start, '\'')
    }

    /// Reads the string whose opening quote is at `start`.
    fn lex_string(&self, start: usize) -> (r: Result<(Token, usize), LexError>)
        requires
            start < self@.input.len(),
        ensures
            match scan_literal(self@.input, start as int, '"') {
                Scan::Found { start: s, token, end } => r matches Ok((t, e)) && t@ == token && e
                    == end && start < e <= self@.input.len(),
                Scan::Failed { kind, start: s, end } => r == Err::<(Token, usize), LexError>(
                    LexError { kind: kind, start: start, end: end as usize },
                ) && start <= end <= self@.input.len(),
            },
    {
        self.lex_literal(start, '"')
    }

    /// Reads the fractional part of the float that starts at `start` and
    /// whose dot is at `dot`.
    fn lex_float(&self, start: usize, dot: usize) -> (r: (Token, usize))
        requires
            start <= dot,
            dot + 1 < self@.input.len(),
        ensures
            r.1 == digits_end(self@.input, dot + 2),
            r.0@ == TokenModel::Float(self@.input.subrange(start as int, r.1 as int)),
            dot + 2 <= r.1 <= self@.input.len(),
    {
        let _ = self.input.len();
        let end = self.digits_end(dot + 2);
        (Token::Float(Float(self.slice(start, end))), end)
    }

    /// Reads the number whose first digit is at `start`.
    fn lex_number(&self, start: usize) -> (r: (Token, usize))
        requires
            start < self@.input.len(),
        ensures
            scan_number(self@.input, start as int) == (Scan::Found {
                start: start as int,
                token: r.0@,
                end: r.1 as int,
            }),
            start < r.1 <= self@.input.len(),
    {
        let _ = self.input.len();
        let whole = self.digits_end(start + 1);
        if whole < self.input.len() && self.input[whole] == '.' {
            if whole + 1 < self.input.len() && char_is_digit(self.input[whole + 1]) {
                return self.lex_float(start, whole);
            }
        }
        (Token::Integer(Integer(self.slice(start, whole))), whole)
    }

    /// Reads the token that starts at `start`.
    fn tokenize(&self, start: usize) -> (r: Result<(Token, usize), LexError>)
        requires
            start < self@.input.len(),
        ensures
            match scan_token(self@.input, start as int) {
                Scan::Found { start: s, token, end } => r matches Ok((t, e)) && t@ == token && e
                    == end && start < e <= self@.input.len(),
                Scan::Failed { kind, start: s, end } => r == Err::<(Token, usize), LexError>(
                    LexError { kind: kind, start: start, end: end as usize },
                ) && start <= end <= self@.input.len(),
            },
    {
        let _ = self.input.len();
        let c = self.input[start];
        if c == '{' {
            Ok((Token::CurlyOpen, start + 1))
        } else if c == '}' {
            Ok((Token::CurlyClose, start + 1))
        } else if c == '[' {
            Ok((Token::SquareOpen, start + 1))
        } else if c == ']' {
            Ok((Token::SquareClose, start + 1))
        } else if c == ',' {
            Ok((Token::Comma, start + 1))
        } else if c == '.' {
            Ok((Token::Dot, start + 1))
        } else if c == '|' {
            Ok((Token::Pipe, start + 1))
        } else if c >= 'a' && c <= 'z' {
            Ok(self.lex_unquoted_atom(start))
        } else if char_is_digit(c) {
            Ok(self.lex_number(start))
        } else if c == '\'' {
            self.lex_quoted_atom(start)
        } else if c == '"' {
            self.lex_string(start)
        } else {
            Err(
                LexError { kind: LexErrorKind::UnrecognizedCharacter, start: start, end: start + 1 },
            )
        }
    }

    /// Skips white space and tells where the next token starts, or `None`
    /// where the input has ended.
    fn advance_start(&self) -> (r: Option<usize>)
        requires
            self@.pos <= self@.input.len(),
        ensures
            match r {
                Some(s) => s == skip_whitespace(self@.input, self@.pos) && !at_end(
                    self@.input,
                    s as int,
                ) && s < self@.input.len(),
                None => at_end(self@.input, skip_whitespace(self@.input, self@.pos)),
            },
    {
        let start = self.skip_whitespace(self.pos);
        if start >= self.input.len() || self.input[start] == '\0' {
            None
        } else {
            Some(start)
        }
    }

    /// Whether the lexer is where it can be: not beyond its input.
    pub open spec fn wf(&self) -> bool {
        0 <= self@.pos <= self@.input.len()
    }

    /// Yields the next token with the places where it starts and ends, or
    /// an error with its span. After the end-of-file token or an error
    /// nothing more is yielded.
    pub fn lex(&mut self) -> (r: Option<Result<(usize, Token, usize), LexError>>)
        requires
            old(self).wf(),
        ensures
            final(self).wf(),
            final(self)@.input == old(self)@.input,
            old(self)@.done ==> r is None && final(self)@ == old(self)@,
            !old(self)@.done ==> match scan(old(self)@.input, old(self)@.pos) {
                Scan::Found { start, token, end } => {
                    &&& r matches Some(Ok((s, t, e)))
                    &&& s == start
                    &&& t@ == token
                    &&& e == end
                    &&& final(self)@.pos == end
                    &&& final(self)@.token_start == start
                    &&& final(self)@.token_end == end
                    &&& final(self)@.done == (token is EOF)
                },
                Scan::Failed { kind, start, end } => {
                    &&& r == Some(
                        Err::<(usize, Token, usize), LexError>(
                            LexError { kind: kind, start: start as usize, end: end as usize },
                        ),
                    )
                    &&& final(self)@.token_start == start
                    &&& final(self)@.token_end == end
                    &&& final(self)@.done
                },
            },
    {
        if self.done {
            return None;
        }
        let _ = self.input.len();
        let start = match self.advance_start() {
            Some(s) => s,
            None => {
                let end = self.skip_whitespace(self.pos);
                self.pos = end;
                self.token_start = end;
                self.token_end = end;
                self.done = true;
                return Some(Ok((end, Token::EOF, end)));
            },
        };
        match self.tokenize(start) {
            Ok((token, end)) => {
                self.pos = end;
                self.token_start = start;
                self.token_end = end;
                Some(Ok((start, token, end)))
            },
            Err(e) => {
                self.token_start = e.start;
                self.token_end = e.end;
                self.done = true;
                Some(Err(e))
            },
        }
    }
}

} // verus!

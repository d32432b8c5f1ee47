//! Converts raw source bytes into a flat stream of tokens, each with the
//! line and column at which it starts.
//!
//! The lexer works over bytes: identifiers, keywords and operators are
//! ASCII, and identifiers and string literals borrow their bytes from the
//! input.
use vstd::prelude::*;
use vstd::utf8::{valid_utf8, decode_utf8};
use crate::text::{utf8_lossy, lossy_string, decimal, i64_to_string, nat_digits, nat_to_string, push_char};
use vstd::string::StringExecFns;

verus! {

/// A 1-based line/column position in the source: the first byte of the
/// source is at `{ line: 1, col: 1 }`.
#[derive(Debug, Clone, Copy, PartialEq, Eq, Default, Structural)]
pub struct Position {
    pub line: u32,
    pub col: u32,
}

/// A single lexical token.
#[derive(Debug, Clone, Copy, PartialEq, Eq)]
pub enum Token<'a> {
    /// An integer literal, already converted to an `i64`.
    Number(i64),
    /// A string literal: the bytes between the quotes.
    String(&'a [u8]),
    /// The `true` keyword.
    True,
    /// The `false` keyword.
    False,
    /// An identifier.
    Identifier(&'a [u8]),
    Let,
    Print,
    If,
    Else,
    While,
    Plus,
    Minus,
    Star,
    Slash,
    EqualEqual,
    BangEqual,
    Less,
    LessEqual,
    Greater,
    GreaterEqual,
    AndAnd,
    OrOr,
    Equal,
    Semicolon,
    LeftParen,
    RightParen,
    LeftBrace,
    RightBrace,
    /// The end of the input: always the last token produced.
    Eof,
}

/// The view of a [`Token`], with byte sequences in place of slices.
pub enum SToken {
    Number(i64),
    Str(Seq<u8>),
    True,
    False,
    Identifier(Seq<u8>),
    Let,
    Print,
    If,
    Else,
    While,
    Plus,
    Minus,
    Star,
    Slash,
    EqualEqual,
    BangEqual,
    Less,
    LessEqual,
    Greater,
    GreaterEqual,
    AndAnd,
    OrOr,
    Equal,
    Semicolon,
    LeftParen,
    RightParen,
    LeftBrace,
    RightBrace,
    Eof,
}

impl<'a> View for Token<'a> {
    type V = SToken;

    open spec fn view(&self) -> SToken {
        match self {
            Token::Number(n) => SToken::Number(*n),
            Token::String(s) => SToken::Str(s@),
            Token::True => SToken::True,
            Token::False => SToken::False,
            Token::Identifier(n) => SToken::Identifier(n@),
            Token::Let => SToken::Let,
            Token::Print => SToken::Print,
            Token::If => SToken::If,
            Token::Else => SToken::Else,
            Token::While => SToken::While,
            Token::Plus => SToken::Plus,
            Token::Minus => SToken::Minus,
            Token::Star => SToken::Star,
            Token::Slash => SToken::Slash,
            Token::EqualEqual => SToken::EqualEqual,
            Token::BangEqual => SToken::BangEqual,
            Token::Less => SToken::Less,
            Token::LessEqual => SToken::LessEqual,
            Token::Greater => SToken::Greater,
            Token::GreaterEqual => SToken::GreaterEqual,
            Token::AndAnd => SToken::AndAnd,
            Token::OrOr => SToken::OrOr,
            Token::Equal => SToken::Equal,
            Token::Semicolon => SToken::Semicolon,
            Token::LeftParen => SToken::LeftParen,
            Token::RightParen => SToken::RightParen,
            Token::LeftBrace => SToken::LeftBrace,
            Token::RightBrace => SToken::RightBrace,
            Token::Eof => SToken::Eof,
        }
    }
}

/// Errors that can occur while lexing.
#[derive(Debug, Clone, PartialEq, Eq)]
pub enum LexError {
    /// A byte that starts no valid token, e.g. `@`.
    UnexpectedChar { ch: char, pos: Position },
    /// A run of digits whose value does not fit in an `i64`.
    InvalidNumber { pos: Position },
    /// A string literal with no closing quote; `string` is the text from
    /// the opening quote to the end of the input.
    UnterminatedString { string: String, pos: Position },
}

/// The view of a [`LexError`].
pub enum SLexError {
    UnexpectedChar { ch: char, pos: Position },
    InvalidNumber { pos: Position },
    UnterminatedString { string: Seq<char>, pos: Position },
}

impl View for LexError {
    type V = SLexError;

    open spec fn view(&self) -> SLexError {
        match self {
            LexError::UnexpectedChar { ch, pos } => SLexError::UnexpectedChar { ch: *ch, pos: *pos },
            LexError::InvalidNumber { pos } => SLexError::InvalidNumber { pos: *pos },
            LexError::UnterminatedString { string, pos } => SLexError::UnterminatedString {
                string: string@,
                pos: *pos,
            },
        }
    }
}

// ---------------------------------------------------------------------------
// The lexical grammar, over the input bytes.
// ---------------------------------------------------------------------------

/// ASCII whitespace as `u8::is_ascii_whitespace` defines it: space, tab,
/// line feed, form feed and carriage return.
pub open spec fn is_space(b: u8) -> bool {
    b == 32 || b == 9 || b == 10 || b == 12 || b == 13
}

pub open spec fn is_digit(b: u8) -> bool {
    48 <= b <= 57
}

pub open spec fn is_alpha(b: u8) -> bool {
    (65 <= b <= 90) || (97 <= b <= 122)
}

/// A byte that may start an identifier: a letter or `_`.
pub open spec fn is_ident_start(b: u8) -> bool {
    is_alpha(b) || b == 95
}

/// A byte that may continue an identifier: a letter, a digit or `_`.
pub open spec fn is_ident_char(b: u8) -> bool {
    is_alpha(b) || is_digit(b) || b == 95
}

pub open spec fn is_not_quote(b: u8) -> bool {
    b != 34
}

/// The classes of bytes that the lexer scans runs of.
pub enum ByteClass {
    Space,
    Digit,
    IdentChar,
    NotQuote,
}

pub open spec fn in_class(c: ByteClass, b: u8) -> bool {
    match c {
        ByteClass::Space => is_space(b),
        ByteClass::Digit => is_digit(b),
        ByteClass::IdentChar => is_ident_char(b),
        ByteClass::NotQuote => is_not_quote(b),
    }
}

/// The end of the longest run of bytes of class `c` that starts at `i`.
pub open spec fn scan_end(s: Seq<u8>, i: int, c: ByteClass) -> int
    decreases s.len() - i,
{
    if 0 <= i < s.len() && in_class(c, s[i]) {
        scan_end(s, i + 1, c)
    } else {
        i
    }
}

/// The 1-based line of byte offset `j`: one more than the number of line
/// feeds before it.
pub open spec fn line_at(s: Seq<u8>, j: int) -> int
    decreases j,
{
    if j <= 0 {
        1
    } else if s[j - 1] == 10 {
        line_at(s, j - 1) + 1
    } else {
        line_at(s, j - 1)
    }
}

/// The 1-based column of byte offset `j`: one more than the number of
/// bytes between the last line feed before it and `j`.
pub open spec fn col_at(s: Seq<u8>, j: int) -> int
    decreases j,
{
    if j <= 0 {
        1
    } else if s[j - 1] == 10 {
        1
    } else {
        col_at(s, j - 1) + 1
    }
}

pub open spec fn position_at(s: Seq<u8>, j: int) -> Position {
    Position { line: line_at(s, j) as u32, col: col_at(s, j) as u32 }
}

/// The value of a run of decimal digits.
pub open spec fn digits_value(d: Seq<u8>) -> nat
    decreases d.len(),
{
    if d.len() == 0 {
        0
    } else {
        digits_value(d.drop_last()) * 10 + (d.last() - 48) as nat
    }
}

/// The token for a scanned word: one of the keywords `let`, `print`,
/// `if`, `else`, `while`, `true`, `false` (by their ASCII bytes), or else
/// an identifier.
pub open spec fn word_token(w: Seq<u8>) -> SToken {
    if w == seq![108u8, 101, 116] {
        SToken::Let
    } else if w == seq![112u8, 114, 105, 110, 116] {
        SToken::Print
    } else if w == seq![105u8, 102] {
        SToken::If
    } else if w == seq![101u8, 108, 115, 101] {
        SToken::Else
    } else if w == seq![119u8, 104, 105, 108, 101] {
        SToken::While
    } else if w == seq![116u8, 114, 117, 101] {
        SToken::True
    } else if w == seq![102u8, 97, 108, 115, 101] {
        SToken::False
    } else {
        SToken::Identifier(w)
    }
}

/// The operator or punctuation token for byte `b` at offset `j`, given
/// whether the next byte is `next`; with the offset just past it.
pub open spec fn punct_token(b: u8, next: Option<u8>, j: int) -> Option<(SToken, int)> {
    let two = next == Some(61u8);
    if b == 43 { Some((SToken::Plus, j + 1)) }
    else if b == 45 { Some((SToken::Minus, j + 1)) }
    else if b == 42 { Some((SToken::Star, j + 1)) }
    else if b == 47 { Some((SToken::Slash, j + 1)) }
    else if b == 61 && two { Some((SToken::EqualEqual, j + 2)) }
    else if b == 33 && two { Some((SToken::BangEqual, j + 2)) }
    else if b == 60 && two { Some((SToken::LessEqual, j + 2)) }
    else if b == 62 && two { Some((SToken::GreaterEqual, j + 2)) }
    else if b == 38 && next == Some(38u8) { Some((SToken::AndAnd, j + 2)) }
    else if b == 124 && next == Some(124u8) { Some((SToken::OrOr, j + 2)) }
    else if b == 60 { Some((SToken::Less, j + 1)) }
    else if b == 62 { Some((SToken::Greater, j + 1)) }
    else if b == 61 { Some((SToken::Equal, j + 1)) }
    else if b == 59 { Some((SToken::Semicolon, j + 1)) }
    else if b == 40 { Some((SToken::LeftParen, j + 1)) }
    else if b == 41 { Some((SToken::RightParen, j + 1)) }
    else if b == 123 { Some((SToken::LeftBrace, j + 1)) }
    else if b == 125 { Some((SToken::RightBrace, j + 1)) }
    else { None }
}

/// The token that starts at offset `j` (where no whitespace stands), with
/// the offset just past it, or the error found there.
pub open spec fn token_at(s: Seq<u8>, j: int) -> Result<(SToken, int), SLexError> {
    let pos = position_at(s, j);
    if j >= s.len() {
        Ok((SToken::Eof, j))
    } else if is_digit(s[j]) {
        let k = scan_end(s, j, ByteClass::Digit);
        let v = digits_value(s.subrange(j, k));
        if v > i64::MAX {
            Err(SLexError::InvalidNumber { pos })
        } else {
            Ok((SToken::Number(v as i64), k))
        }
    } else if is_ident_start(s[j]) {
        let k = scan_end(s, j, ByteClass::IdentChar);
        Ok((word_token(s.subrange(j, k)), k))
    } else if s[j] == 34 {
        let k = scan_end(s, j + 1, ByteClass::NotQuote);
        if k >= s.len() {
            Err(SLexError::UnterminatedString { string: utf8_lossy(s.subrange(j, k)), pos })
        } else {
            Ok((SToken::Str(s.subrange(j + 1, k)), k + 1))
        }
    } else {
        let next = if j + 1 < s.len() { Some(s[j + 1]) } else { None };
        match punct_token(s[j], next, j) {
            Some(r) => Ok(r),
            None => Err(SLexError::UnexpectedChar { ch: s[j] as char, pos }),
        }
    }
}

/// The tokens of `s` from offset `i` on, each with its start position, up
/// to and including `Eof`; or the first error.
pub open spec fn lex_from(s: Seq<u8>, i: int) -> Result<Seq<(SToken, Position)>, SLexError>
    decreases s.len() - i,
{
    let j = scan_end(s, i, ByteClass::Space);
    match token_at(s, j) {
        Err(e) => Err(e),
        Ok((t, k)) => if t is Eof {
            Ok(seq![(t, position_at(s, j))])
        } else if i < k <= s.len() {
            match lex_from(s, k) {
                Ok(rest) => Ok(seq![(t, position_at(s, j))] + rest),
                Err(e) => Err(e),
            }
        } else {
            Ok(seq![])
        },
    }
}

/// The result of lexing a whole input.
pub open spec fn lex(s: Seq<u8>) -> Result<Seq<(SToken, Position)>, SLexError> {
    lex_from(s, 0)
}

} // verus!

verus! {

// ---------------------------------------------------------------------------
// Facts about the lexical grammar.
// ---------------------------------------------------------------------------

/// `scan_end` stops within the input, after a run of bytes satisfying `p`,
/// at the end of the input or at a byte that fails `p`.
pub proof fn lemma_scan_end(s: Seq<u8>, i: int, c: ByteClass)
    requires
        0 <= i <= s.len(),
    ensures
        i <= scan_end(s, i, c) <= s.len(),
        forall|m: int| i <= m < scan_end(s, i, c) ==> in_class(c, #[trigger] s[m]),
        scan_end(s, i, c) < s.len() ==> !in_class(c, s[scan_end(s, i, c)]),
    decreases s.len() - i,
{
    if i < s.len() && in_class(c, s[i]) {
        lemma_scan_end(s, i + 1, c);
    }
}

proof fn lemma_line_col_bounds(s: Seq<u8>, j: int)
    requires
        0 <= j <= s.len(),
    ensures
        1 <= line_at(s, j) <= j + 1,
        1 <= col_at(s, j) <= j + 1,
    decreases j,
{
    if j > 0 {
        lemma_line_col_bounds(s, j - 1);
    }
}

/// A token other than `Eof` ends after it starts and within the input.
proof fn lemma_token_at_advances(s: Seq<u8>, j: int)
    requires
        0 <= j <= s.len(),
    ensures
        token_at(s, j) matches Ok((t, k)) ==> (t is Eof && k == j) || (j < k <= s.len()),
{
    if j < s.len() {
        lemma_scan_end(s, j, ByteClass::Digit);
        lemma_scan_end(s, j, ByteClass::IdentChar);
        lemma_scan_end(s, j + 1, ByteClass::NotQuote);
    }
}

proof fn lemma_digits_prefix_monotonic(d: Seq<u8>, m: int, n: int)
    requires
        0 <= m <= n <= d.len(),
    ensures
        digits_value(d.take(m)) <= digits_value(d.take(n)),
    decreases n - m,
{
    if m < n {
        lemma_digits_prefix_monotonic(d, m, n - 1);
        assert(d.take(n).drop_last() =~= d.take(n - 1));
    }
}

/// `prefix` followed by the tokens of `r`, or the error of `r`.
pub open spec fn prepend_tokens(
    prefix: Seq<(SToken, Position)>,
    r: Result<Seq<(SToken, Position)>, SLexError>,
) -> Result<Seq<(SToken, Position)>, SLexError> {
    match r {
        Ok(rest) => Ok(prefix + rest),
        Err(e) => Err(e),
    }
}

/// The view of a list of tokens with positions.
pub open spec fn tokens_with_positions_view<'a>(v: Seq<(Token<'a>, Position)>) -> Seq<(SToken, Position)> {
    v.map_values(|p: (Token<'a>, Position)| (p.0@, p.1))
}

/// The view of a list of tokens.
pub open spec fn tokens_view<'a>(v: Seq<Token<'a>>) -> Seq<SToken> {
    v.map_values(|t: Token<'a>| t@)
}

/// The tokens alone of a list of tokens with positions.
pub open spec fn strip_positions(v: Seq<(SToken, Position)>) -> Seq<SToken> {
    v.map_values(|p: (SToken, Position)| p.0)
}

// ---------------------------------------------------------------------------
// The lexer.
// ---------------------------------------------------------------------------

fn is_space_byte(b: u8) -> (r: bool)
    ensures
        r == is_space(b),
{
    b == 32 || b == 9 || b == 10 || b == 12 || b == 13
}

fn is_digit_byte(b: u8) -> (r: bool)
    ensures
        r == is_digit(b),
{
    48 <= b && b <= 57
}

fn is_alpha_byte(b: u8) -> (r: bool)
    ensures
        r == is_alpha(b),
{
    (65 <= b && b <= 90) || (97 <= b && b <= 122)
}

/// The value of a run of decimal digits, or `None` when it exceeds `i64::MAX`.
fn parse_digits(d: &[u8]) -> (r: Option<i64>)
    requires
        forall|m: int| 0 <= m < d@.len() ==> is_digit(#[trigger] d@[m]),
    ensures
        r == (if digits_value(d@) > i64::MAX { None } else { Some(digits_value(d@) as i64) }),
{
    let mut acc: u64 = 0;
    let mut i: usize = 0;
    assert(d@.take(0) =~= Seq::<u8>::empty());
    while i < d.len()
        invariant
            i <= d@.len(),
            forall|m: int| 0 <= m < d@.len() ==> is_digit(#[trigger] d@[m]),
            acc == digits_value(d@.take(i as int)),
            acc <= i64::MAX,
        decreases d@.len() - i,
    {
        let digit: u64 = (d[i] - 48) as u64;
        assert(d@.take(i + 1).drop_last() =~= d@.take(i as int));
        if acc > 922337203685477580u64 || (acc == 922337203685477580u64 && digit > 7) {
            proof {
                lemma_digits_prefix_monotonic(d@, i + 1, d@.len() as int);
                assert(d@.take(d@.len() as int) =~= d@);
            }
            return None;
        }
        acc = acc * 10 + digit;
        i = i + 1;
    }
    assert(d@.take(d@.len() as int) =~= d@);
    Some(acc as i64)
}

/// Scans a byte slice of source and produces its tokens.
pub struct Lexer<'a> {
    /// The full source being scanned.
    input: &'a [u8],
    /// Offset of the next byte to read.
    current: usize,
    /// 1-based line of the next byte to read.
    line: u32,
    /// 1-based column of the next byte to read.
    col: u32,
}

impl<'a> Lexer<'a> {
    /// The source being scanned.
    pub closed spec fn source(&self) -> Seq<u8> {
        self.input@
    }

    /// The offset of the next byte to read.
    pub closed spec fn offset(&self) -> int {
        self.current as int
    }

    /// The lexer's line and column are those of its offset, and every
    /// position in the source fits in a `u32`.
    pub closed spec fn wf(&self) -> bool {
        &&& self.current <= self.input@.len()
        &&& self.input@.len() < u32::MAX
        &&& self.line == line_at(self.input@, self.current as int)
        &&& self.col == col_at(self.input@, self.current as int)
    }

    /// A lexer positioned at the start of `input`.
    pub fn new(input: &'a [u8]) -> (l: Self)
        ensures
            l.source() == input@,
            l.offset() == 0,
            input@.len() < u32::MAX ==> l.wf(),
    {
        Lexer { input, current: 0, line: 1, col: 1 }
    }

    /// Scans the entire remaining input and returns its tokens, ending with
    /// `Token::Eof`, or the first lexical error.
    pub fn tokenize(&mut self) -> (r: Result<Vec<Token<'a>>, LexError>)
        requires
            old(self).wf(),
        ensures
            final(self).source() == old(self).source(),
            match lex_from(old(self).source(), old(self).offset()) {
                Ok(toks) => r matches Ok(v) && tokens_view(v@) == strip_positions(toks),
                Err(e) => r matches Err(re) && re@ == e,
            },
    {
        let with_positions = self.tokenize_with_positions()?;
        let mut tokens: Vec<Token<'a>> = Vec::new();
        let mut i: usize = 0;
        while i < with_positions.len()
            invariant
                i <= with_positions@.len(),
                tokens@.len() == i,
                forall|m: int| 0 <= m < i ==> tokens@[m] == with_positions@[m].0,
            decreases with_positions@.len() - i,
        {
            tokens.push(with_positions[i].0);
            i = i + 1;
        }
        proof {
            assert(tokens_view(tokens@) =~= strip_positions(tokens_with_positions_view(with_positions@)));
        }
        Ok(tokens)
    }

    /// Scans the entire remaining input like [`Self::tokenize`], and also
    /// gives the position at which each token starts.
    pub fn tokenize_with_positions(&mut self) -> (r: Result<Vec<(Token<'a>, Position)>, LexError>)
        requires
            old(self).wf(),
        ensures
            final(self).source() == old(self).source(),
            match lex_from(old(self).source(), old(self).offset()) {
                Ok(toks) => r matches Ok(v) && tokens_with_positions_view(v@) == toks,
                Err(e) => r matches Err(re) && re@ == e,
            },
    {
        let ghost s = self.input@;
        let ghost start = self.current as int;
        let mut tokens: Vec<(Token<'a>, Position)> = Vec::new();
        let mut eof = false;
        while !eof
            invariant
                self.wf(),
                self.input@ == s,
                s == old(self).input@,
                start == old(self).current,
                !eof ==> lex_from(s, start) == prepend_tokens(
                    tokens_with_positions_view(tokens@),
                    lex_from(s, self.current as int),
                ),
                eof ==> lex_from(s, start) == Ok::<Seq<(SToken, Position)>, SLexError>(
                    tokens_with_positions_view(tokens@),
                ),
            decreases s.len() - self.current + (if eof { 0int } else { 1int }),
        {
            let ghost before = self.current as int;
            let (token, pos) = self.next_token()?;
            eof = match token {
                Token::Eof => true,
                _ => false,
            };
            let ghost old_tokens = tokens@;
            tokens.push((token, pos));
            proof {
                let j = scan_end(s, before, ByteClass::Space);
                lemma_scan_end(s, before, ByteClass::Space);
                lemma_token_at_advances(s, j);
                assert(tokens_with_positions_view(tokens@) =~= tokens_with_positions_view(old_tokens)
                    + seq![(token@, pos)]);
                if !eof {
                    match lex_from(s, self.current as int) {
                        Ok(rest) => {
                            assert(tokens_with_positions_view(old_tokens) + (seq![(token@, pos)] + rest)
                                =~= tokens_with_positions_view(tokens@) + rest);
                        },
                        Err(e) => {},
                    }
                }
            }
        }
        Ok(tokens)
    }

    /// The byte at the current offset, or `None` at the end of the input.
    fn peek(&self) -> (r: Option<u8>)
        ensures
            r == (if self.current < self.input@.len() {
                Some(self.input@[self.current as int])
            } else {
                None::<u8>
            }),
    {
        if self.current < self.input.len() {
            Some(self.input[self.current])
        } else {
            None
        }
    }

    /// The position of the next byte to read.
    fn position(&self) -> (p: Position)
        requires
            self.wf(),
        ensures
            p == position_at(self.input@, self.current as int),
    {
        Position { line: self.line, col: self.col }
    }

    /// Consumes one byte; after a line feed the next byte is at the start
    /// of the following line, after anything else one column further on.
    fn advance(&mut self)
        requires
            old(self).wf(),
            old(self).current < old(self).input@.len(),
        ensures
            final(self).wf(),
            final(self).input == old(self).input,
            final(self).current == old(self).current + 1,
    {
        proof {
            lemma_line_col_bounds(self.input@, self.current as int);
        }
        if self.input[self.current] == 10 {
            self.line = self.line + 1;
            self.col = 1;
        } else {
            self.col = self.col + 1;
        }
        self.current = self.current + 1;
    }

    /// Consumes the run of whitespace at the current offset.
    fn skip_whitespace(&mut self)
        requires
            old(self).wf(),
        ensures
            final(self).wf(),
            final(self).input == old(self).input,
            final(self).current == scan_end(old(self).input@, old(self).current as int, ByteClass::Space),
    {
        let ghost target = scan_end(self.input@, self.current as int, ByteClass::Space);
        loop
            invariant
                self.wf(),
                self.input == old(self).input,
                scan_end(self.input@, self.current as int, ByteClass::Space) == target,
                target == scan_end(old(self).input@, old(self).current as int, ByteClass::Space),
            decreases self.input@.len() - self.current,
        {
            match self.peek() {
                Some(ch) => {
                    if is_space_byte(ch) {
                        proof {
                            assert(in_class(ByteClass::Space, self.input@[self.current as int]));
                            assert(scan_end(self.input@, self.current as int, ByteClass::Space)
                                == scan_end(self.input@, self.current + 1, ByteClass::Space));
                            lemma_scan_end(self.input@, self.current + 1, ByteClass::Space);
                        }
                        self.advance();
                    } else {
                        return;
                    }
                },
                None => {
                    return;
                },
            }
        }
    }

    /// Scans an identifier or keyword at the current offset, which holds a
    /// letter or `_`.
    fn read_identifier(&mut self) -> (t: Token<'a>)
        requires
            old(self).wf(),
        ensures
            final(self).wf(),
            final(self).input == old(self).input,
            final(self).current == scan_end(old(self).input@, old(self).current as int, ByteClass::IdentChar),
            t@ == word_token(old(self).input@.subrange(old(self).current as int, final(self).current as int)),
    {
        let start = self.current;
        let ghost target = scan_end(self.input@, self.current as int, ByteClass::IdentChar);
        loop
            invariant
                self.wf(),
                self.input == old(self).input,
                start <= self.current,
                start == old(self).current,
                scan_end(self.input@, self.current as int, ByteClass::IdentChar) == target,
                target == scan_end(old(self).input@, old(self).current as int, ByteClass::IdentChar),
            ensures
                self.current == target,
                self.wf(),
                self.input == old(self).input,
            decreases self.input@.len() - self.current,
        {
            match self.peek() {
                Some(ch) => {
                    if is_alpha_byte(ch) || is_digit_byte(ch) || ch == 95 {
                        proof {
                            assert(in_class(ByteClass::IdentChar, self.input@[self.current as int]));
                            assert(scan_end(self.input@, self.current as int, ByteClass::IdentChar)
                                == scan_end(self.input@, self.current + 1, ByteClass::IdentChar));
                            lemma_scan_end(self.input@, self.current + 1, ByteClass::IdentChar);
                        }
                        self.advance();
                    } else {
                        break;
                    }
                },
                None => {
                    break;
                },
            }
        }
        let ident = vstd::slice::slice_subrange(self.input, start, self.current);
        keyword_or_identifier(ident)
    }

    /// Scans an integer literal at the current offset, which holds a digit;
    /// `pos` is the position of that digit. Only digits belong to it: a
    /// leading `-` is the parser's unary minus.
    fn read_number(&mut self, pos: Position) -> (r: Result<Token<'a>, LexError>)
        requires
            old(self).wf(),
            old(self).current < old(self).input@.len(),
            is_digit(old(self).input@[old(self).current as int]),
            pos == position_at(old(self).input@, old(self).current as int),
        ensures
            final(self).wf(),
            final(self).input == old(self).input,
            match token_at(old(self).input@, old(self).current as int) {
                Ok((t, k)) => r matches Ok(rt) && rt@ == t && final(self).current == k,
                Err(e) => r matches Err(re) && re@ == e,
            },
    {
        let start = self.current;
        let ghost s = self.input@;
        let ghost target = scan_end(s, start as int, ByteClass::Digit);
        proof {
            lemma_scan_end(s, start as int, ByteClass::Digit);
        }
        loop
            invariant
                self.wf(),
                self.input == old(self).input,
                start <= self.current <= target,
                start == old(self).current,
                s == old(self).input@,
                scan_end(s, self.current as int, ByteClass::Digit) == target,
                target == scan_end(s, start as int, ByteClass::Digit),
                target <= s.len(),
            ensures
                self.current == target,
                self.wf(),
                self.input == old(self).input,
            decreases self.input@.len() - self.current,
        {
            match self.peek() {
                Some(ch) => {
                    if is_digit_byte(ch) {
                        proof {
                            assert(in_class(ByteClass::Digit, self.input@[self.current as int]));
                            assert(scan_end(self.input@, self.current as int, ByteClass::Digit)
                                == scan_end(self.input@, self.current + 1, ByteClass::Digit));
                            lemma_scan_end(self.input@, self.current + 1, ByteClass::Digit);
                        }
                        self.advance();
                    } else {
                        break;
                    }
                },
                None => {
                    break;
                },
            }
        }
        let digits = vstd::slice::slice_subrange(self.input, start, self.current);
        match parse_digits(digits) {
            Some(n) => Ok(Token::Number(n)),
            None => Err(LexError::InvalidNumber { pos }),
        }
    }

    /// Scans a string literal at the current offset, which holds a double
    /// quote; `pos` is the position of that quote.
    fn read_string(&mut self, pos: Position) -> (r: Result<Token<'a>, LexError>)
        requires
            old(self).wf(),
            old(self).current < old(self).input@.len(),
            old(self).input@[old(self).current as int] == 34,
            pos == position_at(old(self).input@, old(self).current as int),
        ensures
            final(self).wf(),
            final(self).input == old(self).input,
            match token_at(old(self).input@, old(self).current as int) {
                Ok((t, k)) => r matches Ok(rt) && rt@ == t && final(self).current == k,
                Err(e) => r matches Err(re) && re@ == e,
            },
    {
        let ghost s = self.input@;
        let ghost quote = self.current as int;
        self.advance();
        let start = self.current;
        let ghost target = scan_end(s, start as int, ByteClass::NotQuote);
        proof {
            lemma_scan_end(s, start as int, ByteClass::NotQuote);
        }
        loop
            invariant
                self.wf(),
                self.input == old(self).input,
                start <= self.current <= target,
                start == quote + 1,
                quote == old(self).current,
                s == old(self).input@,
                scan_end(s, self.current as int, ByteClass::NotQuote) == target,
                target == scan_end(s, start as int, ByteClass::NotQuote),
                target <= s.len(),
            ensures
                self.current == target,
                self.wf(),
                self.input == old(self).input,
            decreases self.input@.len() - self.current,
        {
            match self.peek() {
                Some(ch) => {
                    if ch != 34 {
                        proof {
                            assert(in_class(ByteClass::NotQuote, self.input@[self.current as int]));
                            assert(scan_end(self.input@, self.current as int, ByteClass::NotQuote)
                                == scan_end(self.input@, self.current + 1, ByteClass::NotQuote));
                            lemma_scan_end(self.input@, self.current + 1, ByteClass::NotQuote);
                        }
                        self.advance();
                    } else {
                        break;
                    }
                },
                None => {
                    break;
                },
            }
        }
        let string = vstd::slice::slice_subrange(self.input, start, self.current);
        let closed = match self.peek() {
            Some(ch) => ch == 34,
            None => false,
        };
        if !closed {
            let text = vstd::slice::slice_subrange(self.input, start - 1, self.current);
            return Err(LexError::UnterminatedString { string: lossy_string(text), pos });
        }
        self.advance();
        Ok(Token::String(string))
    }

    /// Scans the next token, skipping the whitespace before it, and gives
    /// the position at which it starts; `Token::Eof` at the end of input.
    fn next_token(&mut self) -> (r: Result<(Token<'a>, Position), LexError>)
        requires
            old(self).wf(),
        ensures
            final(self).wf(),
            final(self).input == old(self).input,
            ({
                let j = scan_end(old(self).input@, old(self).current as int, ByteClass::Space);
                match token_at(old(self).input@, j) {
                    Ok((t, k)) => r matches Ok(rt) && rt.0@ == t && rt.1 == position_at(old(self).input@, j)
                        && final(self).current == k,
                    Err(e) => r matches Err(re) && re@ == e,
                }
            }),
    {
        self.skip_whitespace();
        let pos = self.position();
        let ghost s = self.input@;
        let ghost j = self.current as int;
        let token = match self.peek() {
            Some(ch) => {
                if is_digit_byte(ch) {
                    self.read_number(pos)?
                } else if is_alpha_byte(ch) || ch == 95 {
                    let t = self.read_identifier();
                    t
                } else if ch == 34 {
                    self.read_string(pos)?
                } else {
                    self.advance();
                    let next = self.peek();
                    let two = match next {
                        Some(n) => n == 61,
                        None => false,
                    };
                    let pair = match next {
                        Some(n) => n == ch,
                        None => false,
                    };
                    if ch == 43 {
                        Token::Plus
                    } else if ch == 45 {
                        Token::Minus
                    } else if ch == 42 {
                        Token::Star
                    } else if ch == 47 {
                        Token::Slash
                    } else if ch == 61 && two {
                        self.advance();
                        Token::EqualEqual
                    } else if ch == 33 && two {
                        self.advance();
                        Token::BangEqual
                    } else if ch == 60 && two {
                        self.advance();
                        Token::LessEqual
                    } else if ch == 62 && two {
                        self.advance();
                        Token::GreaterEqual
                    } else if ch == 38 && pair {
                        self.advance();
                        Token::AndAnd
                    } else if ch == 124 && pair {
                        self.advance();
                        Token::OrOr
                    } else if ch == 60 {
                        Token::Less
                    } else if ch == 62 {
                        Token::Greater
                    } else if ch == 61 {
                        Token::Equal
                    } else if ch == 59 {
                        Token::Semicolon
                    } else if ch == 40 {
                        Token::LeftParen
                    } else if ch == 41 {
                        Token::RightParen
                    } else if ch == 123 {
                        Token::LeftBrace
                    } else if ch == 125 {
                        Token::RightBrace
                    } else {
                        // A lone `!`, `&` or `|` starts no token: there is no
                        // unary `!` and no bitwise `&` or `|`.
                        return Err(LexError::UnexpectedChar { ch: ch as char, pos });
                    }
                }
            },
            None => Token::Eof,
        };
        Ok((token, pos))
    }
}

/// The keyword token for `w`, or an identifier token borrowing `w`.
fn keyword_or_identifier<'a>(w: &'a [u8]) -> (t: Token<'a>)
    ensures
        t@ == word_token(w@),
{
    let n = w.len();
    if n == 3 && w[0] == 108 && w[1] == 101 && w[2] == 116 {
        assert(w@ =~= seq![108u8, 101, 116]);
        Token::Let
    } else if n == 5 && w[0] == 112 && w[1] == 114 && w[2] == 105 && w[3] == 110 && w[4] == 116 {
        assert(w@ =~= seq![112u8, 114, 105, 110, 116]);
        Token::Print
    } else if n == 2 && w[0] == 105 && w[1] == 102 {
        assert(w@ =~= seq![105u8, 102]);
        Token::If
    } else if n == 4 && w[0] == 101 && w[1] == 108 && w[2] == 115 && w[3] == 101 {
        assert(w@ =~= seq![101u8, 108, 115, 101]);
        Token::Else
    } else if n == 5 && w[0] == 119 && w[1] == 104 && w[2] == 105 && w[3] == 108 && w[4] == 101 {
        assert(w@ =~= seq![119u8, 104, 105, 108, 101]);
        Token::While
    } else if n == 4 && w[0] == 116 && w[1] == 114 && w[2] == 117 && w[3] == 101 {
        assert(w@ =~= seq![116u8, 114, 117, 101]);
        Token::True
    } else if n == 5 && w[0] == 102 && w[1] == 97 && w[2] == 108 && w[3] == 115 && w[4] == 101 {
        assert(w@ =~= seq![102u8, 97, 108, 115, 101]);
        Token::False
    } else {
        Token::Identifier(w)
    }
}
} // verus!

verus! {

/// How a token is written in diagnostic messages, e.g. `'let'`,
/// `identifier 'x'`, `number '42'` or `end of input`.
pub open spec fn token_text(t: SToken) -> Seq<char> {
    match t {
        SToken::Let => "'let'"@,
        SToken::Print => "'print'"@,
        SToken::If => "'if'"@,
        SToken::Else => "'else'"@,
        SToken::While => "'while'"@,
        SToken::Identifier(name) => "identifier '"@ + utf8_lossy(name) + "'"@,
        SToken::Number(n) => "number '"@ + decimal(n as int) + "'"@,
        SToken::Str(s) => "string '"@ + utf8_lossy(s) + "'"@,
        SToken::True => "boolean 'true'"@,
        SToken::False => "boolean 'false'"@,
        SToken::Plus => "'+'"@,
        SToken::Minus => "'-'"@,
        SToken::Star => "'*'"@,
        SToken::Slash => "'/'"@,
        SToken::EqualEqual => "'=='"@,
        SToken::BangEqual => "'!='"@,
        SToken::Less => "'<'"@,
        SToken::LessEqual => "'<='"@,
        SToken::Greater => "'>'"@,
        SToken::GreaterEqual => "'>='"@,
        SToken::AndAnd => "'&&'"@,
        SToken::OrOr => "'||'"@,
        SToken::Equal => "'='"@,
        SToken::Semicolon => "';'"@,
        SToken::LeftParen => "'('"@,
        SToken::RightParen => "')'"@,
        SToken::LeftBrace => "'{'"@,
        SToken::RightBrace => "'}'"@,
        SToken::Eof => "end of input"@,
    }
}

/// `prefix`, then `middle`, then `suffix`, as one string.
fn enclose(prefix: &str, middle: String, suffix: &str) -> (s: String)
    ensures
        s@ == prefix@ + middle@ + suffix@,
{
    let mut s = String::from_str(prefix);
    s.append(middle.as_str());
    s.append(suffix);
    s
}

/// How a position is written in diagnostic messages: `line:col`.
pub open spec fn position_text(p: Position) -> Seq<char> {
    nat_digits(p.line as nat) + ":"@ + nat_digits(p.col as nat)
}

impl Position {
    /// The position as it is written in diagnostic messages.
    pub fn to_string(&self) -> (s: String)
        ensures
            s@ == position_text(*self),
    {
        joined(nat_to_string(self.line as u64), ":", nat_to_string(self.col as u64))
    }
}

/// `left`, then `sep`, then `right`, as one string.
fn joined(left: String, sep: &str, right: String) -> (s: String)
    ensures
        s@ == left@ + sep@ + right@,
{
    let mut s = left;
    s.append(sep);
    s.append(right.as_str());
    s
}

/// The message of a lexical error, e.g. `2:9: unexpected character '@'`.
pub open spec fn lex_error_text(e: SLexError) -> Seq<char> {
    match e {
        SLexError::UnexpectedChar { ch, pos } => position_text(pos) + ": unexpected character '"@ + seq![ch]
            + "'"@,
        SLexError::InvalidNumber { pos } => position_text(pos) + ": invalid number literal"@,
        SLexError::UnterminatedString { string, pos } => position_text(pos)
            + ": unterminated string literal '"@ + string + "'"@,
    }
}

impl LexError {
    /// The error's message.
    pub fn to_string(&self) -> (s: String)
        ensures
            s@ == lex_error_text(self@),
    {
        match self {
            LexError::UnexpectedChar { ch, pos } => {
                let mut s = pos.to_string();
                s.append(": unexpected character '");
                push_char(&mut s, *ch);
                s.append("'");
                s
            },
            LexError::InvalidNumber { pos } => {
                let mut s = pos.to_string();
                s.append(": invalid number literal");
                s
            },
            LexError::UnterminatedString { string, pos } => {
                let mut s = pos.to_string();
                s.append(": unterminated string literal '");
                s.append(string.as_str());
                s.append("'");
                s
            },
        }
    }
}

impl<'a> Token<'a> {
    /// The token as it is written in diagnostic messages.
    pub fn to_string(&self) -> (s: String)
        ensures
            s@ == token_text(self@),
            self@ matches SToken::Identifier(n) ==> (valid_utf8(n) ==> s@ == "identifier '"@ + decode_utf8(n)
                + "'"@),
            self@ matches SToken::Str(b) ==> (valid_utf8(b) ==> s@ == "string '"@ + decode_utf8(b) + "'"@),
    {
        match self {
            Token::Let => String::from_str("'let'"),
            Token::Print => String::from_str("'print'"),
            Token::If => String::from_str("'if'"),
            Token::Else => String::from_str("'else'"),
            Token::While => String::from_str("'while'"),
            Token::Identifier(name) => enclose("identifier '", lossy_string(name), "'"),
            Token::Number(n) => enclose("number '", i64_to_string(*n), "'"),
            Token::String(s) => enclose("string '", lossy_string(s), "'"),
            Token::True => String::from_str("boolean 'true'"),
            Token::False => String::from_str("boolean 'false'"),
            Token::Plus => String::from_str("'+'"),
            Token::Minus => String::from_str("'-'"),
            Token::Star => String::from_str("'*'"),
            Token::Slash => String::from_str("'/'"),
            Token::EqualEqual => String::from_str("'=='"),
            Token::BangEqual => String::from_str("'!='"),
            Token::Less => String::from_str("'<'"),
            Token::LessEqual => String::from_str("'<='"),
            Token::Greater => String::from_str("'>'"),
            Token::GreaterEqual => String::from_str("'>='"),
            Token::AndAnd => String::from_str("'&&'"),
            Token::OrOr => String::from_str("'||'"),
            Token::Equal => String::from_str("'='"),
            Token::Semicolon => String::from_str("';'"),
            Token::LeftParen => String::from_str("'('"),
            Token::RightParen => String::from_str("')'"),
            Token::LeftBrace => String::from_str("'{'"),
            Token::RightBrace => String::from_str("'}'"),
            Token::Eof => String::from_str("end of input"),
        }
    }
}

} // verus!

verus! {

/// A successful lexing ends with `Eof`.
pub proof fn lemma_lex_ends_with_eof(s: Seq<u8>, i: int)
    requires
        0 <= i <= s.len(),
    ensures
        lex_from(s, i) matches Ok(t) ==> t.len() > 0 && t.last().0 == SToken::Eof,
    decreases s.len() - i,
{
    let j = scan_end(s, i, ByteClass::Space);
    lemma_scan_end(s, i, ByteClass::Space);
    lemma_token_at_advances(s, j);
    if let Ok((t, k)) = token_at(s, j) {
        if !(t is Eof) {
            lemma_lex_ends_with_eof(s, k);
            if let Ok(rest) = lex_from(s, k) {
                assert((seq![(t, position_at(s, j))] + rest).last() == rest.last());
            }
        }
    }
}

/// A successful lexing has exactly one `Eof`: its last token.
pub proof fn law_lex_single_eof(s: Seq<u8>, i: int)
    requires
        0 <= i <= s.len(),
    ensures
        lex_from(s, i) matches Ok(t) ==> {
            &&& t.len() > 0
            &&& t.last().0 == SToken::Eof
            &&& forall|m: int| 0 <= m < t.len() - 1 ==> (#[trigger] t[m]).0 != SToken::Eof
        },
    decreases s.len() - i,
{
    lemma_lex_ends_with_eof(s, i);
    let j = scan_end(s, i, ByteClass::Space);
    lemma_scan_end(s, i, ByteClass::Space);
    lemma_token_at_advances(s, j);
    if let Ok((t, k)) = token_at(s, j) {
        if !(t is Eof) && i < k <= s.len() {
            law_lex_single_eof(s, k);
            if let Ok(rest) = lex_from(s, k) {
                let all = seq![(t, position_at(s, j))] + rest;
                assert forall|m: int| 0 <= m < all.len() - 1 implies (#[trigger] all[m]).0 != SToken::Eof by {
                    if m > 0 {
                        assert(all[m] == rest[m - 1]);
                    }
                }
            }
        }
    }
}

/// The number of line feeds among the first `j` bytes of `s`.
pub open spec fn line_feeds_before(s: Seq<u8>, j: int) -> nat {
    s.take(j).filter(|b: u8| b == 10u8).len()
}

/// What a position counts: the line of offset `j` is one more than the
/// number of line feeds before it, and its column is one more than the
/// number of bytes between it and the start of its line, the offset just
/// past the last line feed before it (or the start of the input).
pub proof fn law_position_counts(s: Seq<u8>, j: int)
    requires
        0 <= j <= s.len(),
    ensures
        line_at(s, j) == 1 + line_feeds_before(s, j),
        ({
            let start = j - col_at(s, j) + 1;
            &&& 0 <= start <= j
            &&& start == 0 || s[start - 1] == 10u8
            &&& forall|m: int| start <= m < j ==> #[trigger] s[m] != 10u8
        }),
    decreases j,
{
    reveal(Seq::filter);
    lemma_line_col_bounds(s, j);
    if j > 0 {
        law_position_counts(s, j - 1);
        assert(s.take(j).drop_last() =~= s.take(j - 1));
        assert(s.take(j).last() == s[j - 1]);
    } else {
        assert(s.take(0).len() == 0);
    }
}

/// Once the input is used up, lexing gives `Eof` alone, at the position
/// where it stands, however often it is asked.
pub proof fn law_eof_repeats(s: Seq<u8>, j: int)
    requires
        s.len() <= j,
    ensures
        token_at(s, j) == Ok::<(SToken, int), SLexError>((SToken::Eof, j)),
        lex_from(s, j) == Ok::<Seq<(SToken, Position)>, SLexError>(seq![(SToken::Eof, position_at(s, j))]),
{
}

/// The tokens that lexing from offset `i` makes up to offset `j`, where a
/// token ends, if it gets there without an error and without `Eof`.
pub open spec fn lex_until(s: Seq<u8>, i: int, j: int) -> Option<Seq<(SToken, Position)>>
    decreases s.len() - i,
{
    if i == j {
        Some(seq![])
    } else {
        let m = scan_end(s, i, ByteClass::Space);
        match token_at(s, m) {
            Ok((t, k)) => if !(t is Eof) && i < k <= j && k <= s.len() {
                match lex_until(s, k, j) {
                    Some(rest) => Some(seq![(t, position_at(s, m))] + rest),
                    None => None,
                }
            } else {
                None
            },
            Err(_) => None,
        }
    }
}

/// A lexical error is that of the leftmost token that is not valid: the
/// input before it lexes without error, up to an offset `j` from which
/// the next token, after whitespace, gives the error.
pub proof fn law_lex_error_is_leftmost(s: Seq<u8>, i: int)
    requires
        0 <= i <= s.len(),
    ensures
        lex_from(s, i) matches Err(e) ==> exists|j: int|
            i <= j <= s.len() && #[trigger] lex_until(s, i, j) is Some && token_at(s, scan_end(s, j, ByteClass::Space))
                == Err::<(SToken, int), SLexError>(e),
    decreases s.len() - i,
{
    let m = scan_end(s, i, ByteClass::Space);
    lemma_scan_end(s, i, ByteClass::Space);
    lemma_token_at_advances(s, m);
    if let Err(e) = lex_from(s, i) {
        match token_at(s, m) {
            Err(e2) => {
                assert(lex_until(s, i, i) is Some);
            },
            Ok((t, k)) => {
                law_lex_error_is_leftmost(s, k);
                let j = choose|j: int|
                    k <= j <= s.len() && #[trigger] lex_until(s, k, j) is Some && token_at(
                        s,
                        scan_end(s, j, ByteClass::Space),
                    ) == Err::<(SToken, int), SLexError>(e);
                assert(lex_until(s, i, j) is Some);
            },
        }
    }
}

/// Position `a` comes strictly before position `b`: on an earlier line, or
/// on the same line at an earlier column.
pub open spec fn before(a: Position, b: Position) -> bool {
    a.line < b.line || (a.line == b.line && a.col < b.col)
}

/// Line and column grow with the offset: a later offset is on a later line,
/// or on the same line at a later column.
pub proof fn lemma_line_col_increase(s: Seq<u8>, a: int, b: int)
    requires
        0 <= a < b <= s.len(),
    ensures
        line_at(s, a) < line_at(s, b) || (line_at(s, a) == line_at(s, b) && col_at(s, a) < col_at(s, b)),
    decreases b,
{
    if a < b - 1 {
        lemma_line_col_increase(s, a, b - 1);
    }
}

/// The position of a later offset comes after that of an earlier one.
pub proof fn lemma_position_at_increase(s: Seq<u8>, a: int, b: int)
    requires
        0 <= a < b <= s.len(),
        s.len() < u32::MAX,
    ensures
        before(position_at(s, a), position_at(s, b)),
        1 <= position_at(s, a).line && 1 <= position_at(s, a).col,
{
    lemma_line_col_increase(s, a, b);
    lemma_line_col_bounds(s, a);
    lemma_line_col_bounds(s, b);
}

/// The positions of the tokens of a successful lexing strictly increase,
/// each at line 1 or later and column 1 or later, and none comes before
/// the position of the offset the lexing starts from.
pub proof fn law_lex_positions_increase(s: Seq<u8>, i: int)
    requires
        0 <= i <= s.len(),
        s.len() < u32::MAX,
    ensures
        lex_from(s, i) matches Ok(t) ==> {
            &&& forall|a: int, b: int| 0 <= a < b < t.len() ==> before(#[trigger] t[a].1, #[trigger] t[b].1)
            &&& forall|m: int| 0 <= m < t.len() ==> 1 <= (#[trigger] t[m]).1.line && 1 <= t[m].1.col
            &&& forall|m: int| 0 <= m < t.len() ==> !before(#[trigger] t[m].1, position_at(s, i))
        },
    decreases s.len() - i,
{
    let j = scan_end(s, i, ByteClass::Space);
    lemma_scan_end(s, i, ByteClass::Space);
    lemma_token_at_advances(s, j);
    lemma_line_col_bounds(s, j);
    lemma_line_col_bounds(s, i);
    if i < j {
        lemma_position_at_increase(s, i, j);
    }
    if let Ok((t, k)) = token_at(s, j) {
        if !(t is Eof) && i < k <= s.len() {
            law_lex_positions_increase(s, k);
            lemma_position_at_increase(s, j, k);
            if let Ok(rest) = lex_from(s, k) {
                let all = seq![(t, position_at(s, j))] + rest;
                assert forall|m: int| 0 <= m < all.len() implies 1 <= (#[trigger] all[m]).1.line && 1
                    <= all[m].1.col && !before(all[m].1, position_at(s, i)) by {
                    if m > 0 {
                        assert(all[m] == rest[m - 1]);
                    }
                }
                assert forall|a: int, b: int| 0 <= a < b < all.len() implies before(
                    #[trigger] all[a].1,
                    #[trigger] all[b].1,
                ) by {
                    assert(all[b] == rest[b - 1]);
                    if a > 0 {
                        assert(all[a] == rest[a - 1]);
                    }
                }
            }
        }
    }
}

/// The positions alone of a list of tokens with positions.
pub open spec fn positions_of(v: Seq<(SToken, Position)>) -> Seq<Position> {
    v.map_values(|p: (SToken, Position)| p.1)
}

} // verus!

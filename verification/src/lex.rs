//! The lexer: from ASCII text to tokens.

use crate::ident::{from_slice, text_of};
use ecow::EcoString;
use vstd::prelude::*;
use vstd::string::*;

verus! {

broadcast use vstd::string::is_ascii_spec_bytes;

/// A token. Names and literals carry their text.
#[derive(Debug, Clone, PartialEq, Eq)]
pub enum Token {
    Ident(EcoString),
    NumLit(EcoString),
    Newline,
    Assign,
    LeftParen,
    RightParen,
    Comma,
    Dot,
    Plus,
    Minus,
    Cdot,
    Slash,
}

/// What a `Token` is, with its text as characters.
pub ghost enum TokenView {
    Ident(Seq<char>),
    NumLit(Seq<char>),
    Newline,
    Assign,
    LeftParen,
    RightParen,
    Comma,
    Dot,
    Plus,
    Minus,
    Cdot,
    Slash,
}

impl View for Token {
    type V = TokenView;

    open spec fn view(&self) -> TokenView {
        match self {
            Token::Ident(name) => TokenView::Ident(text_of(*name)),
            Token::NumLit(text) => TokenView::NumLit(text_of(*text)),
            Token::Newline => TokenView::Newline,
            Token::Assign => TokenView::Assign,
            Token::LeftParen => TokenView::LeftParen,
            Token::RightParen => TokenView::RightParen,
            Token::Comma => TokenView::Comma,
            Token::Dot => TokenView::Dot,
            Token::Plus => TokenView::Plus,
            Token::Minus => TokenView::Minus,
            Token::Cdot => TokenView::Cdot,
            Token::Slash => TokenView::Slash,
        }
    }
}

/// The values of `tokens`, in order.
pub open spec fn tokens_view(tokens: Seq<Token>) -> Seq<TokenView> {
    Seq::new(tokens.len(), |i: int| tokens[i]@)
}

/// The text holds a character that starts no token.
#[derive(Debug, Clone, Copy, PartialEq, Eq, Structural)]
pub struct LexError {
    pub character: char,
}

/// The ASCII code of a tab.
const TAB: u8 = 9;

/// The ASCII code of a line feed.
const LINE_FEED: u8 = 10;

/// The ASCII code of a form feed.
const FORM_FEED: u8 = 12;

/// The ASCII code of a carriage return.
const CARRIAGE_RETURN: u8 = 13;

/// The ASCII code of a space.
const SPACE: u8 = 32;

/// The ASCII code of `(`.
const LEFT_PAREN: u8 = 40;

/// The ASCII code of `)`.
const RIGHT_PAREN: u8 = 41;

/// The ASCII code of `*`.
const ASTERISK: u8 = 42;

/// The ASCII code of `+`.
const PLUS_SIGN: u8 = 43;

/// The ASCII code of `,`.
const COMMA: u8 = 44;

/// The ASCII code of `-`.
const MINUS_SIGN: u8 = 45;

/// The ASCII code of `.`.
const FULL_STOP: u8 = 46;

/// The ASCII code of `/`.
const SLASH: u8 = 47;

/// The ASCII code of `0`.
const DIGIT_ZERO: u8 = 48;

/// The ASCII code of `9`.
const DIGIT_NINE: u8 = 57;

/// The ASCII code of `:`.
const COLON: u8 = 58;

/// The ASCII code of `=`.
const EQUALS_SIGN: u8 = 61;

/// The ASCII code of `A`.
const UPPER_A: u8 = 65;

/// The ASCII code of `Z`.
const UPPER_Z: u8 = 90;

/// The ASCII code of `a`.
const LOWER_A: u8 = 97;

/// The ASCII code of `z`.
const LOWER_Z: u8 = 122;

/// The classes of characters that the lexer reads in runs.
#[derive(Debug, Clone, Copy, PartialEq, Eq, Structural)]
pub enum CharClass {
    /// Space, tab and form feed: the ASCII whitespace that ends no line.
    Blank,
    /// The ASCII letters.
    Alphabetic,
    /// The ASCII digits.
    Digit,
}

impl CharClass {
    /// Whether `c` belongs to the class.
    pub open spec fn holds(self, c: char) -> bool {
        match self {
            CharClass::Blank => c == ' ' || c == '\t' || c == '\x0C',
            CharClass::Alphabetic => ('a' <= c && c <= 'z') || ('A' <= c && c <= 'Z'),
            CharClass::Digit => '0' <= c && c <= '9',
        }
    }

    /// Whether the byte `b` is an ASCII character of the class.
    fn has(&self, b: u8) -> (r: bool)
        ensures
            r == (b < 128 && self.holds(b as char)),
    {
        match self {
            CharClass::Blank => b == SPACE || b == TAB || b == FORM_FEED,
            CharClass::Alphabetic => (LOWER_A <= b && b <= LOWER_Z) || (UPPER_A <= b && b
                <= UPPER_Z),
            CharClass::Digit => DIGIT_ZERO <= b && b <= DIGIT_NINE,
        }
    }
}

/// Where the longest run of characters of `class` that starts at `pos` ends.
pub open spec fn run_end(s: Seq<char>, pos: int, class: CharClass) -> int
    decreases s.len() - pos,
{
    if 0 <= pos < s.len() && class.holds(s[pos]) {
        run_end(s, pos + 1, class)
    } else {
        pos
    }
}

/// Where the numeric literal that starts at `pos` ends: digits, then
/// optionally a dot and further digits, or a dot and at least one digit.
/// It is `pos` where no literal starts there.
pub open spec fn number_end(s: Seq<char>, pos: int) -> int {
    let whole = run_end(s, pos, CharClass::Digit);
    if whole > pos {
        if whole < s.len() && s[whole] == '.' {
            run_end(s, whole + 1, CharClass::Digit)
        } else {
            whole
        }
    } else if 0 <= pos < s.len() && s[pos] == '.' && run_end(s, pos + 1, CharClass::Digit) > pos
        + 1 {
        run_end(s, pos + 1, CharClass::Digit)
    } else {
        pos
    }
}

/// The token that starts at `pos`, with the position after it, or the
/// character that starts none.
pub open spec fn token_at(s: Seq<char>, pos: int) -> Result<(TokenView, int), LexError>
    recommends
        0 <= pos < s.len(),
{
    let c = s[pos];
    if c == '\r' {
        if pos + 1 < s.len() && s[pos + 1] == '\n' {
            Ok((TokenView::Newline, pos + 2))
        } else {
            Ok((TokenView::Newline, pos + 1))
        }
    } else if c == '\n' {
        Ok((TokenView::Newline, pos + 1))
    } else if c == ':' {
        if pos + 1 < s.len() && s[pos + 1] == '=' {
            Ok((TokenView::Assign, pos + 2))
        } else {
            Err(LexError { character: c })
        }
    } else if c == ')' {
        Ok((TokenView::RightParen, pos + 1))
    } else if c == '(' {
        Ok((TokenView::LeftParen, pos + 1))
    } else if c == ',' {
        Ok((TokenView::Comma, pos + 1))
    } else if c == '+' {
        Ok((TokenView::Plus, pos + 1))
    } else if c == '-' {
        Ok((TokenView::Minus, pos + 1))
    } else if c == '*' {
        Ok((TokenView::Cdot, pos + 1))
    } else if c == '/' {
        Ok((TokenView::Slash, pos + 1))
    } else if CharClass::Alphabetic.holds(c) {
        let end = run_end(s, pos, CharClass::Alphabetic);
        Ok((TokenView::Ident(s.subrange(pos, end)), end))
    } else if CharClass::Digit.holds(c) || c == '.' {
        let end = number_end(s, pos);
        if end > pos {
            Ok((TokenView::NumLit(s.subrange(pos, end)), end))
        } else {
            Ok((TokenView::Dot, pos + 1))
        }
    } else {
        Err(LexError { character: c })
    }
}

/// `tokens` before what `rest` holds, or the error of `rest`.
pub open spec fn before<T, E>(tokens: Seq<T>, rest: Result<Seq<T>, E>) -> Result<Seq<T>, E> {
    match rest {
        Ok(more) => Ok(tokens + more),
        Err(e) => Err(e),
    }
}

/// The tokens of `s` from `pos` on: blanks are skipped, and each token is
/// the longest that starts where the one before it ended.
pub open spec fn lex_from(s: Seq<char>, pos: int) -> Result<Seq<TokenView>, LexError>
    decreases s.len() - pos,
{
    let start = run_end(s, pos, CharClass::Blank);
    if 0 <= start < s.len() {
        match token_at(s, start) {
            Ok((token, end)) => {
                proof {
                    lemma_run_end_bounds(s, pos, CharClass::Blank);
                    lemma_token_at_bounds(s, start);
                }
                before(seq![token], lex_from(s, end))
            },
            Err(e) => Err(e),
        }
    } else {
        Ok(Seq::empty())
    }
}

/// The tokens of the text `s`.
pub open spec fn lex_spec(s: Seq<char>) -> Result<Seq<TokenView>, LexError> {
    lex_from(s, 0)
}

/// A run ends at or after its start, within the text.
pub proof fn lemma_run_end_bounds(s: Seq<char>, pos: int, class: CharClass)
    requires
        0 <= pos <= s.len(),
    ensures
        pos <= run_end(s, pos, class) <= s.len(),
        forall|i: int| pos <= i < run_end(s, pos, class) ==> class.holds(#[trigger] s[i]),
        run_end(s, pos, class) < s.len() ==> !class.holds(s[run_end(s, pos, class)]),
    decreases s.len() - pos,
{
    if pos < s.len() && class.holds(s[pos]) {
        lemma_run_end_bounds(s, pos + 1, class);
    }
}

/// A numeric literal ends at or after its start, within the text.
pub proof fn lemma_number_end_bounds(s: Seq<char>, pos: int)
    requires
        0 <= pos <= s.len(),
    ensures
        pos <= number_end(s, pos) <= s.len(),
        pos < s.len() && CharClass::Digit.holds(s[pos]) ==> pos < number_end(s, pos),
{
    lemma_run_end_bounds(s, pos, CharClass::Digit);
    let whole = run_end(s, pos, CharClass::Digit);
    if whole < s.len() {
        lemma_run_end_bounds(s, whole + 1, CharClass::Digit);
    }
    if pos < s.len() {
        lemma_run_end_bounds(s, pos + 1, CharClass::Digit);
    }
}

/// A token is not empty and ends within the text.
pub proof fn lemma_token_at_bounds(s: Seq<char>, pos: int)
    requires
        0 <= pos < s.len(),
    ensures
        token_at(s, pos) matches Ok((_, end)) ==> pos < end <= s.len(),
{
    lemma_run_end_bounds(s, pos, CharClass::Alphabetic);
    lemma_number_end_bounds(s, pos);
}

/// Skipping blanks twice is skipping them once.
pub proof fn lemma_lex_from_skips_blanks(s: Seq<char>, pos: int)
    requires
        0 <= pos <= s.len(),
    ensures
        lex_from(s, run_end(s, pos, CharClass::Blank)) == lex_from(s, pos),
{
    lemma_run_end_bounds(s, pos, CharClass::Blank);
    let start = run_end(s, pos, CharClass::Blank);
    assert(run_end(s, start, CharClass::Blank) == start);
}

/// The cursor of the lexer over its input, and the tokens read so far.
struct Lexer<'a> {
    input: &'a str,
    bytes: &'a [u8],
    pos: usize,
    tokens: Vec<Token>,
}

impl<'a> Lexer<'a> {
    /// The input is ASCII text, `bytes` holds its characters, and the cursor
    /// stands within it.
    spec fn wf(&self) -> bool {
        &&& is_ascii(self.input)
        &&& self.bytes@.len() == self.input@.len()
        &&& forall|i: int|
            0 <= i < self.bytes@.len() ==> #[trigger] self.bytes@[i] == self.input@[i] as u8
        &&& self.pos <= self.input@.len()
    }

    /// The lexer moved on over the same input and kept its tokens.
    spec fn advanced_from(&self, before: &Self) -> bool {
        &&& self.wf()
        &&& self.input == before.input
        &&& self.bytes == before.bytes
        &&& self.tokens == before.tokens
    }

    /// A lexer at the start of `input`.
    fn new(input: &'a str) -> (r: Self)
        requires
            is_ascii(input),
        ensures
            r.wf(),
            r.input == input,
            r.pos == 0,
            r.tokens@.len() == 0,
    {
        Lexer { input, bytes: input.as_bytes(), pos: 0, tokens: Vec::new() }
    }

    /// The character at the cursor, if the input has not ended.
    fn peek_char(&self) -> (r: Option<u8>)
        requires
            self.wf(),
        ensures
            match r {
                Some(b) => {
                    &&& self.pos < self.input@.len()
                    &&& self.pos < usize::MAX
                    &&& b < 128
                    &&& b as char == self.input@[self.pos as int]
                },
                None => self.pos == self.input@.len(),
            },
    {
        if self.pos < self.bytes.len() {
            Some(self.bytes[self.pos])
        } else {
            None
        }
    }

    /// Takes the character at the cursor if it is of `class`.
    fn next_char_if(&mut self, class: CharClass) -> (r: Option<u8>)
        requires
            old(self).wf(),
        ensures
            final(self).advanced_from(old(self)),
            match r {
                Some(b) => {
                    &&& old(self).pos < old(self).input@.len()
                    &&& b < 128
                    &&& b as char == old(self).input@[old(self).pos as int]
                    &&& class.holds(b as char)
                    &&& final(self).pos == old(self).pos + 1
                },
                None => {
                    &&& final(self).pos == old(self).pos
                    &&& old(self).pos < old(self).input@.len() ==> !class.holds(
                        old(self).input@[old(self).pos as int],
                    )
                },
            },
    {
        match self.peek_char() {
            Some(b) => {
                if class.has(b) {
                    self.pos += 1;
                    Some(b)
                } else {
                    None
                }
            },
            None => None,
        }
    }

    /// Takes the character at the cursor.
    fn next_char(&mut self) -> (r: Option<u8>)
        requires
            old(self).wf(),
        ensures
            final(self).advanced_from(old(self)),
            match r {
                Some(b) => {
                    &&& old(self).pos < old(self).input@.len()
                    &&& b < 128
                    &&& b as char == old(self).input@[old(self).pos as int]
                    &&& final(self).pos == old(self).pos + 1
                },
                None => final(self).pos == old(self).pos && old(self).pos == old(self).input@.len(),
            },
    {
        let next = self.peek_char();
        if next.is_some() {
            self.pos += 1;
        }
        next
    }

    /// Takes the character at the cursor if it is `c`.
    fn next_char_exact(&mut self, c: u8) -> (r: bool)
        requires
            old(self).wf(),
            c < 128,
        ensures
            final(self).advanced_from(old(self)),
            r == (old(self).pos < old(self).input@.len() && old(self).input@[old(self).pos as int]
                == c as char),
            final(self).pos == if r {
                old(self).pos + 1
            } else {
                old(self).pos as int
            },
    {
        match self.peek_char() {
            Some(b) => {
                if b == c {
                    self.pos += 1;
                    true
                } else {
                    false
                }
            },
            None => false,
        }
    }

    /// Takes the longest run of characters of `class`, and tells whether it
    /// holds any.
    fn one_or_more_greedy(&mut self, class: CharClass) -> (found: bool)
        requires
            old(self).wf(),
        ensures
            final(self).advanced_from(old(self)),
            final(self).pos == run_end(old(self).input@, old(self).pos as int, class),
            found == (final(self).pos > old(self).pos),
    {
        let mut found = false;
        let ghost start = self.pos as int;
        loop
            invariant
                self.advanced_from(old(self)),
                start == old(self).pos,
                start <= self.pos,
                run_end(self.input@, start, class) == run_end(self.input@, self.pos as int, class),
                found == (self.pos > start),
            ensures
                self.pos == run_end(self.input@, start, class),
            decreases self.input@.len() - self.pos,
        {
            if self.next_char_if(class).is_none() {
                break ;
            }
            found = true;
        }
        found
    }

    /// Takes the longest run of characters of `class`.
    fn next_char_while(&mut self, class: CharClass)
        requires
            old(self).wf(),
        ensures
            final(self).advanced_from(old(self)),
            final(self).pos == run_end(old(self).input@, old(self).pos as int, class),
    {
        self.one_or_more_greedy(class);
    }

    /// Takes the longest run of digits, and tells whether it holds any.
    fn read_digits(&mut self) -> (found: bool)
        requires
            old(self).wf(),
        ensures
            final(self).advanced_from(old(self)),
            final(self).pos == run_end(old(self).input@, old(self).pos as int, CharClass::Digit),
            found == (final(self).pos > old(self).pos),
    {
        self.one_or_more_greedy(CharClass::Digit)
    }

    /// Takes the numeric literal at the cursor, if one starts there.
    fn read_number_unsigned(&mut self) -> (found: bool)
        requires
            old(self).wf(),
        ensures
            final(self).advanced_from(old(self)),
            final(self).pos == number_end(old(self).input@, old(self).pos as int),
            found == (final(self).pos > old(self).pos),
    {
        proof {
            lemma_run_end_bounds(self.input@, self.pos as int, CharClass::Digit);
        }
        if self.read_digits() {
            self.next_char_exact(FULL_STOP);
            proof {
                lemma_run_end_bounds(self.input@, self.pos as int, CharClass::Digit);
            }
            self.read_digits();
            return true;
        }
        let start = self.pos;
        if self.next_char_exact(FULL_STOP) {
            if self.read_digits() {
                true
            } else {
                self.pos = start;
                false
            }
        } else {
            false
        }
    }

    /// The text from `start` to the cursor, as a token's text.
    fn text_since(&self, start: usize) -> (r: EcoString)
        requires
            self.wf(),
            start <= self.pos,
        ensures
            text_of(r) == self.input@.subrange(start as int, self.pos as int),
    {
        from_slice(self.input.substring_ascii(start, self.pos))
    }

    /// Reads the input to its end.
    fn run(self) -> (r: Result<Vec<Token>, LexError>)
        requires
            self.wf(),
            self.pos == 0,
            self.tokens@.len() == 0,
        ensures
            match r {
                Ok(tokens) => lex_spec(self.input@) == Ok::<_, LexError>(tokens_view(tokens@)),
                Err(e) => lex_spec(self.input@) == Err::<Seq<TokenView>, _>(e),
            },
    {
        let mut lexer = self;
        let ghost s = lexer.input@;
        let ghost initial = lexer;
        proof {
            lemma_lex_from_skips_blanks(s, 0);
            assert(tokens_view(lexer.tokens@) =~= Seq::empty());
        }
        lexer.next_char_while(CharClass::Blank);
        proof {
            lemma_run_end_bounds(s, 0, CharClass::Blank);
            assert(run_end(s, lexer.pos as int, CharClass::Blank) == lexer.pos);
        }
        loop
            invariant
                lexer.wf(),
                lexer.input == initial.input,
                s == lexer.input@,
                s == self.input@,
                lex_from(s, 0) == before(tokens_view(lexer.tokens@), lex_from(s, lexer.pos as int)),
                lexer.pos == run_end(s, lexer.pos as int, CharClass::Blank),
            decreases s.len() - lexer.pos,
        {
            let start = lexer.pos;
            let c = match lexer.next_char() {
                Some(c) => c,
                None => {
                    assert(tokens_view(lexer.tokens@) + Seq::empty() =~= tokens_view(
                        lexer.tokens@,
                    ));
                    return Ok(lexer.tokens);
                },
            };
            proof {
                lemma_run_end_bounds(s, start as int, CharClass::Alphabetic);
                lemma_number_end_bounds(s, start as int);
                lemma_token_at_bounds(s, start as int);
            }
            let token = if c == CARRIAGE_RETURN {
                lexer.next_char_exact(LINE_FEED);
                Token::Newline
            } else if c == LINE_FEED {
                Token::Newline
            } else if c == COLON {
                if !lexer.next_char_exact(EQUALS_SIGN) {
                    return Err(LexError { character: ':' });
                }
                Token::Assign
            } else if c == RIGHT_PAREN {
                Token::RightParen
            } else if c == LEFT_PAREN {
                Token::LeftParen
            } else if c == COMMA {
                Token::Comma
            } else if c == PLUS_SIGN {
                Token::Plus
            } else if c == MINUS_SIGN {
                Token::Minus
            } else if c == ASTERISK {
                Token::Cdot
            } else if c == SLASH {
                Token::Slash
            } else if CharClass::Alphabetic.has(c) {
                lexer.next_char_while(CharClass::Alphabetic);
                Token::Ident(lexer.text_since(start))
            } else if CharClass::Digit.has(c) || c == FULL_STOP {
                lexer.pos = start;
                if lexer.read_number_unsigned() {
                    Token::NumLit(lexer.text_since(start))
                } else {
                    lexer.pos = start + 1;
                    Token::Dot
                }
            } else {
                return Err(LexError { character: c as char });
            };
            assert(token_at(s, start as int) == Ok::<_, LexError>((token@, lexer.pos as int)));
            let ghost emitted = tokens_view(lexer.tokens@);
            let ghost end = lexer.pos as int;
            lexer.tokens.push(token);
            proof {
                assert(tokens_view(lexer.tokens@) =~= emitted + seq![token@]);
                assert(lex_from(s, start as int) == before(seq![token@], lex_from(s, end)));
                match lex_from(s, end) {
                    Ok(more) => {
                        assert((emitted + seq![token@]) + more =~= emitted + (seq![token@] + more));
                    },
                    Err(_) => {},
                }
                lemma_lex_from_skips_blanks(s, end);
            }
            lexer.next_char_while(CharClass::Blank);
            proof {
                lemma_run_end_bounds(s, end, CharClass::Blank);
                assert(run_end(s, lexer.pos as int, CharClass::Blank) == lexer.pos);
            }
        }
    }
}

/// Reads the tokens of `input`, or finds the first character that starts
/// none.
pub fn lex(input: &str) -> (r: Result<Vec<Token>, LexError>)
    requires
        is_ascii(input),
    ensures
        match r {
            Ok(tokens) => lex_spec(input@) == Ok::<_, LexError>(tokens_view(tokens@)),
            Err(e) => lex_spec(input@) == Err::<Seq<TokenView>, _>(e),
        },
{
    Lexer::new(input).run()
}

} // verus!

use vstd::prelude::*;

use crate::chars::{hex_digit, hex_value, is_digit, is_digit_char, is_scalar, is_ws, is_ws_char};
use crate::token::{tokens_view, SpecToken, Token};

verus! {

/// `s[i] == c`, with `i` in range.
pub open spec fn has(s: Seq<char>, i: int, c: char) -> bool {
    0 <= i < s.len() && s[i] == c
}

pub open spec fn digit_at(s: Seq<char>, i: int) -> bool {
    0 <= i < s.len() && is_digit(s[i])
}

/// The first position at or after `i` that holds no whitespace.
pub open spec fn skip_ws(s: Seq<char>, i: int) -> int
    decreases s.len() - i,
{
    if 0 <= i < s.len() && is_ws(s[i]) {
        skip_ws(s, i + 1)
    } else {
        i
    }
}

/// The first position at or after `i` that holds no digit.
pub open spec fn digits_end(s: Seq<char>, i: int) -> int
    decreases s.len() - i,
{
    if digit_at(s, i) {
        digits_end(s, i + 1)
    } else {
        i
    }
}

/// The end of the integer part of a number that starts at `i`: a lone `0`, or
/// a nonzero digit and the digits after it.
pub open spec fn int_part_end(s: Seq<char>, i: int) -> Option<int> {
    if has(s, i, '0') {
        if digit_at(s, i + 1) {
            None
        } else {
            Some(i + 1)
        }
    } else if digit_at(s, i) {
        Some(digits_end(s, i + 1))
    } else {
        None
    }
}

/// The end of an optional fraction at `i`: a dot and at least one digit.
pub open spec fn frac_part_end(s: Seq<char>, i: int) -> Option<int> {
    if has(s, i, '.') {
        if digit_at(s, i + 1) {
            Some(digits_end(s, i + 1))
        } else {
            None
        }
    } else {
        Some(i)
    }
}

/// The end of an optional exponent at `i`: `e` or `E`, an optional sign and
/// at least one digit.
pub open spec fn exp_part_end(s: Seq<char>, i: int) -> Option<int> {
    if has(s, i, 'e') || has(s, i, 'E') {
        let j = if has(s, i + 1, '+') || has(s, i + 1, '-') {
            i + 2
        } else {
            i + 1
        };
        if digit_at(s, j) {
            Some(digits_end(s, j))
        } else {
            None
        }
    } else {
        Some(i)
    }
}

/// The end of the number that starts at `i`, or `None` where the text there
/// is no number.
pub open spec fn number_end(s: Seq<char>, i: int) -> Option<int> {
    let j = if has(s, i, '-') {
        i + 1
    } else {
        i
    };
    match int_part_end(s, j) {
        Some(k) => match frac_part_end(s, k) {
            Some(m) => exp_part_end(s, m),
            None => None,
        },
        None => None,
    }
}

/// The character that a backslash and `c` stand for, for the escapes other
/// than `\u`.
pub open spec fn escaped(c: char) -> Option<char> {
    if c == '"' {
        Some('"')
    } else if c == '\\' {
        Some('\\')
    } else if c == '/' {
        Some('/')
    } else if c == 'b' {
        Some('\u{8}')
    } else if c == 'f' {
        Some('\u{c}')
    } else if c == 'n' {
        Some('\n')
    } else if c == 'r' {
        Some('\r')
    } else if c == 't' {
        Some('\t')
    } else {
        None
    }
}

/// The number written by the four hexadecimal digits at `i`.
pub open spec fn hex4(s: Seq<char>, i: int) -> Option<u32> {
    if 0 <= i && i + 4 <= s.len() {
        match (hex_value(s[i]), hex_value(s[i + 1]), hex_value(s[i + 2]), hex_value(s[i + 3])) {
            (Some(a), Some(b), Some(c), Some(d)) => Some((a * 4096 + b * 256 + c * 16 + d) as u32),
            _ => None,
        }
    } else {
        None
    }
}

/// Scans the body of a string from `i`, after `acc` has been decoded: the
/// decoded text and the position after the closing quote, or `None` where the
/// string is malformed or not closed.
pub open spec fn scan_string(s: Seq<char>, i: int, acc: Seq<char>) -> Option<(Seq<char>, int)>
    decreases s.len() - i,
{
    if !(0 <= i < s.len()) {
        None
    } else if s[i] == '"' {
        Some((acc, i + 1))
    } else if s[i] == '\\' {
        if !(i + 1 < s.len()) {
            None
        } else if s[i + 1] == 'u' {
            match hex4(s, i + 2) {
                Some(code) => if is_scalar(code) {
                    scan_string(s, i + 6, acc.push(code as char))
                } else {
                    None
                },
                None => None,
            }
        } else {
            match escaped(s[i + 1]) {
                Some(c) => scan_string(s, i + 2, acc.push(c)),
                None => None,
            }
        }
    } else if (s[i] as u32) < 0x20 {
        None
    } else {
        scan_string(s, i + 1, acc.push(s[i]))
    }
}

/// The literal word `w` stands at `i`.
pub open spec fn word_at(s: Seq<char>, i: int, w: Seq<char>) -> bool {
    0 <= i && i + w.len() <= s.len() && s.subrange(i, i + w.len()) == w
}

pub open spec fn true_word() -> Seq<char> {
    seq!['t', 'r', 'u', 'e']
}

pub open spec fn false_word() -> Seq<char> {
    seq!['f', 'a', 'l', 's', 'e']
}

pub open spec fn null_word() -> Seq<char> {
    seq!['n', 'u', 'l', 'l']
}

/// The token that follows position `pos`, after whitespace, with the position
/// after it; `None` at the end of the text and where the text there is no token.
pub open spec fn lex_next(s: Seq<char>, pos: int) -> Option<(SpecToken, int)> {
    let i = skip_ws(s, pos);
    if !(0 <= i < s.len()) {
        None
    } else {
        let c = s[i];
        if c == '{' {
            Some((SpecToken::OpenBrace, i + 1))
        } else if c == '}' {
            Some((SpecToken::CloseBrace, i + 1))
        } else if c == '[' {
            Some((SpecToken::OpenBracket, i + 1))
        } else if c == ']' {
            Some((SpecToken::CloseBracket, i + 1))
        } else if c == ':' {
            Some((SpecToken::Colon, i + 1))
        } else if c == ',' {
            Some((SpecToken::Comma, i + 1))
        } else if c == '"' {
            match scan_string(s, i + 1, Seq::empty()) {
                Some((text, e)) => Some((SpecToken::Str(text), e)),
                None => None,
            }
        } else if c == '-' || is_digit(c) {
            match number_end(s, i) {
                Some(e) => Some((SpecToken::Num(s.subrange(i, e)), e)),
                None => None,
            }
        } else if c == 't' {
            if word_at(s, i, true_word()) {
                Some((SpecToken::Boolean(true), i + 4))
            } else {
                None
            }
        } else if c == 'f' {
            if word_at(s, i, false_word()) {
                Some((SpecToken::Boolean(false), i + 5))
            } else {
                None
            }
        } else if c == 'n' {
            if word_at(s, i, null_word()) {
                Some((SpecToken::Null, i + 4))
            } else {
                None
            }
        } else {
            None
        }
    }
}

/// The tokens read from `pos` on, up to the end of the text or the first
/// place that holds no token, whichever comes first. (Every token read moves
/// forward, which the guard states for the sake of termination.)
pub open spec fn tokens_from(s: Seq<char>, pos: int) -> Seq<SpecToken>
    decreases s.len() - pos,
{
    match lex_next(s, pos) {
        Some((t, e)) => if pos < e <= s.len() {
            seq![t] + tokens_from(s, e)
        } else {
            Seq::empty()
        },
        None => Seq::empty(),
    }
}

/// The tokens of a whole text.
pub open spec fn lex(s: Seq<char>) -> Seq<SpecToken> {
    tokens_from(s, 0)
}

pub proof fn lemma_skip_ws_bounds(s: Seq<char>, i: int)
    requires
        0 <= i,
    ensures
        i <= skip_ws(s, i),
        i <= s.len() ==> skip_ws(s, i) <= s.len(),
    decreases s.len() - i,
{
    if 0 <= i < s.len() && is_ws(s[i]) {
        lemma_skip_ws_bounds(s, i + 1);
    }
}

pub proof fn lemma_digits_end_bounds(s: Seq<char>, i: int)
    requires
        0 <= i,
    ensures
        i <= digits_end(s, i),
        i <= s.len() ==> digits_end(s, i) <= s.len(),
    decreases s.len() - i,
{
    if digit_at(s, i) {
        lemma_digits_end_bounds(s, i + 1);
    }
}

pub proof fn lemma_scan_string_bounds(s: Seq<char>, i: int, acc: Seq<char>)
    requires
        0 <= i,
    ensures
        scan_string(s, i, acc) matches Some((t, e)) ==> i < e <= s.len(),
    decreases s.len() - i,
{
    if 0 <= i < s.len() && s[i] != '"' {
        if s[i] == '\\' {
            if i + 1 < s.len() {
                if s[i + 1] == 'u' {
                    if let Some(code) = hex4(s, i + 2) {
                        lemma_scan_string_bounds(s, i + 6, acc.push(code as char));
                    }
                } else if let Some(c) = escaped(s[i + 1]) {
                    lemma_scan_string_bounds(s, i + 2, acc.push(c));
                }
            }
        } else {
            lemma_scan_string_bounds(s, i + 1, acc.push(s[i]));
        }
    }
}

pub proof fn lemma_number_end_bounds(s: Seq<char>, i: int)
    requires
        0 <= i < s.len(),
    ensures
        number_end(s, i) matches Some(e) ==> i < e <= s.len(),
{
    let j = if has(s, i, '-') { i + 1 } else { i };
    lemma_digits_end_bounds(s, j + 1);
    if let Some(k) = int_part_end(s, j) {
        lemma_digits_end_bounds(s, k + 1);
        if let Some(m) = frac_part_end(s, k) {
            lemma_digits_end_bounds(s, m + 1);
            lemma_digits_end_bounds(s, m + 2);
        }
    }
}

/// Every token read moves forward and ends inside the text.
pub proof fn lemma_lex_next_advances(s: Seq<char>, pos: int)
    requires
        0 <= pos,
    ensures
        lex_next(s, pos) matches Some((t, e)) ==> pos < e <= s.len(),
{
    let i = skip_ws(s, pos);
    lemma_skip_ws_bounds(s, pos);
    if 0 <= i < s.len() {
        lemma_scan_string_bounds(s, i + 1, Seq::empty());
        lemma_number_end_bounds(s, i);
    }
}

/// Reads JSON text one token at a time.
pub struct Lexer {
    input: Vec<char>,
    position: usize,
}

impl Lexer {
    /// The characters of the text.
    pub closed spec fn input(&self) -> Seq<char> {
        self.input@
    }

    /// The position of the next character to read.
    pub closed spec fn position(&self) -> int {
        self.position as int
    }

    pub fn new(input: &str) -> (r: Lexer)
        ensures
            r.input() == input@,
            r.position() == 0,
    {
        broadcast use vstd::string::group_string_axioms;

        let mut chars: Vec<char> = Vec::new();
        for c in it: input.chars()
            invariant
                chars@ == it.seq().subrange(0, it.index() as int),
        {
            chars.push(c);
        }
        Lexer { input: chars, position: 0 }
    }

    /// Whether position `i` holds `c`.
    fn char_is(&self, i: usize, c: char) -> (r: bool)
        ensures
            r == has(self.input@, i as int, c),
    {
        i < self.input.len() && self.input[i] == c
    }

    fn digit_is_at(&self, i: usize) -> (r: bool)
        ensures
            r == digit_at(self.input@, i as int),
    {
        i < self.input.len() && is_digit_char(self.input[i])
    }

    fn skip_whitespace(&mut self)
        ensures
            final(self).input == old(self).input,
            final(self).position == skip_ws(old(self).input@, old(self).position as int),
    {
        while self.position < self.input.len() && is_ws_char(self.input[self.position])
            invariant
                self.input == old(self).input,
                skip_ws(self.input@, self.position as int) == skip_ws(
                    old(self).input@,
                    old(self).position as int,
                ),
            decreases self.input.len() - self.position,
        {
            self.position = self.position + 1;
        }
    }

    fn consume_digits(&mut self)
        ensures
            final(self).input == old(self).input,
            final(self).position == digits_end(old(self).input@, old(self).position as int),
    {
        while self.digit_is_at(self.position)
            invariant
                self.input == old(self).input,
                digits_end(self.input@, self.position as int) == digits_end(
                    old(self).input@,
                    old(self).position as int,
                ),
            decreases self.input.len() - self.position,
        {
            self.position = self.position + 1;
        }
    }

    /// The text between positions `start` and `end`.
    fn text_between(&self, start: usize, end: usize) -> (r: String)
        requires
            start <= end <= self.input.len(),
        ensures
            r@ == self.input@.subrange(start as int, end as int),
    {
        let mut text = String::new();
        let mut i: usize = start;
        while i < end
            invariant
                start <= i <= end <= self.input.len(),
                text@ == self.input@.subrange(start as int, i as int),
            decreases end - i,
        {
            text.push(self.input[i]);
            i = i + 1;
            assert(text@ =~= self.input@.subrange(start as int, i as int));
        }
        text
    }

    /// Reads a number that starts at the current position.
    fn parse_number(&mut self) -> (r: Option<Token>)
        requires
            old(self).position < old(self).input.len(),
        ensures
            final(self).input == old(self).input,
            match number_end(old(self).input@, old(self).position as int) {
                Some(e) => r matches Some(tok) && tok@ == SpecToken::Num(
                    old(self).input@.subrange(old(self).position as int, e),
                ) && final(self).position == e,
                None => r is None,
            },
    {
        let ghost s = self.input@;
        let start = self.position;
        if self.char_is(self.position, '-') {
            self.position = self.position + 1;
        }
        let ghost j = self.position as int;
        // Integer part
        if self.char_is(self.position, '0') {
            self.position = self.position + 1;
            if self.digit_is_at(self.position) {
                return None;
            }
        } else if self.digit_is_at(self.position) {
            self.position = self.position + 1;
            self.consume_digits();
        } else {
            return None;
        }
        assert(int_part_end(s, j) == Some(self.position as int));
        let ghost k = self.position as int;
        // Fraction
        if self.char_is(self.position, '.') {
            self.position = self.position + 1;
            if !self.digit_is_at(self.position) {
                return None;
            }
            self.consume_digits();
        }
        assert(frac_part_end(s, k) == Some(self.position as int));
        let ghost m = self.position as int;
        // Exponent
        if self.char_is(self.position, 'e') || self.char_is(self.position, 'E') {
            self.position = self.position + 1;
            if self.char_is(self.position, '+') || self.char_is(self.position, '-') {
                self.position = self.position + 1;
            }
            if !self.digit_is_at(self.position) {
                return None;
            }
            self.consume_digits();
        }
        assert(exp_part_end(s, m) == Some(self.position as int));
        proof {
            lemma_number_end_bounds(s, start as int);
        }
        Some(Token::Number(self.text_between(start, self.position)))
    }

    /// The number written by the four hexadecimal digits at `i`.
    fn hex4_at(&self, i: usize) -> (r: Option<u32>)
        ensures
            r == hex4(self.input@, i as int),
    {
        if i > self.input.len() || self.input.len() - i < 4 {
            return None;
        }
        let a = hex_digit(self.input[i]);
        let b = hex_digit(self.input[i + 1]);
        let c = hex_digit(self.input[i + 2]);
        let d = hex_digit(self.input[i + 3]);
        match (a, b, c, d) {
            (Some(a), Some(b), Some(c), Some(d)) => Some(a * 4096 + b * 256 + c * 16 + d),
            _ => None,
        }
    }

    /// Reads the body of a string; the opening quote has been read.
    fn parse_string(&mut self) -> (r: Option<Token>)
        ensures
            final(self).input == old(self).input,
            match scan_string(old(self).input@, old(self).position as int, Seq::empty()) {
                Some((text, e)) => r matches Some(tok) && tok@ == SpecToken::Str(text)
                    && final(self).position == e,
                None => r is None,
            },
    {
        let mut result = String::new();
        while self.position < self.input.len()
            invariant
                self.input == old(self).input,
                scan_string(self.input@, old(self).position as int, Seq::empty()) == scan_string(
                    self.input@,
                    self.position as int,
                    result@,
                ),
            decreases self.input.len() - self.position,
        {
            let c = self.input[self.position];
            if c == '"' {
                self.position = self.position + 1;
                return Some(Token::String(result));
            } else if c == '\\' {
                if self.position + 1 >= self.input.len() {
                    return None;
                }
                let e = self.input[self.position + 1];
                if e == 'u' {
                    match self.hex4_at(self.position + 2) {
                        Some(code) => match core::char::from_u32(code) {
                            Some(d) => {
                                result.push(d);
                                self.position = self.position + 6;
                            },
                            None => return None,
                        },
                        None => return None,
                    }
                } else {
                    match escape_of(e) {
                        Some(d) => {
                            result.push(d);
                            self.position = self.position + 2;
                        },
                        None => return None,
                    }
                }
            } else if (c as u32) < 0x20 {
                return None;
            } else {
                result.push(c);
                self.position = self.position + 1;
            }
        }
        None
    }

    /// Reads the literal word `w` at the current position as `tok`.
    fn parse_word(&mut self, w: &Vec<char>, tok: Token) -> (r: Option<Token>)
        ensures
            final(self).input == old(self).input,
            if word_at(old(self).input@, old(self).position as int, w@) {
                r == Some(tok) && final(self).position == old(self).position + w.len()
            } else {
                r is None && final(self).position == old(self).position
            },
    {
        let ghost s = self.input@;
        let start = self.position;
        if start > self.input.len() || self.input.len() - start < w.len() {
            return None;
        }
        let mut k: usize = 0;
        while k < w.len()
            invariant
                self.input == old(self).input,
                self.position == start,
                s == self.input@,
                start + w.len() <= self.input.len(),
                k <= w.len(),
                s.subrange(start as int, start + k) == w@.subrange(0, k as int),
            decreases w.len() - k,
        {
            if self.input[start + k] != w[k] {
                assert(!word_at(s, start as int, w@)) by {
                    assert(s.subrange(start as int, start + w.len())[k as int] == s[start + k]);
                }
                return None;
            }
            k = k + 1;
            assert(s.subrange(start as int, start + k) =~= w@.subrange(0, k as int));
        }
        assert(w@.subrange(0, w.len() as int) =~= w@);
        self.position = start + w.len();
        Some(tok)
    }

    /// Reads the next token, after whitespace; `None` at the end of the text
    /// and where the text there is no token.
    pub fn next_token(&mut self) -> (r: Option<Token>)
        ensures
            final(self).input() == old(self).input(),
            match lex_next(old(self).input(), old(self).position()) {
                Some((t, e)) => r matches Some(tok) && tok@ == t && final(self).position() == e,
                None => r is None,
            },
            ({
                let s = old(self).input();
                let i = skip_ws(s, old(self).position());
                r is None && !(0 <= i < s.len() && (s[i] == '"' || s[i] == '-' || is_digit(s[i])))
                    ==> final(self).position() == i
            }),
    {
        self.skip_whitespace();
        if self.position >= self.input.len() {
            return None;
        }
        let c = self.input[self.position];
        if c == '{' {
            self.position = self.position + 1;
            Some(Token::OpenBrace)
        } else if c == '}' {
            self.position = self.position + 1;
            Some(Token::CloseBrace)
        } else if c == '[' {
            self.position = self.position + 1;
            Some(Token::OpenBracket)
        } else if c == ']' {
            self.position = self.position + 1;
            Some(Token::CloseBracket)
        } else if c == ':' {
            self.position = self.position + 1;
            Some(Token::Colon)
        } else if c == ',' {
            self.position = self.position + 1;
            Some(Token::Comma)
        } else if c == '"' {
            self.position = self.position + 1;
            self.parse_string()
        } else if c == '-' || is_digit_char(c) {
            self.parse_number()
        } else if c == 't' {
            let w = vec!['t', 'r', 'u', 'e'];
            assert(w@ =~= true_word());
            self.parse_word(&w, Token::Boolean(true))
        } else if c == 'f' {
            let w = vec!['f', 'a', 'l', 's', 'e'];
            assert(w@ =~= false_word());
            self.parse_word(&w, Token::Boolean(false))
        } else if c == 'n' {
            let w = vec!['n', 'u', 'l', 'l'];
            assert(w@ =~= null_word());
            self.parse_word(&w, Token::Null)
        } else {
            None
        }
    }

    /// Reads tokens until the end of the text or the first place that holds
    /// no token.
    pub fn tokenize(&mut self) -> (r: Vec<Token>)
        ensures
            tokens_view(r@) == tokens_from(old(self).input(), old(self).position()),
    {
        let mut tokens: Vec<Token> = Vec::new();
        loop
            invariant
                self.input@ == old(self).input(),
                tokens_from(self.input@, old(self).position()) == tokens_view(tokens@)
                    + tokens_from(self.input@, self.position as int),
            decreases self.input.len() - self.position,
        {
            let ghost pos = self.position as int;
            proof {
                lemma_lex_next_advances(self.input@, pos);
            }
            match self.next_token() {
                Some(tok) => {
                    let ghost before = tokens@;
                    tokens.push(tok);
                    assert(tokens_view(tokens@) =~= tokens_view(before) + seq![tok@]);
                    assert(tokens_view(tokens@) + tokens_from(self.input@, self.position as int)
                        =~= tokens_view(before) + tokens_from(self.input@, pos));
                },
                None => {
                    assert(tokens_view(tokens@) + Seq::<SpecToken>::empty() =~= tokens_view(tokens@));
                    return tokens;
                },
            }
        }
    }
}

/// The character that a backslash and `c` stand for, for the escapes other
/// than `\u`.
fn escape_of(c: char) -> (r: Option<char>)
    ensures
        r == escaped(c),
{
    if c == '"' {
        Some('"')
    } else if c == '\\' {
        Some('\\')
    } else if c == '/' {
        Some('/')
    } else if c == 'b' {
        Some('\u{8}')
    } else if c == 'f' {
        Some('\u{c}')
    } else if c == 'n' {
        Some('\n')
    } else if c == 'r' {
        Some('\r')
    } else if c == 't' {
        Some('\t')
    } else {
        None
    }
}

} // verus!

use vstd::prelude::*;

use crate::token::{tokens_view, SpecToken, Token};
use crate::value::{lemma_members_view, lemma_values_view, members_view, values_view, JsonValue, SpecValue};

verus! {

/// Why a sequence of tokens is no JSON text.
#[derive(Debug, Clone, Copy, PartialEq, Eq, Structural)]
pub enum ParseError {
    UnexpectedToken,
    UnexpectedEndOfInput,
    ExpectedColon,
    ExpectedCommaOrCloseBrace,
    ExpectedCommaOrCloseBracket,
    InvalidJson,
}

/// How many arrays and objects may be open at once.
pub const MAX_DEPTH: usize = 19;

/// Puts `pre` in front of the items of a successful result, which then
/// covers `k` more tokens.
pub open spec fn prepend<A>(r: Result<(Seq<A>, nat), ParseError>, pre: Seq<A>, k: nat) -> Result<
    (Seq<A>, nat),
    ParseError,
> {
    match r {
        Ok((xs, m)) => Ok((pre + xs, k + m)),
        Err(e) => Err(e),
    }
}

/// The value that starts at token `pos`, with `depth` containers open around
/// it, and the number of tokens it takes.
pub open spec fn parse_value_at(t: Seq<SpecToken>, pos: int, depth: int) -> Result<
    (SpecValue, nat),
    ParseError,
>
    decreases t.len() - pos, 0int,
{
    if !(0 <= pos < t.len()) {
        Err(ParseError::UnexpectedEndOfInput)
    } else {
        match t[pos] {
            SpecToken::OpenBrace => if depth >= MAX_DEPTH {
                Err(ParseError::InvalidJson)
            } else if pos + 1 < t.len() && t[pos + 1] is CloseBrace {
                Ok((SpecValue::Object(Seq::empty()), 2))
            } else {
                match members_at(t, pos + 1, depth + 1) {
                    Ok((ms, n)) => Ok((SpecValue::Object(ms), n + 1)),
                    Err(e) => Err(e),
                }
            },
            SpecToken::OpenBracket => if depth >= MAX_DEPTH {
                Err(ParseError::InvalidJson)
            } else if pos + 1 < t.len() && t[pos + 1] is CloseBracket {
                Ok((SpecValue::Array(Seq::empty()), 2))
            } else {
                match items_at(t, pos + 1, depth + 1) {
                    Ok((vs, n)) => Ok((SpecValue::Array(vs), n + 1)),
                    Err(e) => Err(e),
                }
            },
            SpecToken::Str(s) => Ok((SpecValue::Str(s), 1)),
            SpecToken::Num(n) => Ok((SpecValue::Number(n), 1)),
            SpecToken::Boolean(b) => Ok((SpecValue::Boolean(b), 1)),
            SpecToken::Null => Ok((SpecValue::Null, 1)),
            _ => Err(ParseError::UnexpectedToken),
        }
    }
}

/// The elements of an array from token `pos` on, through the closing bracket,
/// and the number of tokens they take.
pub open spec fn items_at(t: Seq<SpecToken>, pos: int, depth: int) -> Result<
    (Seq<SpecValue>, nat),
    ParseError,
>
    decreases t.len() - pos, 1int,
{
    match parse_value_at(t, pos, depth) {
        Ok((v, n)) => {
            let p = pos + n;
            if !(0 <= p < t.len()) {
                Err(ParseError::UnexpectedEndOfInput)
            } else if t[p] is Comma {
                if !(p + 1 < t.len()) || t[p + 1] is CloseBracket {
                    Err(ParseError::UnexpectedToken)
                } else {
                    prepend(items_at(t, p + 1, depth), seq![v], n + 1)
                }
            } else if t[p] is CloseBracket {
                Ok((seq![v], n + 1))
            } else {
                Err(ParseError::ExpectedCommaOrCloseBracket)
            }
        },
        Err(e) => Err(e),
    }
}

/// The members of an object from token `pos` on, through the closing brace,
/// and the number of tokens they take.
pub open spec fn members_at(t: Seq<SpecToken>, pos: int, depth: int) -> Result<
    (Seq<(Seq<char>, SpecValue)>, nat),
    ParseError,
>
    decreases t.len() - pos, 1int,
{
    if !(0 <= pos < t.len()) {
        Err(ParseError::UnexpectedEndOfInput)
    } else {
        match t[pos] {
            SpecToken::Str(k) => if !(pos + 1 < t.len() && t[pos + 1] is Colon) {
                Err(ParseError::ExpectedColon)
            } else {
                match parse_value_at(t, pos + 2, depth) {
                    Ok((v, n)) => {
                        let p = pos + 2 + n;
                        if !(p < t.len()) {
                            Err(ParseError::UnexpectedEndOfInput)
                        } else if t[p] is Comma {
                            if !(p + 1 < t.len()) || t[p + 1] is CloseBrace {
                                Err(ParseError::UnexpectedToken)
                            } else {
                                prepend(members_at(t, p + 1, depth), seq![(k, v)], n + 3)
                            }
                        } else if t[p] is CloseBrace {
                            Ok((seq![(k, v)], n + 3))
                        } else {
                            Err(ParseError::ExpectedCommaOrCloseBrace)
                        }
                    },
                    Err(e) => Err(e),
                }
            },
            _ => Err(ParseError::UnexpectedToken),
        }
    }
}

/// One value from token `pos` on, which must take the rest of the tokens.
pub open spec fn parse_at(t: Seq<SpecToken>, pos: int, depth: int) -> Result<SpecValue, ParseError> {
    if !(0 <= pos < t.len()) {
        Err(ParseError::UnexpectedEndOfInput)
    } else {
        match parse_value_at(t, pos, depth) {
            Ok((v, n)) => if pos + n < t.len() {
                Err(ParseError::UnexpectedToken)
            } else {
                Ok(v)
            },
            Err(e) => Err(e),
        }
    }
}

/// The value that a whole sequence of tokens makes.
pub open spec fn parse_tokens(t: Seq<SpecToken>) -> Result<SpecValue, ParseError> {
    parse_at(t, 0, 0)
}

pub proof fn lemma_prepend_prepend<A>(
    r: Result<(Seq<A>, nat), ParseError>,
    a: Seq<A>,
    i: nat,
    b: Seq<A>,
    j: nat,
)
    ensures
        prepend(prepend(r, a, i), b, j) == prepend(r, b + a, j + i),
{
    if let Ok((xs, m)) = r {
        assert(b + (a + xs) =~= (b + a) + xs);
    }
}

/// Builds a value from a sequence of tokens by recursive descent.
pub struct Parser {
    tokens: Vec<Token>,
    position: usize,
    depth: usize,
}

impl Parser {
    /// The models of the tokens.
    pub closed spec fn tokens(&self) -> Seq<SpecToken> {
        tokens_view(self.tokens@)
    }

    /// The index of the next token to read.
    pub closed spec fn position(&self) -> int {
        self.position as int
    }

    /// How many arrays and objects are open.
    pub closed spec fn depth(&self) -> int {
        self.depth as int
    }

    pub closed spec fn wf(&self) -> bool {
        self.position <= self.tokens.len()
    }

    pub fn new(tokens: Vec<Token>) -> (r: Parser)
        ensures
            r.wf(),
            r.tokens() == tokens_view(tokens@),
            r.position() == 0,
            r.depth() == 0,
    {
        Parser { tokens, position: 0, depth: 0 }
    }

    /// Whether token `i` is `tok`.
    fn token_is(&self, i: usize, tok: Token) -> (r: bool)
        ensures
            r == (i < self.tokens.len() && self.tokens@[i as int]@ == tok@),
    {
        i < self.tokens.len() && self.tokens[i] == tok
    }

    /// Parses one value that must take all the remaining tokens.
    pub fn parse(&mut self) -> (r: Result<JsonValue, ParseError>)
        requires
            old(self).wf(),
        ensures
            final(self).wf(),
            final(self).tokens() == old(self).tokens(),
            final(self).depth() == old(self).depth(),
            match parse_at(old(self).tokens(), old(self).position(), old(self).depth()) {
                Ok(v) => r matches Ok(val) && val@ == v,
                Err(e) => r matches Err(e2) && e2 == e,
            },
    {
        if self.position >= self.tokens.len() {
            return Err(ParseError::UnexpectedEndOfInput);
        }
        let result = match self.parse_value() {
            Ok(v) => v,
            Err(e) => return Err(e),
        };
        if self.position < self.tokens.len() {
            return Err(ParseError::UnexpectedToken);
        }
        Ok(result)
    }

    fn parse_value(&mut self) -> (r: Result<JsonValue, ParseError>)
        requires
            old(self).wf(),
        ensures
            final(self).wf(),
            final(self).tokens == old(self).tokens,
            final(self).depth == old(self).depth,
            match parse_value_at(old(self).tokens(), old(self).position(), old(self).depth()) {
                Ok((v, n)) => r matches Ok(val) && val@ == v && final(self).position == old(
                    self,
                ).position + n && final(self).depth == old(self).depth,
                Err(e) => r matches Err(e2) && e2 == e,
            },
            r is Err && !(old(self).position < old(self).tokens.len() && (old(self).tokens()[old(
                self,
            ).position()] is OpenBrace || old(self).tokens()[old(self).position()] is OpenBracket))
                ==> final(self).position == old(self).position,
        decreases old(self).tokens@.len() - old(self).position, 1int,
    {
        if self.position >= self.tokens.len() {
            return Err(ParseError::UnexpectedEndOfInput);
        }
        let ghost t = self.tokens();
        assert(t[self.position as int] == self.tokens@[self.position as int]@);
        match &self.tokens[self.position] {
            Token::OpenBrace => self.parse_object(),
            Token::OpenBracket => self.parse_array(),
            Token::String(s) => {
                let s = s.clone();
                self.position = self.position + 1;
                Ok(JsonValue::String(s))
            },
            Token::Number(n) => {
                let n = n.clone();
                self.position = self.position + 1;
                Ok(JsonValue::Number(n))
            },
            Token::Boolean(b) => {
                let b = *b;
                self.position = self.position + 1;
                Ok(JsonValue::Boolean(b))
            },
            Token::Null => {
                self.position = self.position + 1;
                Ok(JsonValue::Null)
            },
            _ => Err(ParseError::UnexpectedToken),
        }
    }

    fn parse_array(&mut self) -> (r: Result<JsonValue, ParseError>)
        requires
            old(self).wf(),
            old(self).position < old(self).tokens.len(),
            old(self).tokens()[old(self).position()] is OpenBracket,
        ensures
            final(self).wf(),
            final(self).tokens == old(self).tokens,
            final(self).depth == old(self).depth,
            match parse_value_at(old(self).tokens(), old(self).position(), old(self).depth()) {
                Ok((v, n)) => r matches Ok(val) && val@ == v && final(self).position == old(
                    self,
                ).position + n && final(self).depth == old(self).depth,
                Err(e) => r matches Err(e2) && e2 == e,
            },
        decreases old(self).tokens@.len() - old(self).position, 0int,
    {
        let ghost t = self.tokens();
        let ghost start = self.position as int;
        let ghost d = self.depth as int;
        if self.depth >= MAX_DEPTH {
            return Err(ParseError::InvalidJson);
        }
        self.depth = self.depth + 1;
        self.position = self.position + 1;
        let mut elements: Vec<JsonValue> = Vec::new();
        if self.token_is(self.position, Token::CloseBracket) {
            self.position = self.position + 1;
            self.depth = self.depth - 1;
            proof {
                lemma_values_view(elements@);
                assert(values_view(elements@) =~= Seq::<SpecValue>::empty());
            }
            return Ok(JsonValue::Array(elements));
        }
        proof {
            lemma_values_view(elements@);
            assert(values_view(elements@) =~= Seq::<SpecValue>::empty());
            assert(items_at(t, start + 1, d + 1) == prepend(items_at(t, start + 1, d + 1), values_view(elements@), 0)) by {
                if let Ok((xs, m)) = items_at(t, start + 1, d + 1) {
                    assert(Seq::<SpecValue>::empty() + xs =~= xs);
                }
            }
        }
        loop
            invariant
                self.wf(),
                self.tokens == old(self).tokens,
                t == self.tokens(),
                t == old(self).tokens(),
                start == old(self).position,
                d == old(self).depth,
                d < MAX_DEPTH,
                self.depth == d + 1,
                start < self.position,
                0 <= start < t.len(),
                t[start] is OpenBracket,
                !(t.len() > start + 1 && t[start + 1] is CloseBracket),
                items_at(t, start + 1, d + 1) == prepend(
                    items_at(t, self.position as int, d + 1),
                    values_view(elements@),
                    (self.position - (start + 1)) as nat,
                ),
            decreases self.tokens@.len() - self.position,
        {
            let ghost cur = self.position as int;
            let value = match self.parse_value() {
                Ok(v) => v,
                Err(e) => {
                    self.depth = self.depth - 1;
                    return Err(e);
                },
            };
            let ghost before = elements@;
            let ghost v = value@;
            elements.push(value);
            proof {
                lemma_values_view(before);
                lemma_values_view(elements@);
                assert(values_view(elements@) =~= values_view(before) + seq![v]);
            }
            if self.position >= self.tokens.len() {
                self.depth = self.depth - 1;
                return Err(ParseError::UnexpectedEndOfInput);
            }
            if self.token_is(self.position, Token::Comma) {
                self.position = self.position + 1;
                if self.position >= self.tokens.len() || self.token_is(
                    self.position,
                    Token::CloseBracket,
                ) {
                    self.depth = self.depth - 1;
                    return Err(ParseError::UnexpectedToken);
                }
                proof {
                    let n = (self.position - 1 - cur) as nat;
                    lemma_prepend_prepend(
                        items_at(t, self.position as int, d + 1),
                        seq![v],
                        n + 1,
                        values_view(before),
                        (cur - (start + 1)) as nat,
                    );
                }
            } else if self.token_is(self.position, Token::CloseBracket) {
                self.position = self.position + 1;
                self.depth = self.depth - 1;
                proof {
                    assert(values_view(before) + seq![v] =~= values_view(elements@));
                }
                return Ok(JsonValue::Array(elements));
            } else {
                self.depth = self.depth - 1;
                return Err(ParseError::ExpectedCommaOrCloseBracket);
            }
        }
    }

    fn parse_object(&mut self) -> (r: Result<JsonValue, ParseError>)
        requires
            old(self).wf(),
            old(self).position < old(self).tokens.len(),
            old(self).tokens()[old(self).position()] is OpenBrace,
        ensures
            final(self).wf(),
            final(self).tokens == old(self).tokens,
            final(self).depth == old(self).depth,
            match parse_value_at(old(self).tokens(), old(self).position(), old(self).depth()) {
                Ok((v, n)) => r matches Ok(val) && val@ == v && final(self).position == old(
                    self,
                ).position + n && final(self).depth == old(self).depth,
                Err(e) => r matches Err(e2) && e2 == e,
            },
        decreases old(self).tokens@.len() - old(self).position, 0int,
    {
        let ghost t = self.tokens();
        let ghost start = self.position as int;
        let ghost d = self.depth as int;
        if self.depth >= MAX_DEPTH {
            return Err(ParseError::InvalidJson);
        }
        self.depth = self.depth + 1;
        self.position = self.position + 1;
        let mut properties: Vec<(String, JsonValue)> = Vec::new();
        if self.token_is(self.position, Token::CloseBrace) {
            self.position = self.position + 1;
            self.depth = self.depth - 1;
            proof {
                lemma_members_view(properties@);
                assert(members_view(properties@) =~= Seq::<(Seq<char>, SpecValue)>::empty());
            }
            return Ok(JsonValue::Object(properties));
        }
        proof {
            lemma_members_view(properties@);
            assert(members_view(properties@) =~= Seq::<(Seq<char>, SpecValue)>::empty());
            assert(members_at(t, start + 1, d + 1) == prepend(members_at(t, start + 1, d + 1), members_view(properties@), 0)) by {
                if let Ok((xs, m)) = members_at(t, start + 1, d + 1) {
                    assert(Seq::<(Seq<char>, SpecValue)>::empty() + xs =~= xs);
                }
            }
        }
        loop
            invariant
                self.wf(),
                self.tokens == old(self).tokens,
                t == self.tokens(),
                t == old(self).tokens(),
                start == old(self).position,
                d == old(self).depth,
                d < MAX_DEPTH,
                self.depth == d + 1,
                start < self.position,
                0 <= start < t.len(),
                t[start] is OpenBrace,
                !(t.len() > start + 1 && t[start + 1] is CloseBrace),
                members_at(t, start + 1, d + 1) == prepend(
                    members_at(t, self.position as int, d + 1),
                    members_view(properties@),
                    (self.position - (start + 1)) as nat,
                ),
            decreases self.tokens@.len() - self.position,
        {
            let ghost cur = self.position as int;
            if self.position >= self.tokens.len() {
                self.depth = self.depth - 1;
                return Err(ParseError::UnexpectedEndOfInput);
            }
            assert(t[cur] == self.tokens@[cur]@);
            let key = match &self.tokens[self.position] {
                Token::String(s) => s.clone(),
                _ => {
                    self.depth = self.depth - 1;
                    return Err(ParseError::UnexpectedToken);
                },
            };
            self.position = self.position + 1;
            if !self.token_is(self.position, Token::Colon) {
                self.depth = self.depth - 1;
                return Err(ParseError::ExpectedColon);
            }
            self.position = self.position + 1;
            let value = match self.parse_value() {
                Ok(v) => v,
                Err(e) => {
                    self.depth = self.depth - 1;
                    return Err(e);
                },
            };
            let ghost before = properties@;
            let ghost kv = (key@, value@);
            properties.push((key, value));
            proof {
                lemma_members_view(before);
                lemma_members_view(properties@);
                assert(members_view(properties@) =~= members_view(before) + seq![kv]);
            }
            if self.position >= self.tokens.len() {
                self.depth = self.depth - 1;
                return Err(ParseError::UnexpectedEndOfInput);
            }
            if self.token_is(self.position, Token::Comma) {
                self.position = self.position + 1;
                if self.position >= self.tokens.len() || self.token_is(
                    self.position,
                    Token::CloseBrace,
                ) {
                    self.depth = self.depth - 1;
                    return Err(ParseError::UnexpectedToken);
                }
                proof {
                    let n = (self.position - 1 - (cur + 2)) as nat;
                    lemma_prepend_prepend(
                        members_at(t, self.position as int, d + 1),
                        seq![kv],
                        n + 3,
                        members_view(before),
                        (cur - (start + 1)) as nat,
                    );
                }
            } else if self.token_is(self.position, Token::CloseBrace) {
                self.position = self.position + 1;
                self.depth = self.depth - 1;
                proof {
                    assert(members_view(before) + seq![kv] =~= members_view(properties@));
                }
                return Ok(JsonValue::Object(properties));
            } else {
                self.depth = self.depth - 1;
                return Err(ParseError::ExpectedCommaOrCloseBrace);
            }
        }
    }
}

} // verus!

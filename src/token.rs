use vstd::prelude::*;

verus! {

/// A lexical unit of JSON text.
///
/// A number keeps the text it was written with; its 64-bit floating value is
/// what `str::parse::<f64>` gives for that text.
#[derive(Debug, Clone)]
pub enum Token {
    OpenBrace,
    CloseBrace,
    OpenBracket,
    CloseBracket,
    Colon,
    Comma,
    String(String),
    Number(String),
    Boolean(bool),
    Null,
}

/// The mathematical model of a token: text payloads become character sequences.
pub enum SpecToken {
    OpenBrace,
    CloseBrace,
    OpenBracket,
    CloseBracket,
    Colon,
    Comma,
    Str(Seq<char>),
    Num(Seq<char>),
    Boolean(bool),
    Null,
}

impl View for Token {
    type V = SpecToken;

    open spec fn view(&self) -> SpecToken {
        match self {
            Token::OpenBrace => SpecToken::OpenBrace,
            Token::CloseBrace => SpecToken::CloseBrace,
            Token::OpenBracket => SpecToken::OpenBracket,
            Token::CloseBracket => SpecToken::CloseBracket,
            Token::Colon => SpecToken::Colon,
            Token::Comma => SpecToken::Comma,
            Token::String(s) => SpecToken::Str(s@),
            Token::Number(n) => SpecToken::Num(n@),
            Token::Boolean(b) => SpecToken::Boolean(*b),
            Token::Null => SpecToken::Null,
        }
    }
}

/// The models of a sequence of tokens.
pub open spec fn tokens_view(ts: Seq<Token>) -> Seq<SpecToken> {
    ts.map_values(|t: Token| t@)
}

impl PartialEq for Token {
    fn eq(&self, other: &Token) -> (r: bool) {
        match self {
            Token::OpenBrace => match other {
                Token::OpenBrace => true,
                _ => false,
            },
            Token::CloseBrace => match other {
                Token::CloseBrace => true,
                _ => false,
            },
            Token::OpenBracket => match other {
                Token::OpenBracket => true,
                _ => false,
            },
            Token::CloseBracket => match other {
                Token::CloseBracket => true,
                _ => false,
            },
            Token::Colon => match other {
                Token::Colon => true,
                _ => false,
            },
            Token::Comma => match other {
                Token::Comma => true,
                _ => false,
            },
            Token::String(a) => match other {
                Token::String(b) => a.eq(b),
                _ => false,
            },
            Token::Number(a) => match other {
                Token::Number(b) => a.eq(b),
                _ => false,
            },
            Token::Boolean(a) => match other {
                Token::Boolean(b) => *a == *b,
                _ => false,
            },
            Token::Null => match other {
                Token::Null => true,
                _ => false,
            },
        }
    }
}

impl vstd::std_specs::cmp::PartialEqSpecImpl for Token {
    open spec fn obeys_eq_spec() -> bool {
        true
    }

    open spec fn eq_spec(&self, other: &Token) -> bool {
        self@ == other@
    }
}

} // verus!

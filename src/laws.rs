use vstd::prelude::*;

use crate::chars::is_ws;
use crate::lexer::{digit_at, has, lex, lex_next, skip_ws, tokens_from};
use crate::parser::{parse_tokens, parse_value_at, ParseError, MAX_DEPTH};
use crate::lex_lemmas::{lemma_lex_value, lemma_tokens_ok, lemma_tokens_step, lemma_tokens_ws};
use crate::token::SpecToken;
use crate::parse_lemmas::{
    lemma_parse_value, lemma_parsed_value_valid, lemma_value_no_trailing_comma, trailing_comma_at,
};
use crate::validator::json_of;
use crate::value::{nesting, numbers_valid, serialize, value_tokens, well_formed, SpecValue};

verus! {

/// The text of a value whose numbers hold number texts is read back as the
/// value's tokens.
pub proof fn lemma_lex_serialized(v: SpecValue)
    requires
        numbers_valid(v),
    ensures
        lex(serialize(v)) == value_tokens(v),
{
    let s = serialize(v);
    assert(s.subrange(0, s.len() as int) =~= s);
    lemma_lex_value(s, 0, v);
    assert(skip_ws(s, s.len() as int) == s.len());
    assert(lex_next(s, s.len() as int) is None);
    assert(tokens_from(s, s.len() as int) =~= Seq::<SpecToken>::empty());
    assert(value_tokens(v) + Seq::<SpecToken>::empty() =~= value_tokens(v));
}

/// Nesting limit: the text of an array or object is read back as the same
/// value while arrays and objects nest at most `MAX_DEPTH` deep, and is
/// refused as `InvalidJson` beyond that.
pub proof fn lemma_depth_limit(v: SpecValue)
    requires
        v is Array || v is Object,
        numbers_valid(v),
    ensures
        json_of(serialize(v)) == if nesting(v) <= MAX_DEPTH {
            Ok(v)
        } else {
            Err::<SpecValue, ParseError>(ParseError::InvalidJson)
        },
{
    let t = value_tokens(v);
    lemma_lex_serialized(v);
    assert(t.subrange(0, t.len() as int) =~= t);
    lemma_parse_value(t, 0, v, 0);
    assert(t[0] is OpenBrace || t[0] is OpenBracket);
}

/// Round trip: writing a well-formed value and reading the text back gives
/// the same value.
pub proof fn lemma_round_trip(v: SpecValue)
    requires
        well_formed(v),
    ensures
        json_of(serialize(v)) == Ok::<SpecValue, ParseError>(v),
{
    lemma_depth_limit(v);
}

/// The root must be an array or an object: a text whose first token is a
/// string, a number, a boolean or `null` is refused as `InvalidJson`, though
/// each of these is a value inside an array or an object.
pub proof fn lemma_scalar_root_rejected(s: Seq<char>)
    requires
        lex(s).len() > 0,
        lex(s)[0] is Str || lex(s)[0] is Num || lex(s)[0] is Boolean || lex(s)[0] is Null,
    ensures
        json_of(s) == Err::<SpecValue, ParseError>(ParseError::InvalidJson),
        parse_value_at(lex(s), 0, 0) matches Ok((v, n)) && n == 1 && !(v is Array || v is Object),
{
}

/// A text is read only into an array or an object.
pub proof fn lemma_root_is_container(s: Seq<char>)
    ensures
        json_of(s) matches Ok(v) ==> v is Array || v is Object,
{
}

/// Whitespace between positions `i` and `j` is skipped.
pub proof fn lemma_tokens_skip(s: Seq<char>, i: int, j: int)
    requires
        0 <= i <= j <= s.len(),
        forall|k: int| i <= k < j ==> is_ws(s[k]),
    ensures
        tokens_from(s, i) == tokens_from(s, j),
    decreases j - i,
{
    if i < j {
        lemma_tokens_ws(s, i);
        lemma_tokens_skip(s, i + 1, j);
    }
}

/// The tokens of `w1 o w2 c w3`, where the `w`s are whitespace.
proof fn lemma_lex_pair(
    w1: Seq<char>,
    w2: Seq<char>,
    w3: Seq<char>,
    o: char,
    c: char,
    ot: SpecToken,
    ct: SpecToken,
)
    requires
        forall|k: int| 0 <= k < w1.len() ==> is_ws(w1[k]),
        forall|k: int| 0 <= k < w2.len() ==> is_ws(w2[k]),
        forall|k: int| 0 <= k < w3.len() ==> is_ws(w3[k]),
        (o == '{' && ot is OpenBrace) || (o == '[' && ot is OpenBracket),
        (c == '}' && ct is CloseBrace) || (c == ']' && ct is CloseBracket),
    ensures
        lex(w1 + seq![o] + w2 + seq![c] + w3) == seq![ot, ct],
{
    let s = w1 + seq![o] + w2 + seq![c] + w3;
    let a = w1.len() as int;
    let b = a + 1 + w2.len();
    assert(s[a] == o);
    assert(s[b] == c);
    assert forall|k: int| 0 <= k < a implies is_ws(s[k]) by {
        assert(s[k] == w1[k]);
    }
    assert forall|k: int| a + 1 <= k < b implies is_ws(s[k]) by {
        assert(s[k] == w2[k - a - 1]);
    }
    assert forall|k: int| b + 1 <= k < s.len() implies is_ws(s[k]) by {
        assert(s[k] == w3[k - b - 1]);
    }
    lemma_tokens_skip(s, 0, a);
    lemma_tokens_step(s, a);
    lemma_tokens_skip(s, a + 1, b);
    lemma_tokens_step(s, b);
    lemma_tokens_skip(s, b + 1, s.len() as int);
    assert(skip_ws(s, s.len() as int) == s.len());
    assert(tokens_from(s, s.len() as int) =~= Seq::<SpecToken>::empty());
    assert(lex(s) =~= seq![ot, ct]);
}

/// Empty root: `{}` or `[]`, with whitespace around and between, is read as
/// the empty object or the empty array.
pub proof fn lemma_empty_root(w1: Seq<char>, w2: Seq<char>, w3: Seq<char>)
    requires
        forall|k: int| 0 <= k < w1.len() ==> is_ws(w1[k]),
        forall|k: int| 0 <= k < w2.len() ==> is_ws(w2[k]),
        forall|k: int| 0 <= k < w3.len() ==> is_ws(w3[k]),
    ensures
        json_of(w1 + seq!['{'] + w2 + seq!['}'] + w3) == Ok::<SpecValue, ParseError>(
            SpecValue::Object(Seq::empty()),
        ),
        json_of(w1 + seq!['['] + w2 + seq![']'] + w3) == Ok::<SpecValue, ParseError>(
            SpecValue::Array(Seq::empty()),
        ),
{
    lemma_lex_pair(w1, w2, w3, '{', '}', SpecToken::OpenBrace, SpecToken::CloseBrace);
    lemma_lex_pair(w1, w2, w3, '[', ']', SpecToken::OpenBracket, SpecToken::CloseBracket);
}

/// Leading zeros: where a number starts with `0` or `-0` followed by another
/// digit, no token is read there, so nothing is read from there on.
pub proof fn lemma_leading_zero_rejected(s: Seq<char>, pos: int)
    requires
        0 <= pos,
        ({
            let i = skip_ws(s, pos);
            (has(s, i, '0') && digit_at(s, i + 1)) || (has(s, i, '-') && has(s, i + 1, '0')
                && digit_at(s, i + 2))
        }),
    ensures
        lex_next(s, pos) is None,
        tokens_from(s, pos) == Seq::<SpecToken>::empty(),
        pos == 0 ==> json_of(s) == Err::<SpecValue, ParseError>(ParseError::InvalidJson),
{
}

/// Trailing commas: tokens in which a comma is directly followed by a closing
/// bracket or brace never parse.
pub proof fn lemma_trailing_comma_tokens(t: Seq<SpecToken>, k: int)
    requires
        trailing_comma_at(t, k),
    ensures
        parse_tokens(t) is Err,
{
    lemma_value_no_trailing_comma(t, 0, 0);
}

/// Trailing commas: a text whose tokens hold a comma directly followed by a
/// closing bracket or brace is refused.
pub proof fn lemma_trailing_comma_rejected(s: Seq<char>, k: int)
    requires
        trailing_comma_at(lex(s), k),
    ensures
        json_of(s) is Err,
{
    lemma_trailing_comma_tokens(lex(s), k);
}

/// Every value read from a text is well-formed.
pub proof fn lemma_parsed_well_formed(s: Seq<char>)
    ensures
        json_of(s) matches Ok(v) ==> well_formed(v),
{
    lemma_tokens_ok(s, 0);
    lemma_parsed_value_valid(lex(s), 0, 0);
}

/// Round trip of a read text: writing the value read from a text and reading
/// the written text gives the same value.
pub proof fn lemma_parsed_round_trip(s: Seq<char>)
    ensures
        json_of(s) matches Ok(v) ==> json_of(serialize(v)) == Ok::<SpecValue, ParseError>(v),
{
    lemma_parsed_well_formed(s);
    if let Ok(v) = json_of(s) {
        lemma_round_trip(v);
    }
}

} // verus!

use vstd::prelude::*;

use crate::parser::{items_at, members_at, parse_value_at, prepend, ParseError, MAX_DEPTH};
use crate::lex_lemmas::token_ok;
use crate::token::SpecToken;
use crate::value::{
    items_tokens, member_tokens, members_tokens, nesting, nesting_items, nesting_members,
    numbers_valid, numbers_valid_items, numbers_valid_members, value_tokens, SpecValue,
};

verus! {

/// The items `w` stand at position `p` of `s`.
pub open spec fn seq_at<A>(s: Seq<A>, p: int, w: Seq<A>) -> bool {
    0 <= p && p + w.len() <= s.len() && s.subrange(p, p + w.len()) == w
}

pub proof fn lemma_seq_at_split<A>(s: Seq<A>, p: int, a: Seq<A>, b: Seq<A>)
    requires
        seq_at(s, p, a + b),
    ensures
        seq_at(s, p, a),
        seq_at(s, p + a.len(), b),
        forall|i: int| 0 <= i < a.len() ==> s[p + i] == a[i],
        forall|i: int| 0 <= i < b.len() ==> s[p + a.len() + i] == b[i],
        a.len() > 0 ==> s[p] == a[0],
        b.len() > 0 ==> s[p + a.len()] == b[0],
{
    let w = a + b;
    assert(s.subrange(p, p + a.len()) =~= w.subrange(0, a.len() as int));
    assert(w.subrange(0, a.len() as int) =~= a);
    assert(s.subrange(p + a.len(), p + w.len()) =~= w.subrange(a.len() as int, w.len() as int));
    assert(w.subrange(a.len() as int, w.len() as int) =~= b);
    assert forall|i: int| 0 <= i < a.len() implies s[p + i] == a[i] by {
        assert(s.subrange(p, p + w.len())[i] == s[p + i]);
    }
    assert forall|i: int| 0 <= i < b.len() implies s[p + a.len() + i] == b[i] by {
        assert(s.subrange(p, p + w.len())[a.len() + i] == s[p + a.len() + i]);
    }
    if a.len() > 0 {
        assert(s.subrange(p, p + w.len())[0] == s[p]);
    }
    if b.len() > 0 {
        assert(s.subrange(p, p + w.len())[a.len() as int] == s[p + a.len()]);
    }
}

/// A value's tokens begin with a token that can start a value.
pub proof fn lemma_value_tokens_start(v: SpecValue)
    ensures
        value_tokens(v).len() > 0,
        !(value_tokens(v)[0] is CloseBracket || value_tokens(v)[0] is CloseBrace
            || value_tokens(v)[0] is Comma || value_tokens(v)[0] is Colon),
{
}

/// The tokens of a value are parsed back into the value, unless arrays and
/// objects are nested deeper than the parser allows.
pub proof fn lemma_parse_value(t: Seq<SpecToken>, p: int, v: SpecValue, d: int)
    requires
        seq_at(t, p, value_tokens(v)),
        0 <= d <= MAX_DEPTH,
    ensures
        parse_value_at(t, p, d) == if d + nesting(v) <= MAX_DEPTH {
            Ok((v, value_tokens(v).len()))
        } else {
            Err::<(SpecValue, nat), ParseError>(ParseError::InvalidJson)
        },
    decreases v, 1int,
{
    lemma_value_tokens_start(v);
    lemma_seq_at_split(t, p, value_tokens(v), Seq::empty());
    match v {
        SpecValue::Array(items) => {
            let body = items_tokens(items);
            assert(value_tokens(v) == seq![SpecToken::OpenBracket] + body + seq![SpecToken::CloseBracket]);
            lemma_seq_at_split(t, p, seq![SpecToken::OpenBracket] + body, seq![SpecToken::CloseBracket]);
            lemma_seq_at_split(t, p, seq![SpecToken::OpenBracket], body);
            if d < MAX_DEPTH {
                if items.len() == 0 {
                    assert(body.len() == 0);
                    assert(t[p + 1] is CloseBracket);
                    assert(items =~= Seq::<SpecValue>::empty());
                    assert(nesting_items(items) == 0);
                } else {
                    lemma_value_tokens_start(items[0]);
                    lemma_items_tokens_start(items);
                    assert(value_tokens(v) =~= seq![SpecToken::OpenBracket] + (body + seq![SpecToken::CloseBracket]));
                    lemma_seq_at_split(t, p, seq![SpecToken::OpenBracket], body + seq![SpecToken::CloseBracket]);
                    lemma_parse_items(t, p + 1, items, d + 1);
                }
            }
        },
        SpecValue::Object(members) => {
            let body = members_tokens(members);
            assert(value_tokens(v) == seq![SpecToken::OpenBrace] + body + seq![SpecToken::CloseBrace]);
            lemma_seq_at_split(t, p, seq![SpecToken::OpenBrace] + body, seq![SpecToken::CloseBrace]);
            lemma_seq_at_split(t, p, seq![SpecToken::OpenBrace], body);
            if d < MAX_DEPTH {
                if members.len() == 0 {
                    assert(body.len() == 0);
                    assert(t[p + 1] is CloseBrace);
                    assert(members =~= Seq::<(Seq<char>, SpecValue)>::empty());
                    assert(nesting_members(members) == 0);
                } else {
                    lemma_members_tokens_start(members);
                    assert(value_tokens(v) =~= seq![SpecToken::OpenBrace] + (body + seq![SpecToken::CloseBrace]));
                    lemma_seq_at_split(t, p, seq![SpecToken::OpenBrace], body + seq![SpecToken::CloseBrace]);
                    lemma_parse_members(t, p + 1, members, d + 1);
                }
            }
        },
        _ => {},
    }
}

pub proof fn lemma_items_tokens_start(items: Seq<SpecValue>)
    requires
        items.len() > 0,
    ensures
        items_tokens(items).len() > 0,
        items_tokens(items)[0] == value_tokens(items[0])[0],
{
    lemma_value_tokens_start(items[0]);
}

pub proof fn lemma_members_tokens_start(members: Seq<(Seq<char>, SpecValue)>)
    requires
        members.len() > 0,
    ensures
        members_tokens(members).len() > 0,
        members_tokens(members)[0] == SpecToken::Str(members[0].0),
{
    let mt = member_tokens(members[0]);
    assert(mt[0] == SpecToken::Str(members[0].0));
    if members.len() > 1 {
        assert((mt + seq![SpecToken::Comma] + members_tokens(members.drop_first()))[0] == mt[0]);
    }
}

pub proof fn lemma_parse_items(t: Seq<SpecToken>, p: int, items: Seq<SpecValue>, d: int)
    requires
        items.len() > 0,
        seq_at(t, p, items_tokens(items) + seq![SpecToken::CloseBracket]),
        0 <= d <= MAX_DEPTH,
    ensures
        items_at(t, p, d) == if d + nesting_items(items) <= MAX_DEPTH {
            Ok((items, items_tokens(items).len() + 1))
        } else {
            Err::<(Seq<SpecValue>, nat), ParseError>(ParseError::InvalidJson)
        },
    decreases items, 0int,
{
    let x = items[0];
    let n = value_tokens(x).len() as int;
    let close = seq![SpecToken::CloseBracket];
    if items.len() == 1 {
        assert(items_tokens(items) == value_tokens(x));
        lemma_seq_at_split(t, p, value_tokens(x), close);
        lemma_parse_value(t, p, x, d);
        assert(items.drop_first().len() == 0);
        assert(nesting_items(items.drop_first()) == 0);
        assert(nesting_items(items) == nesting(x));
        assert(t[p + n] is CloseBracket);
        assert(seq![x] =~= items);
    } else {
        let rest = items.drop_first();
        let tail = items_tokens(rest) + close;
        assert(items_tokens(items) + close =~= value_tokens(x) + (seq![SpecToken::Comma] + tail));
        lemma_seq_at_split(t, p, value_tokens(x), seq![SpecToken::Comma] + tail);
        lemma_seq_at_split(t, p + n, seq![SpecToken::Comma], tail);
        lemma_parse_value(t, p, x, d);
        lemma_items_tokens_start(rest);
        lemma_seq_at_split(t, p + n + 1, items_tokens(rest), close);
        lemma_parse_items(t, p + n + 1, rest, d);
        assert(seq![x] + rest =~= items);
    }
}

pub proof fn lemma_parse_members(
    t: Seq<SpecToken>,
    p: int,
    members: Seq<(Seq<char>, SpecValue)>,
    d: int,
)
    requires
        members.len() > 0,
        seq_at(t, p, members_tokens(members) + seq![SpecToken::CloseBrace]),
        0 <= d <= MAX_DEPTH,
    ensures
        members_at(t, p, d) == if d + nesting_members(members) <= MAX_DEPTH {
            Ok((members, members_tokens(members).len() + 1))
        } else {
            Err::<(Seq<(Seq<char>, SpecValue)>, nat), ParseError>(ParseError::InvalidJson)
        },
    decreases members, 0int,
{
    let m = members[0];
    let x = m.1;
    let n = value_tokens(x).len() as int;
    let close = seq![SpecToken::CloseBrace];
    let head = seq![SpecToken::Str(m.0), SpecToken::Colon];
    assert(member_tokens(m) == head + value_tokens(x));
    if members.len() == 1 {
        assert(members_tokens(members) + close =~= head + (value_tokens(x) + close));
        lemma_seq_at_split(t, p, head, value_tokens(x) + close);
        lemma_seq_at_split(t, p + 2, value_tokens(x), close);
        lemma_parse_value(t, p + 2, x, d);
        assert(members.drop_first().len() == 0);
        assert(nesting_members(members.drop_first()) == 0);
        assert(nesting_members(members) == nesting(x));
        assert(t[p] == SpecToken::Str(m.0));
        assert(t[p + 1] is Colon);
        assert(t[p + 2 + n] is CloseBrace);
        assert(seq![m] =~= members);
    } else {
        let rest = members.drop_first();
        let tail = members_tokens(rest) + close;
        assert(members_tokens(members) + close =~= head + (value_tokens(x) + (seq![SpecToken::Comma] + tail)));
        lemma_seq_at_split(t, p, head, value_tokens(x) + (seq![SpecToken::Comma] + tail));
        lemma_seq_at_split(t, p + 2, value_tokens(x), seq![SpecToken::Comma] + tail);
        lemma_seq_at_split(t, p + 2 + n, seq![SpecToken::Comma], tail);
        lemma_parse_value(t, p + 2, x, d);
        lemma_members_tokens_start(rest);
        lemma_seq_at_split(t, p + n + 3, members_tokens(rest), close);
        lemma_parse_members(t, p + n + 3, rest, d);
        assert(seq![m] + rest =~= members);
    }
}

/// A comma at token `k` is directly followed by a closing bracket or brace.
pub open spec fn trailing_comma_at(t: Seq<SpecToken>, k: int) -> bool {
    0 <= k && k + 1 < t.len() && t[k] is Comma && (t[k + 1] is CloseBracket || t[k + 1] is CloseBrace)
}

/// No trailing comma starts between tokens `a` and `b`.
pub open spec fn no_trailing_comma(t: Seq<SpecToken>, a: int, b: int) -> bool {
    forall|k: int| a <= k && k + 1 < b ==> !#[trigger] trailing_comma_at(t, k)
}

/// What a successful parse covers holds no trailing comma, and does not end
/// with a comma.
pub proof fn lemma_value_no_trailing_comma(t: Seq<SpecToken>, p: int, d: int)
    requires
        0 <= p,
    ensures
        parse_value_at(t, p, d) matches Ok((v, n)) ==> {
            &&& 0 < n && p + n <= t.len()
            &&& no_trailing_comma(t, p, p + n)
            &&& !(t[p + n - 1] is Comma)
            &&& !(t[p] is CloseBrace || t[p] is CloseBracket)
        },
    decreases t.len() - p, 0int,
{
    if 0 <= p < t.len() {
        match t[p] {
            SpecToken::OpenBrace => {
                if d < MAX_DEPTH && !(p + 1 < t.len() && t[p + 1] is CloseBrace) {
                    lemma_members_no_trailing_comma(t, p + 1, d + 1);
                }
            },
            SpecToken::OpenBracket => {
                if d < MAX_DEPTH && !(p + 1 < t.len() && t[p + 1] is CloseBracket) {
                    lemma_items_no_trailing_comma(t, p + 1, d + 1);
                }
            },
            _ => {},
        }
    }
}

pub proof fn lemma_items_no_trailing_comma(t: Seq<SpecToken>, p: int, d: int)
    requires
        0 <= p,
    ensures
        items_at(t, p, d) matches Ok((vs, n)) ==> {
            &&& 0 < n && p + n <= t.len()
            &&& no_trailing_comma(t, p, p + n)
            &&& t[p + n - 1] is CloseBracket
            &&& !(t[p] is CloseBrace || t[p] is CloseBracket)
        },
    decreases t.len() - p, 1int,
{
    lemma_value_no_trailing_comma(t, p, d);
    if let Ok((v, n)) = parse_value_at(t, p, d) {
        let q = p + n;
        if 0 <= q < t.len() && t[q] is Comma && q + 1 < t.len() && !(t[q + 1] is CloseBracket) {
            lemma_items_no_trailing_comma(t, q + 1, d);
            if let Ok((rest, m)) = items_at(t, q + 1, d) {
                assert forall|k: int| p <= k && k + 1 < q + 1 + m implies !#[trigger] trailing_comma_at(
                    t,
                    k,
                ) by {
                    if k < q - 1 || q + 1 <= k {
                        assert(!trailing_comma_at(t, k));
                    }
                }
            }
        } else if 0 <= q < t.len() && t[q] is CloseBracket {
            assert forall|k: int| p <= k && k + 1 < q + 1 implies !#[trigger] trailing_comma_at(
                t,
                k,
            ) by {
                if k < q - 1 {
                    assert(!trailing_comma_at(t, k));
                }
            }
        }
    }
}

pub proof fn lemma_members_no_trailing_comma(t: Seq<SpecToken>, p: int, d: int)
    requires
        0 <= p,
    ensures
        members_at(t, p, d) matches Ok((ms, n)) ==> {
            &&& 0 < n && p + n <= t.len()
            &&& no_trailing_comma(t, p, p + n)
            &&& t[p + n - 1] is CloseBrace
            &&& t[p] is Str
        },
    decreases t.len() - p, 1int,
{
    if 0 <= p < t.len() && t[p] is Str && p + 1 < t.len() && t[p + 1] is Colon {
        lemma_value_no_trailing_comma(t, p + 2, d);
        if let Ok((v, n)) = parse_value_at(t, p + 2, d) {
            let q = p + 2 + n;
            if q < t.len() && t[q] is Comma && q + 1 < t.len() && !(t[q + 1] is CloseBrace) {
                lemma_members_no_trailing_comma(t, q + 1, d);
                if let Ok((rest, m)) = members_at(t, q + 1, d) {
                    assert forall|k: int|
                        p <= k && k + 1 < q + 1 + m implies !#[trigger] trailing_comma_at(t, k) by {
                        if q + 1 <= k || (p + 2 <= k && k < q - 1) {
                            assert(!trailing_comma_at(t, k));
                        } else if k == q {
                            assert(t[q + 1] is Str);
                        }
                    }
                }
            } else if q < t.len() && t[q] is CloseBrace {
                assert forall|k: int|
                    p <= k && k + 1 < q + 1 implies !#[trigger] trailing_comma_at(t, k) by {
                    if p + 2 <= k < q - 1 {
                        assert(!trailing_comma_at(t, k));
                    }
                }
            }
        }
    }
}

/// A value parsed from tokens whose numbers hold number texts has valid
/// numbers and stays within the nesting limit.
pub proof fn lemma_parsed_value_valid(t: Seq<SpecToken>, p: int, d: int)
    requires
        0 <= p,
        0 <= d <= MAX_DEPTH,
        forall|k: int| 0 <= k < t.len() ==> token_ok(#[trigger] t[k]),
    ensures
        parse_value_at(t, p, d) matches Ok((v, n)) ==> numbers_valid(v) && d + nesting(v)
            <= MAX_DEPTH,
    decreases t.len() - p, 0int,
{
    if 0 <= p < t.len() {
        assert(token_ok(t[p]));
        match t[p] {
            SpecToken::OpenBrace => {
                if d < MAX_DEPTH && !(p + 1 < t.len() && t[p + 1] is CloseBrace) {
                    lemma_parsed_members_valid(t, p + 1, d + 1);
                } else if d < MAX_DEPTH {
                    assert(nesting_members(Seq::<(Seq<char>, SpecValue)>::empty()) == 0);
                }
            },
            SpecToken::OpenBracket => {
                if d < MAX_DEPTH && !(p + 1 < t.len() && t[p + 1] is CloseBracket) {
                    lemma_parsed_items_valid(t, p + 1, d + 1);
                } else if d < MAX_DEPTH {
                    assert(nesting_items(Seq::<SpecValue>::empty()) == 0);
                }
            },
            _ => {},
        }
    }
}

pub proof fn lemma_parsed_items_valid(t: Seq<SpecToken>, p: int, d: int)
    requires
        0 <= p,
        0 <= d <= MAX_DEPTH,
        forall|k: int| 0 <= k < t.len() ==> token_ok(#[trigger] t[k]),
    ensures
        items_at(t, p, d) matches Ok((vs, n)) ==> numbers_valid_items(vs) && d + nesting_items(vs)
            <= MAX_DEPTH,
    decreases t.len() - p, 1int,
{
    lemma_parsed_value_valid(t, p, d);
    if let Ok((v, n)) = parse_value_at(t, p, d) {
        let q = p + n;
        if 0 <= q < t.len() && t[q] is Comma && q + 1 < t.len() && !(t[q + 1] is CloseBracket) {
            lemma_parsed_items_valid(t, q + 1, d);
            if let Ok((rest, m)) = items_at(t, q + 1, d) {
                let vs = seq![v] + rest;
                assert(vs[0] == v);
                assert(vs.drop_first() =~= rest);
                assert(items_at(t, p, d) == Ok::<(Seq<SpecValue>, nat), ParseError>((vs, n + 1 + m)));
                assert(numbers_valid_items(vs));
                assert(d + nesting_items(vs) <= MAX_DEPTH);
            }
        } else if 0 <= q < t.len() && t[q] is CloseBracket {
            let vs = seq![v];
            assert(vs.drop_first() =~= Seq::<SpecValue>::empty());
            assert(nesting_items(vs.drop_first()) == 0);
            assert(numbers_valid_items(vs.drop_first()));
            assert(items_at(t, p, d) == Ok::<(Seq<SpecValue>, nat), ParseError>((vs, n + 1)));
        }
    }
}

pub proof fn lemma_parsed_members_valid(t: Seq<SpecToken>, p: int, d: int)
    requires
        0 <= p,
        0 <= d <= MAX_DEPTH,
        forall|k: int| 0 <= k < t.len() ==> token_ok(#[trigger] t[k]),
    ensures
        members_at(t, p, d) matches Ok((ms, n)) ==> numbers_valid_members(ms) && d
            + nesting_members(ms) <= MAX_DEPTH,
    decreases t.len() - p, 1int,
{
    if 0 <= p < t.len() && t[p] is Str && p + 1 < t.len() && t[p + 1] is Colon {
        let key = t[p]->Str_0;
        lemma_parsed_value_valid(t, p + 2, d);
        if let Ok((v, n)) = parse_value_at(t, p + 2, d) {
            let q = p + 2 + n;
            if q < t.len() && t[q] is Comma && q + 1 < t.len() && !(t[q + 1] is CloseBrace) {
                lemma_parsed_members_valid(t, q + 1, d);
                if let Ok((rest, m)) = members_at(t, q + 1, d) {
                    let ms = seq![(key, v)] + rest;
                    assert(ms[0] == (key, v));
                    assert(ms.drop_first() =~= rest);
                    assert(members_at(t, p, d) == Ok::<(Seq<(Seq<char>, SpecValue)>, nat), ParseError>((ms, n + 3 + m)));
                    assert(numbers_valid_members(ms));
                    assert(d + nesting_members(ms) <= MAX_DEPTH);
                }
            } else if q < t.len() && t[q] is CloseBrace {
                let ms = seq![(key, v)];
                assert(ms.drop_first() =~= Seq::<(Seq<char>, SpecValue)>::empty());
                assert(nesting_members(ms.drop_first()) == 0);
                assert(numbers_valid_members(ms.drop_first()));
                assert(members_at(t, p, d) == Ok::<(Seq<(Seq<char>, SpecValue)>, nat), ParseError>((ms, n + 3)));
            }
        }
    }
}

} // verus!

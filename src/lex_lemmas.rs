use vstd::prelude::*;

use crate::chars::{hex_value, is_digit, is_scalar, is_ws};
use crate::lexer::{
    digit_at, digits_end, exp_part_end, false_word, frac_part_end, has, hex4, int_part_end,
    lemma_digits_end_bounds, lemma_lex_next_advances, lemma_number_end_bounds,
    lemma_skip_ws_bounds, lex_next, null_word, number_end, scan_string, skip_ws, tokens_from,
    true_word, word_at,
};
use crate::token::SpecToken;
use crate::value::{
    escape, escape_char, hex_char, is_number_text, items_tokens, member_tokens, members_tokens,
    numbers_valid, numbers_valid_items, numbers_valid_members, quoted, separator, serialize,
    serialize_items, serialize_member, serialize_members, value_tokens, SpecValue,
};

verus! {

/// Position `q` ends a number: the text ends there, or a comma or a closing
/// bracket or brace stands there.
pub open spec fn stops_number(s: Seq<char>, q: int) -> bool {
    !(0 <= q < s.len()) || s[q] == ',' || s[q] == ']' || s[q] == '}'
}

pub proof fn lemma_char_code(c: char)
    ensures
        (c as u32) as char == c,
{
}

pub proof fn lemma_hex_char(d: u32)
    requires
        d < 16,
    ensures
        hex_value(hex_char(d)) == Some(d),
{
}

pub proof fn lemma_escape_concat(a: Seq<char>, b: Seq<char>)
    ensures
        escape(a + b) == escape(a) + escape(b),
    decreases b.len(),
{
    if b.len() == 0 {
        assert(a + b =~= a);
        assert(escape(a) + escape(b) =~= escape(a));
    } else {
        lemma_escape_concat(a, b.drop_last());
        assert((a + b).drop_last() =~= a + b.drop_last());
        assert((a + b).last() == b.last());
        assert(escape(a) + escape(b) =~= escape(a) + escape(b.drop_last()) + escape_char(b.last()));
    }
}

/// The front character of a text is written first.
pub proof fn lemma_escape_front(y: Seq<char>)
    requires
        y.len() > 0,
    ensures
        escape(y) == escape_char(y[0]) + escape(y.drop_first()),
{
    assert(y =~= seq![y[0]] + y.drop_first());
    lemma_escape_concat(seq![y[0]], y.drop_first());
    assert(seq![y[0]].drop_last() =~= Seq::<char>::empty());
    assert(seq![y[0]].last() == y[0]);
    assert(escape(Seq::<char>::empty()) == Seq::<char>::empty());
    assert(Seq::<char>::empty() + escape_char(y[0]) =~= escape_char(y[0]));
    assert(escape(seq![y[0]]) =~= escape_char(y[0]));
}

/// The string scanner reads back one written character.
pub proof fn lemma_scan_one(s: Seq<char>, i: int, acc: Seq<char>, c: char)
    requires
        0 <= i,
        i + escape_char(c).len() <= s.len(),
        s.subrange(i, i + escape_char(c).len()) == escape_char(c),
    ensures
        scan_string(s, i, acc) == scan_string(s, i + escape_char(c).len(), acc.push(c)),
{
    let w = escape_char(c);
    assert forall|k: int| 0 <= k < w.len() implies s[i + k] == w[k] by {
        assert(s.subrange(i, i + w.len())[k] == s[i + k]);
    }
    if c == '"' || c == '\\' {
        assert(s[i] == '\\');
    } else if (c as u32) < 0x20 {
        let code = c as u32;
        lemma_hex_char(code / 16);
        lemma_hex_char(code % 16);
        assert(s[i + 2] == '0' && s[i + 3] == '0');
        assert(hex4(s, i + 2) == Some(code)) by {
            assert(hex_value(s[i + 2]) == Some(0u32));
            assert(hex_value(s[i + 3]) == Some(0u32));
            assert(hex_value(s[i + 4]) == Some(code / 16));
            assert(hex_value(s[i + 5]) == Some(code % 16));
            assert((code / 16) * 16 + code % 16 == code) by (nonlinear_arith);
        }
        assert(is_scalar(code));
        lemma_char_code(c);
    } else {
        assert(w == seq![c]);
        assert(s.subrange(i, i + w.len())[0] == s[i]);
        assert(s[i] == c);
    }
}

/// The string scanner reads back a written text up to the closing quote.
pub proof fn lemma_scan_escaped(s: Seq<char>, i: int, acc: Seq<char>, y: Seq<char>)
    requires
        0 <= i,
        i + escape(y).len() < s.len(),
        s.subrange(i, i + escape(y).len()) == escape(y),
        s[i + escape(y).len()] == '"',
    ensures
        scan_string(s, i, acc) == Some((acc + y, i + escape(y).len() + 1)),
    decreases y.len(),
{
    if y.len() == 0 {
        assert(acc + y =~= acc);
    } else {
        lemma_escape_front(y);
        let w = escape_char(y[0]);
        let rest = y.drop_first();
        let e = escape(y);
        assert(s.subrange(i, i + w.len()) =~= e.subrange(0, w.len() as int));
        assert(e.subrange(0, w.len() as int) =~= w);
        lemma_scan_one(s, i, acc, y[0]);
        assert(s.subrange(i + w.len(), i + w.len() + escape(rest).len()) =~= e.subrange(
            w.len() as int,
            e.len() as int,
        ));
        assert(e.subrange(w.len() as int, e.len() as int) =~= escape(rest));
        lemma_scan_escaped(s, i + w.len(), acc.push(y[0]), rest);
        assert(acc.push(y[0]) + rest =~= acc + y);
    }
}

/// A string literal is read back as one token.
pub proof fn lemma_lex_quoted(s: Seq<char>, p: int, x: Seq<char>)
    requires
        0 <= p,
        p + quoted(x).len() <= s.len(),
        s.subrange(p, p + quoted(x).len()) == quoted(x),
    ensures
        lex_next(s, p) == Some((SpecToken::Str(x), p + quoted(x).len())),
{
    let q = quoted(x);
    let n = escape(x).len() as int;
    assert(s[p] == q[0]);
    assert(s[p + 1 + n] == q[1 + n]);
    assert(s.subrange(p + 1, p + 1 + n) =~= q.subrange(1, 1 + n));
    assert(q.subrange(1, 1 + n) =~= escape(x));
    lemma_scan_escaped(s, p + 1, Seq::empty(), x);
    assert(Seq::<char>::empty() + x =~= x);
}

/// Inside a number text written at `p` and at the position after it, the
/// scanner sees the same characters in `s` as in the text alone.
pub proof fn lemma_number_window(s: Seq<char>, p: int, n: Seq<char>, k: int)
    requires
        0 <= p,
        p + n.len() <= s.len(),
        s.subrange(p, p + n.len()) == n,
        stops_number(s, p + n.len()),
        0 <= k <= n.len(),
    ensures
        digit_at(s, p + k) == digit_at(n, k),
        has(s, p + k, '0') == has(n, k, '0'),
        has(s, p + k, '-') == has(n, k, '-'),
        has(s, p + k, '+') == has(n, k, '+'),
        has(s, p + k, '.') == has(n, k, '.'),
        has(s, p + k, 'e') == has(n, k, 'e'),
        has(s, p + k, 'E') == has(n, k, 'E'),
{
    if k < n.len() {
        assert(s.subrange(p, p + n.len())[k] == s[p + k]);
    }
}

pub proof fn lemma_digits_end_window(s: Seq<char>, p: int, n: Seq<char>, k: int)
    requires
        0 <= p,
        p + n.len() <= s.len(),
        s.subrange(p, p + n.len()) == n,
        stops_number(s, p + n.len()),
        0 <= k <= n.len(),
    ensures
        digits_end(s, p + k) == p + digits_end(n, k),
    decreases n.len() - k,
{
    lemma_number_window(s, p, n, k);
    if digit_at(n, k) {
        lemma_digits_end_window(s, p, n, k + 1);
    }
}

/// A number text is read back as one token.
pub proof fn lemma_lex_number(s: Seq<char>, p: int, n: Seq<char>)
    requires
        is_number_text(n),
        0 <= p,
        p + n.len() <= s.len(),
        s.subrange(p, p + n.len()) == n,
        stops_number(s, p + n.len()),
    ensures
        lex_next(s, p) == Some((SpecToken::Num(n), p + n.len())),
{
    let len = n.len() as int;
    lemma_number_window(s, p, n, 0);
    let j: int = if has(n, 0, '-') { 1 } else { 0 };
    assert(j <= len);
    lemma_number_window(s, p, n, j);
    if has(n, j, '0') {
        lemma_number_window(s, p, n, j + 1);
    } else {
        lemma_digits_end_window(s, p, n, j + 1);
    }
    lemma_digits_end_bounds(n, j + 1);
    let k = int_part_end(n, j)->0;
    assert(int_part_end(s, p + j) == Some(p + k));
    lemma_number_window(s, p, n, k);
    if has(n, k, '.') {
        lemma_number_window(s, p, n, k + 1);
        lemma_digits_end_window(s, p, n, k + 1);
    }
    lemma_digits_end_bounds(n, k + 1);
    let m = frac_part_end(n, k)->0;
    assert(frac_part_end(s, p + k) == Some(p + m));
    lemma_number_window(s, p, n, m);
    if has(n, m, 'e') || has(n, m, 'E') {
        lemma_number_window(s, p, n, m + 1);
        let jj = if has(n, m + 1, '+') || has(n, m + 1, '-') { m + 2 } else { m + 1 };
        lemma_number_window(s, p, n, jj);
        lemma_digits_end_window(s, p, n, jj);
    }
    assert(exp_part_end(s, p + m) == Some(p + len));
    assert(number_end(s, p) == Some(p + len));
    assert(s.subrange(p, p + len) == n);
    assert(skip_ws(s, p) == p);
}

/// The text `w` stands at position `p` of `s`.
pub open spec fn text_at(s: Seq<char>, p: int, w: Seq<char>) -> bool {
    0 <= p && p + w.len() <= s.len() && s.subrange(p, p + w.len()) == w
}

pub proof fn lemma_text_at_split(s: Seq<char>, p: int, a: Seq<char>, b: Seq<char>)
    requires
        text_at(s, p, a + b),
    ensures
        text_at(s, p, a),
        text_at(s, p + a.len(), b),
        a.len() > 0 ==> s[p] == a[0],
        b.len() > 0 ==> s[p + a.len()] == b[0],
{
    let w = a + b;
    assert(s.subrange(p, p + a.len()) =~= w.subrange(0, a.len() as int));
    assert(w.subrange(0, a.len() as int) =~= a);
    assert(s.subrange(p + a.len(), p + w.len()) =~= w.subrange(a.len() as int, w.len() as int));
    assert(w.subrange(a.len() as int, w.len() as int) =~= b);
    if a.len() > 0 {
        assert(s.subrange(p, p + w.len())[0] == s[p]);
    }
    if b.len() > 0 {
        assert(s.subrange(p, p + w.len())[a.len() as int] == s[p + a.len()]);
    }
}

/// Reading one token and then the rest.
pub proof fn lemma_tokens_step(s: Seq<char>, p: int)
    requires
        0 <= p,
    ensures
        lex_next(s, p) matches Some((t, e)) ==> tokens_from(s, p) == seq![t] + tokens_from(s, e),
{
    lemma_lex_next_advances(s, p);
}

/// Whitespace before a token changes nothing.
pub proof fn lemma_tokens_ws(s: Seq<char>, i: int)
    requires
        0 <= i < s.len(),
        is_ws(s[i]),
    ensures
        tokens_from(s, i) == tokens_from(s, i + 1),
{
    assert(skip_ws(s, i) == skip_ws(s, i + 1));
    assert(lex_next(s, i) == lex_next(s, i + 1));
    lemma_lex_next_advances(s, i + 1);
}

/// The written text of a value is read back as the value's tokens.
pub proof fn lemma_lex_value(s: Seq<char>, p: int, v: SpecValue)
    requires
        numbers_valid(v),
        text_at(s, p, serialize(v)),
        stops_number(s, p + serialize(v).len()),
    ensures
        tokens_from(s, p) == value_tokens(v) + tokens_from(s, p + serialize(v).len()),
    decreases v, 0int,
{
    let w = serialize(v);
    let end = p + w.len();
    match v {
        SpecValue::Null => {
            assert(word_at(s, p, null_word()));
            assert(s[p] == 'n') by { lemma_text_at_split(s, p, w, Seq::empty()); }
            lemma_tokens_step(s, p);
        },
        SpecValue::Boolean(b) => {
            if b {
                assert(word_at(s, p, true_word()));
                assert(s[p] == 't') by { lemma_text_at_split(s, p, w, Seq::empty()); }
            } else {
                assert(word_at(s, p, false_word()));
                assert(s[p] == 'f') by { lemma_text_at_split(s, p, w, Seq::empty()); }
            }
            lemma_tokens_step(s, p);
        },
        SpecValue::Number(n) => {
            lemma_lex_number(s, p, n);
            lemma_tokens_step(s, p);
        },
        SpecValue::Str(x) => {
            lemma_lex_quoted(s, p, x);
            lemma_tokens_step(s, p);
        },
        SpecValue::Array(items) => {
            lemma_lex_array(s, p, items);
        },
        SpecValue::Object(members) => {
            lemma_lex_object(s, p, members);
        },
    }
}

pub proof fn lemma_lex_array(s: Seq<char>, p: int, items: Seq<SpecValue>)
    requires
        numbers_valid_items(items),
        text_at(s, p, serialize(SpecValue::Array(items))),
        stops_number(s, p + serialize(SpecValue::Array(items)).len()),
    ensures
        tokens_from(s, p) == value_tokens(SpecValue::Array(items)) + tokens_from(
            s,
            p + serialize(SpecValue::Array(items)).len(),
        ),
    decreases items, 1int,
{
    let v = SpecValue::Array(items);
    let w = serialize(v);
    let end = p + w.len();
    let body = serialize_items(items);
    let l = body.len() as int;
    assert(w == seq!['['] + body + seq![']']);
    lemma_text_at_split(s, p, seq!['['] + body, seq![']']);
    lemma_text_at_split(s, p, seq!['['], body);
    lemma_tokens_step(s, p);
    lemma_tokens_step(s, p + 1 + l);
    if items.len() == 0 {
        assert(items_tokens(items) =~= Seq::<SpecToken>::empty());
    } else {
        lemma_lex_items(s, p + 1, items);
    }
    assert(value_tokens(v) + tokens_from(s, end) =~= seq![SpecToken::OpenBracket]
        + items_tokens(items) + (seq![SpecToken::CloseBracket] + tokens_from(s, end)));
}

pub proof fn lemma_lex_object(s: Seq<char>, p: int, members: Seq<(Seq<char>, SpecValue)>)
    requires
        numbers_valid_members(members),
        text_at(s, p, serialize(SpecValue::Object(members))),
        stops_number(s, p + serialize(SpecValue::Object(members)).len()),
    ensures
        tokens_from(s, p) == value_tokens(SpecValue::Object(members)) + tokens_from(
            s,
            p + serialize(SpecValue::Object(members)).len(),
        ),
    decreases members, 1int,
{
    let v = SpecValue::Object(members);
    let w = serialize(v);
    let end = p + w.len();
    let body = serialize_members(members);
    let l = body.len() as int;
    assert(w == seq!['{'] + body + seq!['}']);
    lemma_text_at_split(s, p, seq!['{'] + body, seq!['}']);
    lemma_text_at_split(s, p, seq!['{'], body);
    lemma_tokens_step(s, p);
    lemma_tokens_step(s, p + 1 + l);
    if members.len() == 0 {
        assert(members_tokens(members) =~= Seq::<SpecToken>::empty());
    } else {
        lemma_lex_members(s, p + 1, members);
    }
    assert(value_tokens(v) + tokens_from(s, end) =~= seq![SpecToken::OpenBrace]
        + members_tokens(members) + (seq![SpecToken::CloseBrace] + tokens_from(s, end)));
}

pub proof fn lemma_lex_items(s: Seq<char>, p: int, items: Seq<SpecValue>)
    requires
        items.len() > 0,
        numbers_valid_items(items),
        text_at(s, p, serialize_items(items)),
        stops_number(s, p + serialize_items(items).len()),
    ensures
        tokens_from(s, p) == items_tokens(items) + tokens_from(s, p + serialize_items(items).len()),
    decreases items, 0int,
{
    if items.len() == 1 {
        lemma_lex_value(s, p, items[0]);
    } else {
        let first = serialize(items[0]);
        let rest = items.drop_first();
        let q = p + first.len();
        assert(serialize_items(items) == first + separator() + serialize_items(rest));
        lemma_text_at_split(s, p, first + separator(), serialize_items(rest));
        lemma_text_at_split(s, p, first, separator());
        assert(separator() =~= seq![','] + seq![' ']);
        lemma_text_at_split(s, q, seq![','], seq![' ']);
        lemma_lex_value(s, p, items[0]);
        lemma_tokens_step(s, q);
        lemma_tokens_ws(s, q + 1);
        lemma_lex_items(s, q + 2, rest);
        let end = p + serialize_items(items).len();
        assert(q + 2 + serialize_items(rest).len() == end);
        assert(items_tokens(items) + tokens_from(s, end) =~= value_tokens(items[0]) + (seq![
            SpecToken::Comma,
        ] + (items_tokens(rest) + tokens_from(s, end))));
    }
}

pub proof fn lemma_lex_member(s: Seq<char>, p: int, m: (Seq<char>, SpecValue))
    requires
        numbers_valid(m.1),
        text_at(s, p, serialize_member(m)),
        stops_number(s, p + serialize_member(m).len()),
    ensures
        tokens_from(s, p) == member_tokens(m) + tokens_from(s, p + serialize_member(m).len()),
    decreases m, 0int,
{
    let key = quoted(m.0);
    let q = p + key.len();
    lemma_text_at_split(s, p, key + seq![':'], serialize(m.1));
    lemma_text_at_split(s, p, key, seq![':']);
    lemma_lex_quoted(s, p, m.0);
    lemma_tokens_step(s, p);
    lemma_tokens_step(s, q);
    lemma_lex_value(s, q + 1, m.1);
    let end = p + serialize_member(m).len();
    assert(member_tokens(m) + tokens_from(s, end) =~= seq![SpecToken::Str(m.0)] + (seq![
        SpecToken::Colon,
    ] + (value_tokens(m.1) + tokens_from(s, end))));
}

pub proof fn lemma_lex_members(s: Seq<char>, p: int, members: Seq<(Seq<char>, SpecValue)>)
    requires
        members.len() > 0,
        numbers_valid_members(members),
        text_at(s, p, serialize_members(members)),
        stops_number(s, p + serialize_members(members).len()),
    ensures
        tokens_from(s, p) == members_tokens(members) + tokens_from(
            s,
            p + serialize_members(members).len(),
        ),
    decreases members, 0int,
{
    if members.len() == 1 {
        lemma_lex_member(s, p, members[0]);
    } else {
        let first = serialize_member(members[0]);
        let rest = members.drop_first();
        let q = p + first.len();
        assert(serialize_members(members) == first + separator() + serialize_members(rest));
        lemma_text_at_split(s, p, first + separator(), serialize_members(rest));
        lemma_text_at_split(s, p, first, separator());
        assert(separator() =~= seq![','] + seq![' ']);
        lemma_text_at_split(s, q, seq![','], seq![' ']);
        lemma_lex_member(s, p, members[0]);
        lemma_tokens_step(s, q);
        lemma_tokens_ws(s, q + 1);
        lemma_lex_members(s, q + 2, rest);
        let end = p + serialize_members(members).len();
        assert(q + 2 + serialize_members(rest).len() == end);
        assert(members_tokens(members) + tokens_from(s, end) =~= member_tokens(members[0]) + (seq![
            SpecToken::Comma,
        ] + (members_tokens(rest) + tokens_from(s, end))));
    }
}

/// Inside `s.subrange(i, e)` the scanner sees what it sees in `s`, and
/// nothing at its end.
pub proof fn lemma_prefix_at(s: Seq<char>, i: int, e: int, x: int)
    requires
        0 <= i <= x <= e <= s.len(),
    ensures
        x < e ==> digit_at(s.subrange(i, e), x - i) == digit_at(s, x),
        x < e ==> forall|c: char| #[trigger] has(s.subrange(i, e), x - i, c) == has(s, x, c),
        x == e ==> !digit_at(s.subrange(i, e), x - i),
        x == e ==> forall|c: char| !#[trigger] has(s.subrange(i, e), x - i, c),
{
}

pub proof fn lemma_digits_end_prefix(s: Seq<char>, i: int, e: int, k: int)
    requires
        0 <= i <= e <= s.len(),
        0 <= k <= e - i,
        digits_end(s, i + k) <= e,
    ensures
        digits_end(s.subrange(i, e), k) == digits_end(s, i + k) - i,
    decreases e - i - k,
{
    let n = s.subrange(i, e);
    lemma_prefix_at(s, i, e, i + k);
    lemma_digits_end_bounds(s, i + k + 1);
    if k < e - i {
        if digit_at(s, i + k) {
            lemma_digits_end_prefix(s, i, e, k + 1);
        }
    }
}

/// The text of a number token is a number text.
pub proof fn lemma_number_text_of(s: Seq<char>, i: int)
    requires
        0 <= i < s.len(),
        number_end(s, i) is Some,
    ensures
        is_number_text(s.subrange(i, number_end(s, i)->0)),
{
    let e = number_end(s, i)->0;
    let n = s.subrange(i, e);
    lemma_number_end_bounds(s, i);
    let js = if has(s, i, '-') { i + 1 } else { i };
    lemma_prefix_at(s, i, e, i);
    assert(has(n, 0, '-') == has(s, i, '-'));
    let j = js - i;
    let ks = int_part_end(s, js)->0;
    let ms = frac_part_end(s, ks)->0;
    lemma_digits_end_bounds(s, js + 1);
    lemma_digits_end_bounds(s, ks + 1);
    lemma_digits_end_bounds(s, ms + 1);
    lemma_digits_end_bounds(s, ms + 2);
    assert(js < ks <= ms <= e);
    lemma_prefix_at(s, i, e, js);
    if has(s, js, '0') {
        lemma_prefix_at(s, i, e, js + 1);
    } else {
        lemma_digits_end_prefix(s, i, e, j + 1);
    }
    assert(int_part_end(n, j) == Some(ks - i));
    lemma_prefix_at(s, i, e, ks);
    if has(s, ks, '.') {
        lemma_prefix_at(s, i, e, ks + 1);
        lemma_digits_end_prefix(s, i, e, ks + 1 - i);
    }
    assert(frac_part_end(n, ks - i) == Some(ms - i));
    lemma_prefix_at(s, i, e, ms);
    if has(s, ms, 'e') || has(s, ms, 'E') {
        lemma_prefix_at(s, i, e, ms + 1);
        let jj = if has(s, ms + 1, '+') || has(s, ms + 1, '-') { ms + 2 } else { ms + 1 };
        lemma_digits_end_bounds(s, jj);
        lemma_digits_end_bounds(s, jj + 1);
        assert(ms + 1 < e);
        lemma_prefix_at(s, i, e, jj);
        lemma_digits_end_prefix(s, i, e, jj - i);
    }
    assert(exp_part_end(n, ms - i) == Some(e - i));
}

/// A number token holds a number text.
pub open spec fn token_ok(tok: SpecToken) -> bool {
    match tok {
        SpecToken::Num(n) => is_number_text(n),
        _ => true,
    }
}

/// Every number token the lexer reads holds a number text.
pub proof fn lemma_tokens_ok(s: Seq<char>, p: int)
    requires
        0 <= p,
    ensures
        forall|k: int| 0 <= k < tokens_from(s, p).len() ==> token_ok(#[trigger] tokens_from(s, p)[k]),
    decreases s.len() - p,
{
    lemma_lex_next_advances(s, p);
    if let Some((tok, e)) = lex_next(s, p) {
        let i = skip_ws(s, p);
        lemma_skip_ws_bounds(s, p);
        if s[i] == '-' || is_digit(s[i]) {
            if number_end(s, i) is Some {
                lemma_number_text_of(s, i);
            }
        }
        assert(token_ok(tok));
        lemma_tokens_ok(s, e);
        let ts = tokens_from(s, p);
        assert(ts == seq![tok] + tokens_from(s, e));
        assert forall|k: int| 0 <= k < ts.len() implies token_ok(#[trigger] ts[k]) by {
            if k > 0 {
                assert(ts[k] == tokens_from(s, e)[k - 1]);
            }
        }
    }
}

} // verus!

use vstd::prelude::*;

use crate::lexer::{false_word, null_word, number_end, true_word};
use crate::parser::MAX_DEPTH;
use crate::token::SpecToken;

verus! {

broadcast use vstd::std_specs::vec::axiom_vec_decreases_to_view, vstd::std_specs::vec::axiom_vec_index_decreases, vstd::seq::axiom_seq_index_decreases, vstd::seq::axiom_seq_subrange_decreases;

/// A JSON value.
///
/// A number keeps the text it was written with; its 64-bit floating value is
/// what `str::parse::<f64>` gives for that text. An object keeps its members in
/// order, duplicate keys included.
#[derive(Debug)]
pub enum JsonValue {
    Null,
    Boolean(bool),
    Number(String),
    String(String),
    Array(Vec<JsonValue>),
    Object(Vec<(String, JsonValue)>),
}

/// The mathematical model of a JSON value.
pub enum SpecValue {
    Null,
    Boolean(bool),
    Number(Seq<char>),
    Str(Seq<char>),
    Array(Seq<SpecValue>),
    Object(Seq<(Seq<char>, SpecValue)>),
}

/// The models of a sequence of values.
pub open spec fn values_view(s: Seq<JsonValue>) -> Seq<SpecValue>
    decreases s,
{
    if s.len() == 0 {
        Seq::empty()
    } else {
        values_view(s.drop_last()).push(s.last()@)
    }
}

/// The models of a sequence of object members.
pub open spec fn members_view(s: Seq<(String, JsonValue)>) -> Seq<(Seq<char>, SpecValue)>
    decreases s,
{
    if s.len() == 0 {
        Seq::empty()
    } else {
        members_view(s.drop_last()).push((s.last().0@, s.last().1@))
    }
}

impl View for JsonValue {
    type V = SpecValue;

    open spec fn view(&self) -> SpecValue
        decreases self,
    {
        match self {
            JsonValue::Null => SpecValue::Null,
            JsonValue::Boolean(b) => SpecValue::Boolean(*b),
            JsonValue::Number(n) => SpecValue::Number(n@),
            JsonValue::String(s) => SpecValue::Str(s@),
            JsonValue::Array(a) => SpecValue::Array(values_view(a@)),
            JsonValue::Object(o) => SpecValue::Object(members_view(o@)),
        }
    }
}

pub proof fn lemma_values_view(s: Seq<JsonValue>)
    ensures
        values_view(s).len() == s.len(),
        forall|i: int| 0 <= i < s.len() ==> #[trigger] values_view(s)[i] == s[i]@,
    decreases s.len(),
{
    if s.len() > 0 {
        lemma_values_view(s.drop_last());
        let m = values_view(s);
        assert(m == values_view(s.drop_last()).push(s.last()@));
        assert forall|i: int| 0 <= i < s.len() implies #[trigger] m[i] == s[i]@ by {
            if i < s.len() - 1 {
                assert(s.drop_last()[i] == s[i]);
            }
        }
    }
}

pub proof fn lemma_members_view(s: Seq<(String, JsonValue)>)
    ensures
        members_view(s).len() == s.len(),
        forall|i: int|
            0 <= i < s.len() ==> #[trigger] members_view(s)[i] == (s[i].0@, s[i].1@),
    decreases s.len(),
{
    if s.len() > 0 {
        lemma_members_view(s.drop_last());
        let m = members_view(s);
        assert(m == members_view(s.drop_last()).push((s.last().0@, s.last().1@)));
        assert forall|i: int| 0 <= i < s.len() implies #[trigger] m[i] == (s[i].0@, s[i].1@) by {
            if i < s.len() - 1 {
                assert(s.drop_last()[i] == s[i]);
            }
        }
    }
}

/// The number texts that the lexer reads whole.
pub open spec fn is_number_text(n: Seq<char>) -> bool {
    number_end(n, 0) == Some(n.len() as int)
}

/// Every number in the value holds a number text.
pub open spec fn numbers_valid(v: SpecValue) -> bool
    decreases v,
{
    match v {
        SpecValue::Number(n) => is_number_text(n),
        SpecValue::Array(items) => numbers_valid_items(items),
        SpecValue::Object(members) => numbers_valid_members(members),
        _ => true,
    }
}

pub open spec fn numbers_valid_items(items: Seq<SpecValue>) -> bool
    decreases items,
{
    items.len() > 0 ==> numbers_valid(items[0]) && numbers_valid_items(items.drop_first())
}

pub open spec fn numbers_valid_members(members: Seq<(Seq<char>, SpecValue)>) -> bool
    decreases members,
{
    members.len() > 0 ==> numbers_valid(members[0].1) && numbers_valid_members(
        members.drop_first(),
    )
}

/// How many arrays and objects are nested in the value, itself included.
pub open spec fn nesting(v: SpecValue) -> nat
    decreases v,
{
    match v {
        SpecValue::Array(items) => 1 + nesting_items(items),
        SpecValue::Object(members) => 1 + nesting_members(members),
        _ => 0,
    }
}

pub open spec fn nesting_items(items: Seq<SpecValue>) -> nat
    decreases items,
{
    if items.len() == 0 {
        0
    } else {
        let a = nesting(items[0]);
        let b = nesting_items(items.drop_first());
        if a >= b {
            a
        } else {
            b
        }
    }
}

pub open spec fn nesting_members(members: Seq<(Seq<char>, SpecValue)>) -> nat
    decreases members,
{
    if members.len() == 0 {
        0
    } else {
        let a = nesting(members[0].1);
        let b = nesting_members(members.drop_first());
        if a >= b {
            a
        } else {
            b
        }
    }
}

/// What holds of every value read from JSON text: the root is an array or an
/// object, every number holds a number text, and arrays and objects nest at
/// most `MAX_DEPTH` deep.
pub open spec fn well_formed(v: SpecValue) -> bool {
    &&& (v is Array || v is Object)
    &&& numbers_valid(v)
    &&& nesting(v) <= MAX_DEPTH
}

/// The tokens of a value.
pub open spec fn value_tokens(v: SpecValue) -> Seq<SpecToken>
    decreases v,
{
    match v {
        SpecValue::Null => seq![SpecToken::Null],
        SpecValue::Boolean(b) => seq![SpecToken::Boolean(b)],
        SpecValue::Number(n) => seq![SpecToken::Num(n)],
        SpecValue::Str(s) => seq![SpecToken::Str(s)],
        SpecValue::Array(items) => seq![SpecToken::OpenBracket] + items_tokens(items) + seq![
            SpecToken::CloseBracket,
        ],
        SpecValue::Object(members) => seq![SpecToken::OpenBrace] + members_tokens(members) + seq![
            SpecToken::CloseBrace,
        ],
    }
}

pub open spec fn items_tokens(items: Seq<SpecValue>) -> Seq<SpecToken>
    decreases items,
{
    if items.len() == 0 {
        Seq::empty()
    } else if items.len() == 1 {
        value_tokens(items[0])
    } else {
        value_tokens(items[0]) + seq![SpecToken::Comma] + items_tokens(items.drop_first())
    }
}

pub open spec fn member_tokens(m: (Seq<char>, SpecValue)) -> Seq<SpecToken>
    decreases m,
{
    seq![SpecToken::Str(m.0), SpecToken::Colon] + value_tokens(m.1)
}

pub open spec fn members_tokens(members: Seq<(Seq<char>, SpecValue)>) -> Seq<SpecToken>
    decreases members,
{
    if members.len() == 0 {
        Seq::empty()
    } else if members.len() == 1 {
        member_tokens(members[0])
    } else {
        member_tokens(members[0]) + seq![SpecToken::Comma] + members_tokens(members.drop_first())
    }
}

/// The hexadecimal digit, in lower case, of a number below 16.
pub open spec fn hex_char(d: u32) -> char {
    if d < 10 {
        ('0' as u32 + d) as char
    } else {
        ('a' as u32 + d - 10) as char
    }
}

/// How a character is written inside a string: a quote and a backslash get a
/// backslash, a control character is written as `\u00XX`.
pub open spec fn escape_char(c: char) -> Seq<char> {
    if c == '"' {
        seq!['\\', '"']
    } else if c == '\\' {
        seq!['\\', '\\']
    } else if (c as u32) < 0x20 {
        seq!['\\', 'u', '0', '0', hex_char((c as u32) / 16), hex_char((c as u32) % 16)]
    } else {
        seq![c]
    }
}

/// The body of a string literal for the text `s`.
pub open spec fn escape(s: Seq<char>) -> Seq<char>
    decreases s.len(),
{
    if s.len() == 0 {
        Seq::empty()
    } else {
        escape(s.drop_last()) + escape_char(s.last())
    }
}

/// The string literal for the text `s`.
pub open spec fn quoted(s: Seq<char>) -> Seq<char> {
    seq!['"'] + escape(s) + seq!['"']
}

pub open spec fn separator() -> Seq<char> {
    seq![',', ' ']
}

/// The text of a value: members and elements are separated by a comma and a
/// space, a key is followed by a colon.
pub open spec fn serialize(v: SpecValue) -> Seq<char>
    decreases v,
{
    match v {
        SpecValue::Null => null_word(),
        SpecValue::Boolean(b) => if b {
            true_word()
        } else {
            false_word()
        },
        SpecValue::Number(n) => n,
        SpecValue::Str(s) => quoted(s),
        SpecValue::Array(items) => seq!['['] + serialize_items(items) + seq![']'],
        SpecValue::Object(members) => seq!['{'] + serialize_members(members) + seq!['}'],
    }
}

/// The elements of an array, separated.
pub open spec fn serialize_items(items: Seq<SpecValue>) -> Seq<char>
    decreases items,
{
    if items.len() == 0 {
        Seq::empty()
    } else if items.len() == 1 {
        serialize(items[0])
    } else {
        serialize(items[0]) + separator() + serialize_items(items.drop_first())
    }
}

/// The text of one member of an object.
pub open spec fn serialize_member(m: (Seq<char>, SpecValue)) -> Seq<char>
    decreases m,
{
    quoted(m.0) + seq![':'] + serialize(m.1)
}

/// The members of an object, separated.
pub open spec fn serialize_members(members: Seq<(Seq<char>, SpecValue)>) -> Seq<char>
    decreases members,
{
    if members.len() == 0 {
        Seq::empty()
    } else if members.len() == 1 {
        serialize_member(members[0])
    } else {
        serialize_member(members[0]) + separator() + serialize_members(members.drop_first())
    }
}

pub proof fn lemma_serialize_items_push(xs: Seq<SpecValue>, x: SpecValue)
    ensures
        serialize_items(xs.push(x)) == if xs.len() == 0 {
            serialize(x)
        } else {
            serialize_items(xs) + separator() + serialize(x)
        },
    decreases xs.len(),
{
    let ys = xs.push(x);
    if xs.len() == 0 {
        assert(ys[0] == x);
    } else if xs.len() == 1 {
        assert(ys.drop_first() =~= seq![x]);
        assert(ys[0] == xs[0]);
        assert(serialize_items(seq![x]) == serialize(x));
    } else {
        assert(ys.drop_first() =~= xs.drop_first().push(x));
        lemma_serialize_items_push(xs.drop_first(), x);
        assert(ys[0] == xs[0]);
        let a = serialize(xs[0]) + separator();
        let b = serialize_items(xs.drop_first());
        let c = separator() + serialize(x);
        assert(a + (b + c) =~= (a + b) + c);
        assert(serialize_items(xs.push(x)) == a + (b + c));
        assert(serialize_items(xs) == a + b);
        assert(serialize_items(xs) + separator() + serialize(x) =~= (a + b) + c);
    }
}

pub proof fn lemma_serialize_members_push(
    xs: Seq<(Seq<char>, SpecValue)>,
    x: (Seq<char>, SpecValue),
)
    ensures
        serialize_members(xs.push(x)) == if xs.len() == 0 {
            serialize_member(x)
        } else {
            serialize_members(xs) + separator() + serialize_member(x)
        },
    decreases xs.len(),
{
    let ys = xs.push(x);
    if xs.len() == 0 {
        assert(ys[0] == x);
    } else if xs.len() == 1 {
        assert(ys.drop_first() =~= seq![x]);
        assert(ys[0] == xs[0]);
        assert(serialize_members(seq![x]) == serialize_member(x));
    } else {
        assert(ys.drop_first() =~= xs.drop_first().push(x));
        lemma_serialize_members_push(xs.drop_first(), x);
        assert(ys[0] == xs[0]);
        let a = serialize_member(xs[0]) + separator();
        let b = serialize_members(xs.drop_first());
        let c = separator() + serialize_member(x);
        assert(a + (b + c) =~= (a + b) + c);
        assert(serialize_members(xs.push(x)) == a + (b + c));
        assert(serialize_members(xs) == a + b);
        assert(serialize_members(xs) + separator() + serialize_member(x) =~= (a + b) + c);
    }
}

fn hex_char_of(d: u32) -> (r: char)
    requires
        d < 16,
    ensures
        r == hex_char(d),
{
    let code = if d < 10 {
        '0' as u32 + d
    } else {
        'a' as u32 + d - 10
    };
    core::char::from_u32(code).unwrap()
}

fn write_escaped_char(c: char, out: &mut String)
    ensures
        final(out)@ == old(out)@ + escape_char(c),
{
    let ghost base = out@;
    if c == '"' {
        out.push('\\');
        out.push('"');
    } else if c == '\\' {
        out.push('\\');
        out.push('\\');
    } else if (c as u32) < 0x20 {
        out.push('\\');
        out.push('u');
        out.push('0');
        out.push('0');
        out.push(hex_char_of(c as u32 / 16));
        out.push(hex_char_of(c as u32 % 16));
    } else {
        out.push(c);
    }
    assert(out@ =~= base + escape_char(c));
}

#[verifier::loop_isolation(false)]
fn write_quoted(s: &String, out: &mut String)
    ensures
        final(out)@ == old(out)@ + quoted(s@),
{
    broadcast use vstd::string::group_string_axioms;

    let ghost base = out@;
    let ghost mut done: Seq<char> = Seq::empty();
    out.push('"');
    for c in it: s.as_str().chars()
        invariant
            it.seq() == s@,
            done == it.seq().subrange(0, it.index() as int),
            out@ == base + seq!['"'] + escape(done),
    {
        write_escaped_char(c, out);
        proof {
            let next = done.push(c);
            assert(next.drop_last() =~= done);
            assert(next =~= it.seq().subrange(0, it.index() + 1));
            done = next;
        }
    }
    out.push('"');
    assert(done =~= s@);
    assert(out@ =~= base + quoted(s@));
}

impl JsonValue {
    /// The text of the value.
    pub fn to_string(&self) -> (r: String)
        ensures
            r@ == serialize(self@),
    {
        let mut out = String::new();
        self.write_to(&mut out);
        assert(out@ =~= serialize(self@));
        out
    }

    /// Appends the text of the value to `out`.
    #[verifier::loop_isolation(false)]
    #[verifier::rlimit(40)]
    pub fn write_to(&self, out: &mut String)
        ensures
            final(out)@ == old(out)@ + serialize(self@),
        decreases self,
    {
        let ghost base = out@;
        match self {
            JsonValue::Null => {
                out.push('n');
                out.push('u');
                out.push('l');
                out.push('l');
                assert(out@ =~= base + serialize(self@));
            },
            JsonValue::Boolean(b) => {
                if *b {
                    out.push('t');
                    out.push('r');
                    out.push('u');
                    out.push('e');
                } else {
                    out.push('f');
                    out.push('a');
                    out.push('l');
                    out.push('s');
                    out.push('e');
                }
                assert(out@ =~= base + serialize(self@));
            },
            JsonValue::Number(n) => {
                out.append(n.as_str());
            },
            JsonValue::String(s) => {
                write_quoted(s, out);
            },
            JsonValue::Array(a) => {
                proof {
                    lemma_values_view(a@);
                }
                let ghost items = values_view(a@);
                out.push('[');
                let mut i: usize = 0;
                while i < a.len()
                    invariant
                        i <= a.len(),
                        items == values_view(a@),
                        items.len() == a.len(),
                        forall|j: int| 0 <= j < a.len() ==> #[trigger] items[j] == a@[j]@,
                        out@ == base + seq!['['] + serialize_items(items.take(i as int)),
                    decreases a.len() - i,
                {
                    if i > 0 {
                        out.push(',');
                        out.push(' ');
                    }
                    proof {
                        vstd::std_specs::vec::axiom_vec_index_decreases(*a, i as int);
                    }
                    a[i].write_to(out);
                    proof {
                        assert(items.take(i + 1) =~= items.take(i as int).push(items[i as int]));
                        lemma_serialize_items_push(items.take(i as int), items[i as int]);
                    }
                    i = i + 1;
                }
                out.push(']');
                assert(items.take(i as int) =~= items);
                assert(out@ =~= base + serialize(self@));
            },
            JsonValue::Object(o) => {
                proof {
                    lemma_members_view(o@);
                }
                let ghost members = members_view(o@);
                out.push('{');
                let mut i: usize = 0;
                while i < o.len()
                    invariant
                        i <= o.len(),
                        members == members_view(o@),
                        members.len() == o.len(),
                        forall|j: int|
                            0 <= j < o.len() ==> #[trigger] members[j] == (o@[j].0@, o@[j].1@),
                        out@ == base + seq!['{'] + serialize_members(members.take(i as int)),
                    decreases o.len() - i,
                {
                    if i > 0 {
                        out.push(',');
                        out.push(' ');
                    }
                    let member = &o[i];
                    write_quoted(&member.0, out);
                    out.push(':');
                    proof {
                        vstd::std_specs::vec::axiom_vec_index_decreases(*o, i as int);
                    }
                    member.1.write_to(out);
                    proof {
                        assert(members.take(i + 1) =~= members.take(i as int).push(members[i as int]));
                        lemma_serialize_members_push(members.take(i as int), members[i as int]);
                    }
                    i = i + 1;
                }
                out.push('}');
                assert(members.take(i as int) =~= members);
                assert(out@ =~= base + serialize(self@));
            },
        }
    }
}

impl PartialEq for JsonValue {
    #[verifier::loop_isolation(false)]
    fn eq(&self, other: &JsonValue) -> (r: bool)
        decreases self,
    {
        match self {
            JsonValue::Null => match other {
                JsonValue::Null => true,
                _ => false,
            },
            JsonValue::Boolean(a) => match other {
                JsonValue::Boolean(b) => *a == *b,
                _ => false,
            },
            JsonValue::Number(a) => match other {
                JsonValue::Number(b) => a.eq(b),
                _ => false,
            },
            JsonValue::String(a) => match other {
                JsonValue::String(b) => a.eq(b),
                _ => false,
            },
            JsonValue::Array(a) => match other {
                JsonValue::Array(b) => {
                    proof {
                        lemma_values_view(a@);
                        lemma_values_view(b@);
                    }
                    if a.len() != b.len() {
                        return false;
                    }
                    let mut i: usize = 0;
                    while i < a.len()
                        invariant
                            i <= a.len() == b.len(),
                            forall|j: int| 0 <= j < i ==> a@[j]@ == b@[j]@,
                        decreases a.len() - i,
                    {
                        proof {
                            vstd::std_specs::vec::axiom_vec_index_decreases(*a, i as int);
                        }
                        if !a[i].eq(&b[i]) {
                            assert(values_view(a@)[i as int] != values_view(b@)[i as int]);
                            return false;
                        }
                        i = i + 1;
                    }
                    assert(values_view(a@) =~= values_view(b@));
                    true
                },
                _ => false,
            },
            JsonValue::Object(a) => match other {
                JsonValue::Object(b) => {
                    proof {
                        lemma_members_view(a@);
                        lemma_members_view(b@);
                    }
                    if a.len() != b.len() {
                        return false;
                    }
                    let mut i: usize = 0;
                    while i < a.len()
                        invariant
                            i <= a.len() == b.len(),
                            forall|j: int|
                                0 <= j < i ==> a@[j].0@ == b@[j].0@ && a@[j].1@ == b@[j].1@,
                        decreases a.len() - i,
                    {
                        proof {
                            vstd::std_specs::vec::axiom_vec_index_decreases(*a, i as int);
                        }
                        if !a[i].0.eq(&b[i].0) || !a[i].1.eq(&b[i].1) {
                            assert(members_view(a@)[i as int] != members_view(b@)[i as int]);
                            return false;
                        }
                        i = i + 1;
                    }
                    assert(members_view(a@) =~= members_view(b@));
                    true
                },
                _ => false,
            },
        }
    }
}

/// `n` spaces.
pub open spec fn spaces(n: nat) -> Seq<char> {
    Seq::new(n, |i: int| ' ')
}

/// The indented text of a value: each element or member of a nonempty array
/// or object stands on a line of its own, after `prefix` and one more `unit`;
/// the closing bracket or brace stands on a line after `prefix`.
pub open spec fn pretty(v: SpecValue, unit: Seq<char>, prefix: Seq<char>) -> Seq<char>
    decreases v,
{
    match v {
        SpecValue::Array(items) => if items.len() == 0 {
            seq!['[', ']']
        } else {
            seq!['[', '\n'] + pretty_items(items, unit, prefix + unit) + seq!['\n'] + prefix
                + seq![']']
        },
        SpecValue::Object(members) => if members.len() == 0 {
            seq!['{', '}']
        } else {
            seq!['{', '\n'] + pretty_members(members, unit, prefix + unit) + seq!['\n'] + prefix
                + seq!['}']
        },
        _ => serialize(v),
    }
}

/// The indented elements of an array, one per line.
pub open spec fn pretty_items(items: Seq<SpecValue>, unit: Seq<char>, inner: Seq<char>) -> Seq<
    char,
>
    decreases items,
{
    if items.len() == 0 {
        Seq::empty()
    } else if items.len() == 1 {
        inner + pretty(items[0], unit, inner)
    } else {
        pretty_items(items.drop_last(), unit, inner) + seq![',', '\n'] + inner + pretty(
            items.last(),
            unit,
            inner,
        )
    }
}

/// The indented text of one member of an object.
pub open spec fn pretty_member(m: (Seq<char>, SpecValue), unit: Seq<char>, inner: Seq<char>) -> Seq<
    char,
>
    decreases m,
{
    inner + quoted(m.0) + seq![':', ' '] + pretty(m.1, unit, inner)
}

/// The indented members of an object, one per line.
pub open spec fn pretty_members(
    members: Seq<(Seq<char>, SpecValue)>,
    unit: Seq<char>,
    inner: Seq<char>,
) -> Seq<char>
    decreases members,
{
    if members.len() == 0 {
        Seq::empty()
    } else if members.len() == 1 {
        pretty_member(members[0], unit, inner)
    } else {
        pretty_members(members.drop_last(), unit, inner) + seq![',', '\n'] + pretty_member(
            members.last(),
            unit,
            inner,
        )
    }
}

impl JsonValue {
    /// The indented text of the value, `indent` spaces per level.
    pub fn to_pretty_string(&self, indent: usize) -> (r: String)
        ensures
            r@ == pretty(self@, spaces(indent as nat), Seq::empty()),
    {
        let mut unit = String::new();
        let mut k: usize = 0;
        while k < indent
            invariant
                k <= indent,
                unit@ == spaces(k as nat),
            decreases indent - k,
        {
            unit.push(' ');
            k = k + 1;
            assert(unit@ =~= spaces(k as nat));
        }
        let prefix = String::new();
        let mut out = String::new();
        self.write_pretty(&mut out, &unit, &prefix);
        assert(out@ =~= pretty(self@, unit@, prefix@));
        out
    }

    /// Appends the indented text of the value to `out`; `prefix` is the
    /// indentation of the line the value starts on, `unit` one more level.
    #[verifier::loop_isolation(false)]
    #[verifier::rlimit(40)]
    pub fn write_pretty(&self, out: &mut String, unit: &String, prefix: &String)
        ensures
            final(out)@ == old(out)@ + pretty(self@, unit@, prefix@),
        decreases self,
    {
        let ghost base = out@;
        match self {
            JsonValue::Array(a) => {
                if a.len() == 0 {
                    out.push('[');
                    out.push(']');
                    proof {
                        lemma_values_view(a@);
                    }
                    assert(out@ =~= base + pretty(self@, unit@, prefix@));
                    return;
                }
                proof {
                    lemma_values_view(a@);
                }
                let ghost items = values_view(a@);
                let mut inner = prefix.clone();
                inner.append(unit.as_str());
                out.push('[');
                out.push('\n');
                let mut i: usize = 0;
                while i < a.len()
                    invariant
                        i <= a.len(),
                        inner@ == prefix@ + unit@,
                        items == values_view(a@),
                        items.len() == a.len(),
                        forall|j: int| 0 <= j < a.len() ==> #[trigger] items[j] == a@[j]@,
                        out@ == base + seq!['[', '\n'] + pretty_items(items.take(i as int), unit@, inner@),
                    decreases a.len() - i,
                {
                    if i > 0 {
                        out.push(',');
                        out.push('\n');
                    }
                    out.append(inner.as_str());
                    proof {
                        vstd::std_specs::vec::axiom_vec_index_decreases(*a, i as int);
                    }
                    a[i].write_pretty(out, unit, &inner);
                    proof {
                        let t = items.take(i + 1);
                        assert(t.drop_last() =~= items.take(i as int));
                        assert(t.last() == items[i as int]);
                        if i == 0 {
                            assert(t =~= seq![items[0]]);
                        }
                    }
                    i = i + 1;
                    assert(out@ =~= base + seq!['[', '\n'] + pretty_items(items.take(i as int), unit@, inner@));
                }
                out.push('\n');
                out.append(prefix.as_str());
                out.push(']');
                assert(items.take(i as int) =~= items);
                assert(out@ =~= base + pretty(self@, unit@, prefix@));
            },
            JsonValue::Object(o) => {
                if o.len() == 0 {
                    out.push('{');
                    out.push('}');
                    proof {
                        lemma_members_view(o@);
                    }
                    assert(out@ =~= base + pretty(self@, unit@, prefix@));
                    return;
                }
                proof {
                    lemma_members_view(o@);
                }
                let ghost members = members_view(o@);
                let mut inner = prefix.clone();
                inner.append(unit.as_str());
                out.push('{');
                out.push('\n');
                let mut i: usize = 0;
                while i < o.len()
                    invariant
                        i <= o.len(),
                        inner@ == prefix@ + unit@,
                        members == members_view(o@),
                        members.len() == o.len(),
                        forall|j: int|
                            0 <= j < o.len() ==> #[trigger] members[j] == (o@[j].0@, o@[j].1@),
                        out@ == base + seq!['{', '\n'] + pretty_members(members.take(i as int), unit@, inner@),
                    decreases o.len() - i,
                {
                    if i > 0 {
                        out.push(',');
                        out.push('\n');
                    }
                    let member = &o[i];
                    out.append(inner.as_str());
                    write_quoted(&member.0, out);
                    out.push(':');
                    out.push(' ');
                    proof {
                        vstd::std_specs::vec::axiom_vec_index_decreases(*o, i as int);
                    }
                    member.1.write_pretty(out, unit, &inner);
                    proof {
                        let m = members[i as int];
                        assert(m == (member.0@, member.1@));
                        assert(pretty_member(m, unit@, inner@) == inner@ + quoted(m.0) + seq![':', ' ']
                            + pretty(m.1, unit@, inner@));
                        let t = members.take(i + 1);
                        assert(t.drop_last() =~= members.take(i as int));
                        assert(t.last() == members[i as int]);
                        if i == 0 {
                            assert(t =~= seq![members[0]]);
                        }
                    }
                    i = i + 1;
                    assert(out@ =~= base + seq!['{', '\n'] + pretty_members(members.take(i as int), unit@, inner@));
                }
                out.push('\n');
                out.append(prefix.as_str());
                out.push('}');
                assert(members.take(i as int) =~= members);
                assert(out@ =~= base + pretty(self@, unit@, prefix@));
            },
            _ => {
                self.write_to(out);
            },
        }
    }
}

impl Clone for JsonValue {
    #[verifier::loop_isolation(false)]
    fn clone(&self) -> (r: JsonValue)
        ensures
            r@ == self@,
        decreases self,
    {
        match self {
            JsonValue::Null => JsonValue::Null,
            JsonValue::Boolean(b) => JsonValue::Boolean(*b),
            JsonValue::Number(n) => JsonValue::Number(n.clone()),
            JsonValue::String(s) => JsonValue::String(s.clone()),
            JsonValue::Array(a) => {
                proof {
                    lemma_values_view(a@);
                }
                let mut items: Vec<JsonValue> = Vec::new();
                let mut i: usize = 0;
                while i < a.len()
                    invariant
                        i <= a.len(),
                        items.len() == i,
                        forall|j: int| 0 <= j < i ==> #[trigger] items@[j]@ == a@[j]@,
                    decreases a.len() - i,
                {
                    proof {
                        vstd::std_specs::vec::axiom_vec_index_decreases(*a, i as int);
                    }
                    items.push(a[i].clone());
                    i = i + 1;
                }
                proof {
                    lemma_values_view(items@);
                    assert(values_view(items@) =~= values_view(a@));
                }
                JsonValue::Array(items)
            },
            JsonValue::Object(o) => {
                proof {
                    lemma_members_view(o@);
                }
                let mut members: Vec<(String, JsonValue)> = Vec::new();
                let mut i: usize = 0;
                while i < o.len()
                    invariant
                        i <= o.len(),
                        members.len() == i,
                        forall|j: int|
                            0 <= j < i ==> #[trigger] members@[j].0@ == o@[j].0@ && members@[j].1@
                                == o@[j].1@,
                    decreases o.len() - i,
                {
                    proof {
                        vstd::std_specs::vec::axiom_vec_index_decreases(*o, i as int);
                    }
                    let member = &o[i];
                    members.push((member.0.clone(), member.1.clone()));
                    i = i + 1;
                }
                proof {
                    lemma_members_view(members@);
                    assert(members_view(members@) =~= members_view(o@));
                }
                JsonValue::Object(members)
            },
        }
    }
}

impl vstd::std_specs::cmp::PartialEqSpecImpl for JsonValue {
    open spec fn obeys_eq_spec() -> bool {
        true
    }

    open spec fn eq_spec(&self, other: &JsonValue) -> bool {
        self@ == other@
    }
}

} // verus!

use vstd::prelude::*;
use vstd::string::*;

use super::span::{Span, parsed_as};
use super::token::{Token, TokenView};
use super::value::{Value, ValueView, value_spec, lemma_value_bounds};

verus! {

/// The right-hand side of an assignment: one value, or a list of them in
/// parentheses.
#[derive(Debug, PartialEq)]
pub enum AssignmentValue {
    Literal(Value),
    Array(Vec<Value>),
}

/// The model of an [`AssignmentValue`].
pub enum AssignmentValueView {
    Literal(ValueView),
    Array(Seq<ValueView>),
}

impl View for AssignmentValue {
    type V = AssignmentValueView;

    open spec fn view(&self) -> AssignmentValueView {
        match self {
            AssignmentValue::Literal(v) => AssignmentValueView::Literal(v@),
            AssignmentValue::Array(vs) => AssignmentValueView::Array(
                vs@.map_values(|v: Value| v@),
            ),
        }
    }
}

/// The values after the first one of a list, each written after a space.
pub open spec fn items_tail_text(vs: Seq<ValueView>) -> Seq<char>
    decreases vs.len(),
{
    if vs.len() == 0 {
        seq![]
    } else {
        seq![' '] + vs[0].text() + items_tail_text(vs.drop_first())
    }
}

/// The values of a list, separated by single spaces.
pub open spec fn items_text(vs: Seq<ValueView>) -> Seq<char> {
    if vs.len() == 0 {
        seq![]
    } else {
        vs[0].text() + items_tail_text(vs.drop_first())
    }
}

impl AssignmentValueView {
    /// The right-hand side as written in a file.
    pub open spec fn text(self) -> Seq<char> {
        match self {
            AssignmentValueView::Literal(v) => v.text(),
            AssignmentValueView::Array(vs) => seq!['('] + items_text(vs) + seq![')'],
        }
    }
}

/// Space, tab, carriage return or line feed.
pub open spec fn is_multispace(c: char) -> bool {
    c == ' ' || c == '\t' || c == '\r' || c == '\n'
}

/// The end of the run of white space (line breaks included) from `i`.
pub open spec fn multispace_end(s: Seq<char>, i: int) -> int
    decreases s.len() - i,
{
    if 0 <= i < s.len() && is_multispace(s[i]) {
        multispace_end(s, i + 1)
    } else {
        i
    }
}

/// The first index from `i` on that holds `=` or a line break, or the end.
pub open spec fn key_end(s: Seq<char>, i: int) -> int
    decreases s.len() - i,
{
    if 0 <= i < s.len() && s[i] != '=' && s[i] != '\n' {
        key_end(s, i + 1)
    } else {
        i
    }
}

/// After the first value of a list: each further value that follows a
/// single space. Where the list stops, and the values read.
pub open spec fn array_tail_spec(s: Seq<char>, i: int) -> (int, Seq<ValueView>)
    decreases s.len() - i,
{
    if 0 <= i < s.len() && s[i] == ' ' {
        match value_spec(s, i + 1) {
            Some((j, v)) => {
                proof {
                    lemma_value_bounds(s, i + 1);
                }
                let (k, vs) = array_tail_spec(s, j);
                (k, seq![v] + vs)
            },
            None => (i, seq![]),
        }
    } else {
        (i, seq![])
    }
}

/// The values of a list from `i`: none where no value stands there.
pub open spec fn array_items_spec(s: Seq<char>, i: int) -> (int, Seq<ValueView>) {
    match value_spec(s, i) {
        Some((j, v)) => {
            let (k, vs) = array_tail_spec(s, j);
            (k, seq![v] + vs)
        },
        None => (i, seq![]),
    }
}

/// An array at `i`: `(`, values separated by single spaces, `)` and a line
/// break.
pub open spec fn array_spec(s: Seq<char>, i: int) -> Option<(int, AssignmentValueView)> {
    if 0 <= i < s.len() && s[i] == '(' {
        let (k, vs) = array_items_spec(s, i + 1);
        if k + 1 < s.len() && s[k] == ')' && s[k + 1] == '\n' {
            Some((k + 2, AssignmentValueView::Array(vs)))
        } else {
            None
        }
    } else {
        None
    }
}

/// A single value at `i`, and the white space after it.
pub open spec fn literal_spec(s: Seq<char>, i: int) -> Option<(int, AssignmentValueView)> {
    match value_spec(s, i) {
        Some((j, v)) => Some((multispace_end(s, j), AssignmentValueView::Literal(v))),
        None => None,
    }
}

/// An assignment at `i`: white space, a key of one character at least that
/// holds neither `=` nor a line break, `=`, then an array or else a single
/// value.
pub open spec fn assignment_spec(s: Seq<char>, i: int) -> Option<(int, TokenView)> {
    let a = multispace_end(s, i);
    let k = key_end(s, a);
    if 0 <= i && a < k && k < s.len() && s[k] == '=' {
        match array_spec(s, k + 1) {
            Some((e, v)) => Some((e, TokenView::Assignment(s.subrange(a, k), v))),
            None => match literal_spec(s, k + 1) {
                Some((e, v)) => Some((e, TokenView::Assignment(s.subrange(a, k), v))),
                None => None,
            },
        }
    } else {
        None
    }
}

pub proof fn lemma_multispace_end(s: Seq<char>, i: int)
    requires
        0 <= i <= s.len(),
    ensures
        i <= multispace_end(s, i) <= s.len(),
        forall|j: int| i <= j < multispace_end(s, i) ==> is_multispace(s[j]),
        multispace_end(s, i) < s.len() ==> !is_multispace(s[multispace_end(s, i)]),
    decreases s.len() - i,
{
    if i < s.len() && is_multispace(s[i]) {
        lemma_multispace_end(s, i + 1);
    }
}

pub proof fn lemma_key_end(s: Seq<char>, i: int)
    requires
        0 <= i <= s.len(),
    ensures
        i <= key_end(s, i) <= s.len(),
        forall|j: int| i <= j < key_end(s, i) ==> s[j] != '=' && s[j] != '\n',
        key_end(s, i) < s.len() ==> s[key_end(s, i)] == '=' || s[key_end(s, i)] == '\n',
    decreases s.len() - i,
{
    if i < s.len() && s[i] != '=' && s[i] != '\n' {
        lemma_key_end(s, i + 1);
    }
}

pub proof fn lemma_array_tail_bounds(s: Seq<char>, i: int)
    requires
        0 <= i <= s.len(),
    ensures
        i <= array_tail_spec(s, i).0 <= s.len(),
    decreases s.len() - i,
{
    if i < s.len() && s[i] == ' ' {
        lemma_value_bounds(s, i + 1);
        if let Some((j, v)) = value_spec(s, i + 1) {
            lemma_array_tail_bounds(s, j);
        }
    }
}

proof fn lemma_items_tail_push(vs: Seq<ValueView>, v: ValueView)
    ensures
        items_tail_text(vs.push(v)) == items_tail_text(vs) + seq![' '] + v.text(),
    decreases vs.len(),
{
    if vs.len() == 0 {
        assert(vs.push(v).drop_first() =~= seq![]);
        assert(vs.push(v)[0] == v);
        assert(items_tail_text(vs.push(v)) == seq![' '] + v.text() + items_tail_text(seq![]));
        assert(items_tail_text(vs.push(v)) =~= items_tail_text(vs) + seq![' '] + v.text());
    } else {
        assert(vs.push(v).drop_first() =~= vs.drop_first().push(v));
        assert(vs.push(v)[0] == vs[0]);
        lemma_items_tail_push(vs.drop_first(), v);
        assert(items_tail_text(vs.push(v)) == seq![' '] + vs[0].text() + items_tail_text(
            vs.drop_first().push(v),
        ));
        assert(items_tail_text(vs.push(v)) =~= items_tail_text(vs) + seq![' '] + v.text());
    }
}

/// Adding a value at the end of a list adds its text, after a space where
/// the list was not empty.
proof fn lemma_items_push(vs: Seq<ValueView>, v: ValueView)
    ensures
        items_text(vs.push(v)) == items_text(vs) + (if vs.len() == 0 {
            seq![]
        } else {
            seq![' ']
        }) + v.text(),
{
    if vs.len() == 0 {
        assert(vs.push(v).drop_first() =~= seq![]);
        assert(items_text(vs.push(v)) =~= v.text());
        assert(items_text(vs) + seq![] + v.text() =~= v.text());
    } else {
        assert(vs.push(v).drop_first() =~= vs.drop_first().push(v));
        lemma_items_tail_push(vs.drop_first(), v);
        assert(items_text(vs.push(v)) =~= items_text(vs) + seq![' '] + v.text());
    }
}

impl AssignmentValue {
    /// The right-hand side as written in a file.
    pub fn to_string(&self) -> (r: String)
        ensures
            r@ == self@.text(),
    {
        match self {
            AssignmentValue::Literal(v) => v.to_string(),
            AssignmentValue::Array(vs) => {
                let ghost views = vs@.map_values(|x: Value| x@);
                let mut out = String::new();
                proof {
                    reveal_strlit("(");
                    reveal_strlit(" ");
                    reveal_strlit(")");
                }
                out.append("(");
                let mut i: usize = 0;
                proof {
                    assert(views.take(0) =~= seq![]);
                    assert(out@ =~= seq!['('] + items_text(views.take(0)));
                }
                while i < vs.len()
                    invariant
                        views == vs@.map_values(|x: Value| x@),
                        0 <= i <= vs.len(),
                        out@ == seq!['('] + items_text(views.take(i as int)),
                    decreases vs.len() - i,
                {
                    let ghost before = out@;
                    proof {
                        reveal_strlit(" ");
                    }
                    if i > 0 {
                        out.append(" ");
                    }
                    let t = vs[i].to_string();
                    out.append(t.as_str());
                    proof {
                        assert(views[i as int] == vs@[i as int]@);
                        assert(views.take(i + 1) =~= views.take(i as int).push(views[i as int]));
                        lemma_items_push(views.take(i as int), views[i as int]);
                        assert(out@ =~= seq!['('] + items_text(views.take(i + 1)));
                    }
                    i = i + 1;
                }
                out.append(")");
                proof {
                    assert(views.take(vs.len() as int) =~= views);
                    assert(out@ =~= self@.text());
                }
                out
            },
        }
    }
}

/// An assignment ends after it starts, within the text.
pub proof fn lemma_assignment_bounds(s: Seq<char>, i: int)
    requires
        0 <= i <= s.len(),
    ensures
        assignment_spec(s, i) matches Some((j, t)) ==> i < j <= s.len(),
{
    let a = multispace_end(s, i);
    lemma_multispace_end(s, i);
    lemma_key_end(s, a);
    let k = key_end(s, a);
    if a < k && k < s.len() && s[k] == '=' {
        lemma_value_bounds(s, k + 1);
        if let Some((j, v)) = value_spec(s, k + 1) {
            lemma_multispace_end(s, j);
        }
        if k + 2 <= s.len() {
            lemma_value_bounds(s, k + 2);
            if let Some((j, v)) = value_spec(s, k + 2) {
                lemma_array_tail_bounds(s, j);
            }
        }
    }
}

fn is_space(c: char) -> (r: bool)
    ensures
        r == is_multispace(c),
{
    c == ' ' || c == '\t' || c == '\r' || c == '\n'
}

/// The cursor moved past the white space (line breaks included) at it.
fn skip_multispace<'a>(input: Span<'a>) -> (r: Span<'a>)
    requires
        input.wf(),
    ensures
        r.wf(),
        r.src == input.src,
        r.offset == multispace_end(input.src@, input.offset as int),
{
    let mut k: usize = input.offset;
    while k < input.len && is_space(input.char_at(k))
        invariant
            input.wf(),
            input.offset <= k <= input.len,
            multispace_end(input.src@, input.offset as int) == multispace_end(input.src@, k as int),
        decreases input.len - k,
    {
        k = k + 1;
    }
    input.advance_to(k)
}

/// Where the key would stand at the cursor: after the white space, up to
/// the first `=` or line break.
fn key_bounds(input: Span) -> (r: (usize, usize))
    requires
        input.wf(),
    ensures
        r.0 == multispace_end(input.src@, input.offset as int),
        r.1 == key_end(input.src@, r.0 as int),
        input.offset <= r.0 <= r.1 <= input.len,
{
    let start = skip_multispace(input);
    let a = start.offset;
    proof {
        lemma_multispace_end(input.src@, input.offset as int);
    }
    let mut k: usize = a;
    while k < input.len && input.char_at(k) != '=' && input.char_at(k) != '\n'
        invariant
            input.wf(),
            a <= k <= input.len,
            key_end(input.src@, a as int) == key_end(input.src@, k as int),
        decreases input.len - k,
    {
        k = k + 1;
    }
    proof {
        lemma_key_end(input.src@, a as int);
    }
    (a, k)
}

/// A key followed by `=` stands at the cursor, after white space.
pub open spec fn key_spec(s: Seq<char>, i: int) -> bool {
    let a = multispace_end(s, i);
    let k = key_end(s, a);
    0 <= i && a < k && k < s.len() && s[k] == '='
}

/// Whether a key followed by `=` stands at the cursor, after white space.
pub fn at_key(input: Span) -> (r: bool)
    requires
        input.wf(),
    ensures
        r == key_spec(input.src@, input.offset as int),
{
    let (a, k) = key_bounds(input);
    a < k && k < input.len && input.char_at(k) == '='
}

/// Reads `key=value` or `key=(value value ...)` at the cursor, after any
/// white space.
pub fn parse_assignment<'a>(input: Span<'a>) -> (r: Option<(Span<'a>, Token)>)
    requires
        input.wf(),
    ensures
        parsed_as(input, r, assignment_spec(input.src@, input.offset as int)),
{
    let (a, k) = key_bounds(input);
    if !(a < k && k < input.len && input.char_at(k) == '=') {
        return None;
    }
    let key = input.slice(a, k);
    let after = input.advance_to(k + 1);
    match parse_array(after) {
        Some((rest, v)) => Some((rest, Token::Assignment(key, v))),
        None => match parse_literal(after) {
            Some((rest, v)) => Some((rest, Token::Assignment(key, v))),
            None => None,
        },
    }
}

fn parse_literal<'a>(input: Span<'a>) -> (r: Option<(Span<'a>, AssignmentValue)>)
    requires
        input.wf(),
    ensures
        parsed_as(input, r, literal_spec(input.src@, input.offset as int)),
{
    match Value::parse(input) {
        Some((rest, v)) => Some((skip_multispace(rest), AssignmentValue::Literal(v))),
        None => None,
    }
}

fn parse_array<'a>(input: Span<'a>) -> (r: Option<(Span<'a>, AssignmentValue)>)
    requires
        input.wf(),
    ensures
        parsed_as(input, r, array_spec(input.src@, input.offset as int)),
{
    if !(input.offset < input.len && input.char_at(input.offset) == '(') {
        return None;
    }
    let ghost s = input.src@;
    let open = input.advance_to(input.offset + 1);
    let mut values: Vec<Value> = Vec::new();
    let mut cur = open;
    match Value::parse(open) {
        Some((next, v)) => {
            let ghost j0 = next.offset as int;
            proof {
                lemma_value_bounds(s, open.offset as int);
            }
            values.push(v);
            cur = next;
            loop
                invariant
                    input.wf(),
                    s == input.src@,
                    cur.wf(),
                    cur.src == input.src,
                    open.offset == input.offset + 1,
                    open.offset <= cur.offset,
                    value_spec(s, open.offset as int) is Some,
                    ({
                        let (k0, vs0) = array_items_spec(s, open.offset as int);
                        let (k1, vs1) = array_tail_spec(s, cur.offset as int);
                        k0 == k1 && vs0 == values@.map_values(|x: Value| x@) + vs1
                    }),
                ensures
                    array_tail_spec(s, cur.offset as int).0 == cur.offset,
                    array_tail_spec(s, cur.offset as int).1.len() == 0,
                decreases input.len - cur.offset,
            {
                if !(cur.offset < cur.len && cur.char_at(cur.offset) == ' ') {
                    break;
                }
                let sep = cur.advance_to(cur.offset + 1);
                match Value::parse(sep) {
                    Some((next, v)) => {
                        proof {
                            lemma_value_bounds(s, sep.offset as int);
                        }
                        let ghost old_values = values@;
                        values.push(v);
                        proof {
                            let vs1 = array_tail_spec(s, next.offset as int).1;
                            assert(values@.map_values(|x: Value| x@) =~= old_values.map_values(
                                |x: Value| x@,
                            ).push(v@));
                            assert(old_values.map_values(|x: Value| x@) + (seq![v@] + vs1)
                                =~= values@.map_values(|x: Value| x@) + vs1);
                        }
                        cur = next;
                    },
                    None => {
                        break;
                    },
                }
            }
            proof {
                assert(array_tail_spec(s, cur.offset as int).1 =~= seq![]);
                assert(values@.map_values(|x: Value| x@) + seq![] =~= values@.map_values(
                    |x: Value| x@,
                ));
            }
        },
        None => {},
    }
    proof {
        assert(values@.map_values(|x: Value| x@) =~= array_items_spec(s, open.offset as int).1);
    }
    let k = cur.offset;
    if k + 1 < input.len && input.char_at(k) == ')' && input.char_at(k + 1) == '\n' {
        Some((input.advance_to(k + 2), AssignmentValue::Array(values)))
    } else {
        None
    }
}

} // verus!

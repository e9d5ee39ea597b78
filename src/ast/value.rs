use vstd::prelude::*;
use vstd::string::*;

use super::span::{Span, parsed_as};

verus! {

/// A scalar value as it was written: the text between the quotes is kept
/// as it stands, escapes included.
#[derive(Debug, PartialEq)]
pub enum Value {
    Doublequoted(String),
    Singlequoted(String),
    Unquoted(String),
}

/// The model of a [`Value`]: its kind and its stored text.
pub enum ValueView {
    Doublequoted(Seq<char>),
    Singlequoted(Seq<char>),
    Unquoted(Seq<char>),
}

impl View for Value {
    type V = ValueView;

    open spec fn view(&self) -> ValueView {
        match self {
            Value::Doublequoted(s) => ValueView::Doublequoted(s@),
            Value::Singlequoted(s) => ValueView::Singlequoted(s@),
            Value::Unquoted(s) => ValueView::Unquoted(s@),
        }
    }
}

impl ValueView {
    /// The value as written in a file: quotes around the stored text.
    pub open spec fn text(self) -> Seq<char> {
        match self {
            ValueView::Doublequoted(s) => seq!['"'] + s + seq!['"'],
            ValueView::Singlequoted(s) => seq!['\''] + s + seq!['\''],
            ValueView::Unquoted(s) => s,
        }
    }
}

/// A character that may stand in an unquoted value: `[A-Za-z0-9_.-]`.
pub open spec fn is_unquoted_char(c: char) -> bool {
    ('a' <= c && c <= 'z') || ('A' <= c && c <= 'Z') || ('0' <= c && c <= '9') || c == '_'
        || c == '-' || c == '.'
}

/// The end of the run of unquoted-value characters that starts at `i`.
pub open spec fn unquoted_end(s: Seq<char>, i: int) -> int
    decreases s.len() - i,
{
    if 0 <= i < s.len() && is_unquoted_char(s[i]) {
        unquoted_end(s, i + 1)
    } else {
        i
    }
}

/// Reading the inside of a string quoted with `q` from index `i`: the index
/// of the closing quote, if there is one. A backslash right before `q`
/// escapes it; any other character stands for itself.
pub open spec fn quoted_end(s: Seq<char>, i: int, q: char) -> Option<int>
    decreases s.len() - i,
{
    if i < 0 || i >= s.len() {
        None
    } else if s[i] == q {
        Some(i)
    } else if s[i] == '\\' && i + 1 < s.len() && s[i + 1] == q {
        quoted_end(s, i + 2, q)
    } else {
        quoted_end(s, i + 1, q)
    }
}

/// A string quoted with `q` at index `i`: where it ends and what stands
/// between the quotes.
pub open spec fn quoted_spec(s: Seq<char>, i: int, q: char) -> Option<(int, Seq<char>)> {
    if 0 <= i < s.len() && s[i] == q {
        match quoted_end(s, i + 1, q) {
            Some(e) => Some((e + 1, s.subrange(i + 1, e))),
            None => None,
        }
    } else {
        None
    }
}

/// A value at index `i` of `s`: double-quoted, else single-quoted, else
/// unquoted (one character at least); where it ends, and the value.
pub open spec fn value_spec(s: Seq<char>, i: int) -> Option<(int, ValueView)> {
    match quoted_spec(s, i, '"') {
        Some((e, t)) => Some((e, ValueView::Doublequoted(t))),
        None => match quoted_spec(s, i, '\'') {
            Some((e, t)) => Some((e, ValueView::Singlequoted(t))),
            None => if 0 <= i && unquoted_end(s, i) > i {
                Some((unquoted_end(s, i), ValueView::Unquoted(s.subrange(i, unquoted_end(s, i)))))
            } else {
                None
            },
        },
    }
}

pub proof fn lemma_unquoted_end(s: Seq<char>, i: int)
    requires
        0 <= i <= s.len(),
    ensures
        i <= unquoted_end(s, i) <= s.len(),
        forall|j: int| i <= j < unquoted_end(s, i) ==> is_unquoted_char(s[j]),
        unquoted_end(s, i) < s.len() ==> !is_unquoted_char(s[unquoted_end(s, i)]),
    decreases s.len() - i,
{
    if i < s.len() && is_unquoted_char(s[i]) {
        lemma_unquoted_end(s, i + 1);
    }
}

pub proof fn lemma_quoted_end(s: Seq<char>, i: int, q: char)
    requires
        0 <= i,
    ensures
        quoted_end(s, i, q) matches Some(e) ==> i <= e < s.len() && s[e] == q,
    decreases s.len() - i,
{
    if 0 <= i < s.len() && s[i] != q {
        if s[i] == '\\' && i + 1 < s.len() && s[i + 1] == q {
            lemma_quoted_end(s, i + 2, q);
        } else {
            lemma_quoted_end(s, i + 1, q);
        }
    }
}

/// A value ends after it starts, within the text.
pub proof fn lemma_value_bounds(s: Seq<char>, i: int)
    requires
        0 <= i <= s.len(),
    ensures
        value_spec(s, i) matches Some((e, v)) ==> i < e <= s.len(),
{
    lemma_quoted_end(s, i + 1, '"');
    lemma_quoted_end(s, i + 1, '\'');
    lemma_unquoted_end(s, i);
}

/// The index of the quote `q` that closes the string whose inside starts at
/// `from`.
fn closing_quote(input: &Span, from: usize, q: char) -> (r: Option<usize>)
    requires
        input.wf(),
        from <= input.len,
    ensures
        match quoted_end(input.src@, from as int, q) {
            Some(e) => r == Some(e as usize),
            None => r is None,
        },
{
    let mut k: usize = from;
    while k < input.len
        invariant
            input.wf(),
            from <= k <= input.len,
            quoted_end(input.src@, from as int, q) == quoted_end(input.src@, k as int, q),
        decreases input.len - k,
    {
        let c = input.char_at(k);
        if c == q {
            return Some(k);
        }
        if c == '\\' && k + 1 < input.len && input.char_at(k + 1) == q {
            k = k + 2;
        } else {
            k = k + 1;
        }
    }
    None
}

/// A string quoted with `q` at the cursor: the cursor after the closing
/// quote, and the text between the quotes.
fn parse_quoted<'a>(input: Span<'a>, q: char) -> (r: Option<(Span<'a>, String)>)
    requires
        input.wf(),
    ensures
        parsed_as(input, r, quoted_spec(input.src@, input.offset as int, q)),
{
    if input.offset < input.len && input.char_at(input.offset) == q {
        match closing_quote(&input, input.offset + 1, q) {
            Some(e) => {
                proof {
                    lemma_quoted_end(input.src@, input.offset + 1, q);
                }
                let text = input.slice(input.offset + 1, e);
                Some((input.advance_to(e + 1), text))
            },
            None => None,
        }
    } else {
        None
    }
}

impl Value {
    /// Reads one value at the cursor: double-quoted, single-quoted or
    /// unquoted, tried in that order.
    pub fn parse<'a>(input: Span<'a>) -> (r: Option<(Span<'a>, Value)>)
        requires
            input.wf(),
        ensures
            parsed_as(input, r, value_spec(input.src@, input.offset as int)),
    {
        match Self::parse_doublequoted(input) {
            Some(r) => Some(r),
            None => match Self::parse_singlequoted(input) {
                Some(r) => Some(r),
                None => Self::parse_unquoted(input),
            },
        }
    }

    fn parse_singlequoted<'a>(input: Span<'a>) -> (r: Option<(Span<'a>, Value)>)
        requires
            input.wf(),
        ensures
            parsed_as(
                input,
                r,
                match quoted_spec(input.src@, input.offset as int, '\'') {
                    Some((e, t)) => Some((e, ValueView::Singlequoted(t))),
                    None => None,
                },
            ),
    {
        match parse_quoted(input, '\'') {
            Some((rest, text)) => Some((rest, Value::Singlequoted(text))),
            None => None,
        }
    }

    fn parse_doublequoted<'a>(input: Span<'a>) -> (r: Option<(Span<'a>, Value)>)
        requires
            input.wf(),
        ensures
            parsed_as(
                input,
                r,
                match quoted_spec(input.src@, input.offset as int, '"') {
                    Some((e, t)) => Some((e, ValueView::Doublequoted(t))),
                    None => None,
                },
            ),
    {
        match parse_quoted(input, '"') {
            Some((rest, text)) => Some((rest, Value::Doublequoted(text))),
            None => None,
        }
    }

    fn parse_unquoted<'a>(input: Span<'a>) -> (r: Option<(Span<'a>, Value)>)
        requires
            input.wf(),
        ensures
            parsed_as(
                input,
                r,
                if unquoted_end(input.src@, input.offset as int) > input.offset {
                    Some(
                        (
                            unquoted_end(input.src@, input.offset as int),
                            ValueView::Unquoted(
                                input.src@.subrange(
                                    input.offset as int,
                                    unquoted_end(input.src@, input.offset as int),
                                ),
                            ),
                        ),
                    )
                } else {
                    None
                },
            ),
    {
        let mut k: usize = input.offset;
        while k < input.len && is_unquoted(input.char_at(k))
            invariant
                input.wf(),
                input.offset <= k <= input.len,
                unquoted_end(input.src@, input.offset as int) == unquoted_end(input.src@, k as int),
            decreases input.len - k,
        {
            k = k + 1;
        }
        if k > input.offset {
            let text = input.slice(input.offset, k);
            Some((input.advance_to(k), Value::Unquoted(text)))
        } else {
            None
        }
    }

    /// The value as written in a file.
    pub fn to_string(&self) -> (r: String)
        ensures
            r@ == self@.text(),
    {
        let mut out = String::new();
        proof {
            reveal_strlit("\"");
            reveal_strlit("'");
        }
        match self {
            Value::Doublequoted(s) => {
                out.append("\"");
                out.append(s.as_str());
                out.append("\"");
            },
            Value::Singlequoted(s) => {
                out.append("'");
                out.append(s.as_str());
                out.append("'");
            },
            Value::Unquoted(s) => {
                out.append(s.as_str());
            },
        }
        proof {
            assert(out@ =~= self@.text());
        }
        out
    }
}

fn is_unquoted(c: char) -> (r: bool)
    ensures
        r == is_unquoted_char(c),
{
    ('a' <= c && c <= 'z') || ('A' <= c && c <= 'Z') || ('0' <= c && c <= '9') || c == '_'
        || c == '-' || c == '.'
}

} // verus!

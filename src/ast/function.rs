use vstd::prelude::*;

use super::span::{Span, find_char, holds_at, lemma_find_char, parsed_as};
use super::token::{Token, TokenView};

verus! {

/// The word that opens a function header, with the space after it.
pub open spec fn function_keyword() -> Seq<char> {
    seq!['f', 'u', 'n', 'c', 't', 'i', 'o', 'n', ' ']
}

/// The arguments of a function header whose name is followed by a space
/// at `p - 1`: the text of `(...)` at `p` if there is one with at least one
/// character inside, else nothing; and where reading goes on.
pub open spec fn function_args_spec(s: Seq<char>, p: int) -> (int, Seq<char>) {
    if 0 <= p < s.len() && s[p] == '(' {
        match find_char(s, p + 1, ')') {
            Some(c) => if c > p + 1 {
                (c + 1, s.subrange(p + 1, c))
            } else {
                (p, seq![])
            },
            None => (p, seq![]),
        }
    } else {
        (p, seq![])
    }
}

/// A function header at `i`: `function `, a name up to the next space, that
/// space, the arguments, and the rest of the line, whose line break is read
/// too. The body is not read.
pub open spec fn function_spec(s: Seq<char>, i: int) -> Option<(int, TokenView)> {
    let n0 = i + function_keyword().len();
    if holds_at(s, i, function_keyword()) {
        match find_char(s, n0, ' ') {
            Some(ne) => {
                let (q, args) = function_args_spec(s, ne + 1);
                match find_char(s, q, '\n') {
                    Some(nl) => Some((nl + 1, TokenView::Function(s.subrange(n0, ne), args))),
                    None => None,
                }
            },
            None => None,
        }
    } else {
        None
    }
}

/// A function header ends after it starts, within the text.
pub proof fn lemma_function_bounds(s: Seq<char>, i: int)
    requires
        0 <= i <= s.len(),
    ensures
        function_spec(s, i) matches Some((j, t)) ==> i < j <= s.len(),
{
    let n0 = i + function_keyword().len();
    lemma_find_char(s, n0, ' ');
    if let Some(ne) = find_char(s, n0, ' ') {
        lemma_find_char(s, ne + 2, ')');
        let q = function_args_spec(s, ne + 1).0;
        lemma_find_char(s, q, '\n');
    }
}

/// Whether `function ` stands at the cursor.
pub fn at_keyword(input: &Span) -> (r: bool)
    requires
        input.wf(),
    ensures
        r == holds_at(input.src@, input.offset as int, function_keyword()),
{
    let kw: [char; 9] = ['f', 'u', 'n', 'c', 't', 'i', 'o', 'n', ' '];
    proof {
        assert(kw@ =~= function_keyword());
    }
    if input.len - input.offset < 9 {
        return false;
    }
    let mut k: usize = 0;
    while k < 9
        invariant
            input.wf(),
            input.offset + 9 <= input.len,
            kw@ == function_keyword(),
            0 <= k <= 9,
            forall|j: int| 0 <= j < k ==> input.src@[input.offset + j] == kw@[j],
        decreases 9 - k,
    {
        if input.char_at(input.offset + k) != kw[k] {
            proof {
                let sub = input.src@.subrange(input.offset as int, input.offset + 9);
                assert(sub[k as int] != function_keyword()[k as int]);
            }
            return false;
        }
        k = k + 1;
    }
    proof {
        assert(input.src@.subrange(input.offset as int, input.offset + 9) =~= function_keyword());
    }
    true
}

/// Reads a function header `function name (args)` at the cursor, up to and
/// including the line break that ends it.
pub fn parse_function<'a>(input: Span<'a>) -> (r: Option<(Span<'a>, Token)>)
    requires
        input.wf(),
    ensures
        parsed_as(input, r, function_spec(input.src@, input.offset as int)),
{
    if !at_keyword(&input) {
        return None;
    }
    let n0 = input.offset + 9;
    let ne = match input.find(n0, ' ') {
        Some(ne) => ne,
        None => {
            return None;
        },
    };
    proof {
        lemma_find_char(input.src@, n0 as int, ' ');
    }
    let name = input.slice(n0, ne);
    let p = ne + 1;
    let mut q: usize = p;
    let mut args = String::new();
    if p < input.len && input.char_at(p) == '(' {
        match input.find(p + 1, ')') {
            Some(c) => {
                proof {
                    lemma_find_char(input.src@, p + 1, ')');
                }
                if c > p + 1 {
                    args = input.slice(p + 1, c);
                    q = c + 1;
                }
            },
            None => {},
        }
    }
    proof {
        assert(args@ =~= function_args_spec(input.src@, p as int).1);
    }
    match input.find(q, '\n') {
        Some(nl) => {
            proof {
                lemma_find_char(input.src@, q as int, '\n');
            }
            Some((input.advance_to(nl + 1), Token::Function(name, args)))
        },
        None => None,
    }
}

} // verus!

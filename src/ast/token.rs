use vstd::prelude::*;
use vstd::string::*;

use super::assignment::{
    AssignmentValue,
    AssignmentValueView,
    assignment_spec,
    lemma_assignment_bounds,
    parse_assignment,
};
use super::comment::{Comment, CommentView, comment_spec};
use super::function::{function_keyword, function_spec, lemma_function_bounds, parse_function};
use super::span::{Span, lemma_find_char, parsed_as};

verus! {

/// One top-level construct of a PKGBUILD file.
#[derive(Debug, PartialEq)]
pub enum Token {
    Comment(Comment),
    /// A key and what is assigned to it.
    Assignment(String, AssignmentValue),
    /// A function's name and the raw text between its parentheses.
    Function(String, String),
}

/// The model of a [`Token`].
pub enum TokenView {
    Comment(CommentView),
    Assignment(Seq<char>, AssignmentValueView),
    Function(Seq<char>, Seq<char>),
}

impl View for Token {
    type V = TokenView;

    open spec fn view(&self) -> TokenView {
        match self {
            Token::Comment(c) => TokenView::Comment(c@),
            Token::Assignment(k, v) => TokenView::Assignment(k@, v@),
            Token::Function(n, a) => TokenView::Function(n@, a@),
        }
    }
}

impl TokenView {
    /// The token as written in a file, without its line break.
    pub open spec fn text(self) -> Seq<char> {
        match self {
            TokenView::Comment(c) => c.text(),
            TokenView::Assignment(k, v) => k + seq!['='] + v.text(),
            TokenView::Function(n, a) => function_keyword() + n + seq![' ', '('] + a + seq![')'],
        }
    }
}

/// The token at `i`: a comment, else an assignment, else a function header.
pub open spec fn token_spec(s: Seq<char>, i: int) -> Option<(int, TokenView)> {
    match comment_spec(s, i) {
        Some(r) => Some(r),
        None => match assignment_spec(s, i) {
            Some(r) => Some(r),
            None => function_spec(s, i),
        },
    }
}

/// A token ends after it starts, within the text.
pub proof fn lemma_token_bounds(s: Seq<char>, i: int)
    requires
        0 <= i <= s.len(),
    ensures
        token_spec(s, i) matches Some((j, t)) ==> i < j <= s.len(),
{
    lemma_find_char(s, i + 1, '\n');
    lemma_assignment_bounds(s, i);
    lemma_function_bounds(s, i);
}

impl Token {
    /// Reads one token at the cursor, trying a comment, then an assignment,
    /// then a function header.
    pub fn parse<'a>(input: Span<'a>) -> (r: Option<(Span<'a>, Token)>)
        requires
            input.wf(),
        ensures
            parsed_as(input, r, token_spec(input.src@, input.offset as int)),
    {
        match Comment::parse(input) {
            Some(r) => Some(r),
            None => match parse_assignment(input) {
                Some(r) => Some(r),
                None => parse_function(input),
            },
        }
    }

    /// The token as written in a file, without its line break.
    pub fn to_string(&self) -> (r: String)
        ensures
            r@ == self@.text(),
    {
        match self {
            Token::Comment(c) => c.to_string(),
            Token::Assignment(k, v) => {
                let mut out = k.clone();
                let vt = v.to_string();
                proof {
                    reveal_strlit("=");
                }
                out.append("=");
                out.append(vt.as_str());
                proof {
                    assert(out@ =~= self@.text());
                }
                out
            },
            Token::Function(n, a) => {
                let mut out = String::new();
                proof {
                    reveal_strlit("function ");
                    reveal_strlit(" (");
                    reveal_strlit(")");
                }
                out.append("function ");
                out.append(n.as_str());
                out.append(" (");
                out.append(a.as_str());
                out.append(")");
                proof {
                    assert(out@ =~= self@.text());
                }
                out
            },
        }
    }
}

} // verus!

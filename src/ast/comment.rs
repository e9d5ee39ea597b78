use vstd::prelude::*;
use vstd::string::*;

use super::span::{Position, Span, find_char, lemma_find_char, parsed_as};
use super::token::{Token, TokenView};

verus! {

/// A comment line: the text after `#`, and where the comment starts.
#[derive(Debug, PartialEq)]
pub struct Comment {
    pub comment: String,
    pub span: Position,
}

/// The model of a [`Comment`].
pub struct CommentView {
    pub text: Seq<char>,
    pub span: Position,
}

impl View for Comment {
    type V = CommentView;

    open spec fn view(&self) -> CommentView {
        CommentView { text: self.comment@, span: self.span }
    }
}

impl CommentView {
    /// The comment as written in a file, without its line break.
    pub open spec fn text(self) -> Seq<char> {
        seq!['#'] + self.text
    }
}

/// A comment at `i`: `#`, then everything up to the next line break, which
/// is read too.
pub open spec fn comment_spec(s: Seq<char>, i: int) -> Option<(int, TokenView)> {
    if 0 <= i < s.len() && s[i] == '#' {
        match find_char(s, i + 1, '\n') {
            Some(n) => Some(
                (
                    n + 1,
                    TokenView::Comment(
                        CommentView { text: s.subrange(i + 1, n), span: Position::of(s, i) },
                    ),
                ),
            ),
            None => None,
        }
    } else {
        None
    }
}

impl Comment {
    /// Reads a comment line at the cursor.
    pub fn parse<'a>(input: Span<'a>) -> (r: Option<(Span<'a>, Token)>)
        requires
            input.wf(),
        ensures
            parsed_as(input, r, comment_spec(input.src@, input.offset as int)),
    {
        let pos = input.position();
        if !(input.offset < input.len && input.char_at(input.offset) == '#') {
            return None;
        }
        match input.find(input.offset + 1, '\n') {
            Some(n) => {
                proof {
                    lemma_find_char(input.src@, input.offset + 1, '\n');
                }
                let comment = input.slice(input.offset + 1, n);
                Some((input.advance_to(n + 1), Token::Comment(Comment { comment, span: pos })))
            },
            None => None,
        }
    }

    /// The comment as written in a file, without its line break.
    pub fn to_string(&self) -> (r: String)
        ensures
            r@ == self@.text(),
    {
        let mut out = String::new();
        proof {
            reveal_strlit("#");
        }
        out.append("#");
        out.append(self.comment.as_str());
        proof {
            assert(out@ =~= self@.text());
        }
        out
    }
}

} // verus!

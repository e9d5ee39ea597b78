use vstd::prelude::*;
use vstd::string::*;

use super::assignment::{at_key, key_spec};
use super::function::{at_keyword, function_keyword};
use super::span::{Position, Span, holds_at};
use super::token::{Token, TokenView, token_spec, lemma_token_bounds};

verus! {

/// A PKGBUILD file: its tokens, in the order in which they stand.
#[derive(Debug, PartialEq)]
pub struct PkgBuild {
    tokens: Vec<Token>,
}

impl View for PkgBuild {
    type V = Seq<TokenView>;

    closed spec fn view(&self) -> Seq<TokenView> {
        self.tokens@.map_values(|t: Token| t@)
    }
}

/// The tokens read one after another from `i` until none can be read:
/// where reading stopped, and the tokens.
pub open spec fn tokens_spec(s: Seq<char>, i: int) -> (int, Seq<TokenView>)
    decreases s.len() - i,
{
    if 0 <= i <= s.len() {
        match token_spec(s, i) {
            Some((j, t)) => {
                proof {
                    lemma_token_bounds(s, i);
                }
                let (k, ts) = tokens_spec(s, j);
                (k, seq![t] + ts)
            },
            None => (i, seq![]),
        }
    } else {
        (i, seq![])
    }
}

/// The tokens as written in a file: each one followed by a line break.
pub open spec fn doc_text(ts: Seq<TokenView>) -> Seq<char>
    decreases ts.len(),
{
    if ts.len() == 0 {
        seq![]
    } else {
        ts[0].text() + seq!['\n'] + doc_text(ts.drop_first())
    }
}

/// Why reading stopped before the end of the input.
#[derive(Clone, Copy, Debug, PartialEq, Eq, Structural)]
pub enum ErrorKind {
    /// Nothing that is read here starts at that point.
    Unrecognized,
    /// A comment, an assignment or a function header starts there, but
    /// does not go on as it must.
    Malformed,
}

/// Where reading stopped, why, and the text that was left.
#[derive(Debug, PartialEq)]
pub struct ParseError {
    pub kind: ErrorKind,
    pub position: Position,
    pub rest: String,
}

/// What starts a token stands at `i`: `#`, `function `, or a key and `=`.
pub open spec fn token_start_spec(s: Seq<char>, i: int) -> bool {
    (0 <= i < s.len() && s[i] == '#') || holds_at(s, i, function_keyword()) || key_spec(s, i)
}

proof fn lemma_doc_text_push(ts: Seq<TokenView>, t: TokenView)
    ensures
        doc_text(ts.push(t)) == doc_text(ts) + t.text() + seq!['\n'],
    decreases ts.len(),
{
    if ts.len() == 0 {
        assert(ts.push(t).drop_first() =~= seq![]);
        assert(ts.push(t)[0] == t);
        assert(doc_text(ts.push(t)) == t.text() + seq!['\n'] + doc_text(seq![]));
        assert(doc_text(ts.push(t)) =~= doc_text(ts) + t.text() + seq!['\n']);
    } else {
        assert(ts.push(t).drop_first() =~= ts.drop_first().push(t));
        assert(ts.push(t)[0] == ts[0]);
        lemma_doc_text_push(ts.drop_first(), t);
        assert(doc_text(ts.push(t)) == ts[0].text() + seq!['\n'] + doc_text(
            ts.drop_first().push(t),
        ));
        assert(doc_text(ts.push(t)) =~= doc_text(ts) + t.text() + seq!['\n']);
    }
}

/// Reads tokens from the cursor until none can be read.
fn parse_tokens<'a>(input: Span<'a>) -> (r: (Span<'a>, Vec<Token>))
    requires
        input.wf(),
    ensures
        r.0.wf(),
        r.0.src == input.src,
        r.0.offset == tokens_spec(input.src@, input.offset as int).0,
        r.1@.map_values(|t: Token| t@) == tokens_spec(input.src@, input.offset as int).1,
{
    let ghost s = input.src@;
    let mut tokens: Vec<Token> = Vec::new();
    let mut cur = input;
    loop
        invariant
            input.wf(),
            cur.wf(),
            cur.src == input.src,
            s == input.src@,
            tokens_spec(s, input.offset as int).0 == tokens_spec(s, cur.offset as int).0,
            tokens_spec(s, input.offset as int).1 == tokens@.map_values(|t: Token| t@)
                + tokens_spec(s, cur.offset as int).1,
        decreases cur.len - cur.offset,
    {
        match Token::parse(cur) {
            Some((next, t)) => {
                proof {
                    lemma_token_bounds(s, cur.offset as int);
                }
                let ghost old_tokens = tokens@;
                let ghost tv = t@;
                tokens.push(t);
                proof {
                    let rest = tokens_spec(s, next.offset as int).1;
                    assert(tokens@.map_values(|t: Token| t@) =~= old_tokens.map_values(
                        |t: Token| t@,
                    ).push(tv));
                    assert(old_tokens.map_values(|t: Token| t@) + (seq![tv] + rest)
                        =~= tokens@.map_values(|t: Token| t@) + rest);
                }
                cur = next;
            },
            None => {
                proof {
                    assert(tokens@.map_values(|t: Token| t@) + seq![] =~= tokens@.map_values(
                        |t: Token| t@,
                    ));
                }
                return (cur, tokens);
            },
        }
    }
}

impl PkgBuild {
    /// Reads the tokens of `input` from its start until none can be read;
    /// what follows them is left out.
    pub fn new(input: &str) -> (r: PkgBuild)
        requires
            input@.len() < usize::MAX,
        ensures
            r@ == tokens_spec(input@, 0).1,
    {
        let (_, tokens) = parse_tokens(Span::new(input));
        PkgBuild { tokens }
    }

    /// Reads all of `input` as tokens. Where reading stops before the end,
    /// the error says where, why, and what was left.
    pub fn parse(input: &str) -> (r: Result<PkgBuild, ParseError>)
        requires
            input@.len() < usize::MAX,
        ensures
            r is Ok <==> tokens_spec(input@, 0).0 == input@.len(),
            r matches Ok(d) ==> d@ == tokens_spec(input@, 0).1,
            r matches Err(e) ==> {
                let k = tokens_spec(input@, 0).0;
                &&& e.position == Position::of(input@, k)
                &&& e.rest@ == input@.subrange(k, input@.len() as int)
                &&& e.kind == if token_start_spec(input@, k) {
                    ErrorKind::Malformed
                } else {
                    ErrorKind::Unrecognized
                }
            },
    {
        let (rest, tokens) = parse_tokens(Span::new(input));
        if rest.offset == rest.len {
            return Ok(PkgBuild { tokens });
        }
        let starts = (rest.offset < rest.len && rest.char_at(rest.offset) == '#') || at_keyword(
            &rest,
        ) || at_key(rest);
        let kind = if starts {
            ErrorKind::Malformed
        } else {
            ErrorKind::Unrecognized
        };
        Err(ParseError { kind, position: rest.position(), rest: rest.to_string() })
    }

    /// The tokens, in the order in which they stand.
    pub fn tokens(&self) -> (r: &Vec<Token>)
        ensures
            r@.map_values(|t: Token| t@) == self@,
    {
        &self.tokens
    }

    /// The file as text: each token followed by a line break.
    pub fn to_string(&self) -> (r: String)
        ensures
            r@ == doc_text(self@),
    {
        let ghost views = self@;
        let mut out = String::new();
        let mut i: usize = 0;
        proof {
            assert(views.take(0) =~= seq![]);
        }
        while i < self.tokens.len()
            invariant
                views == self.tokens@.map_values(|t: Token| t@),
                0 <= i <= self.tokens.len(),
                out@ == doc_text(views.take(i as int)),
            decreases self.tokens.len() - i,
        {
            let t = self.tokens[i].to_string();
            out.append(t.as_str());
            proof {
                reveal_strlit("\n");
            }
            out.append("\n");
            proof {
                assert(views[i as int] == self.tokens@[i as int]@);
                assert(views.take(i + 1) =~= views.take(i as int).push(views[i as int]));
                lemma_doc_text_push(views.take(i as int), views[i as int]);
                assert(out@ =~= doc_text(views.take(i + 1)));
            }
            i = i + 1;
        }
        proof {
            assert(views.take(self.tokens.len() as int) =~= views);
        }
        out
    }
}

} // verus!

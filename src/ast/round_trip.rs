use vstd::prelude::*;

use super::assignment::{
    AssignmentValueView,
    array_items_spec,
    array_spec,
    array_tail_spec,
    assignment_spec,
    is_multispace,
    items_tail_text,
    items_text,
    key_end,
    lemma_key_end,
    lemma_multispace_end,
    literal_spec,
    multispace_end,
};
use super::comment::comment_spec;
use super::function::{function_args_spec, function_keyword, function_spec};
use super::pkgbuild::{doc_text, tokens_spec};
use super::span::{find_char, holds_at, lemma_find_char};
use super::token::{TokenView, lemma_token_bounds, token_spec};
use super::value::{
    ValueView,
    is_unquoted_char,
    lemma_quoted_end,
    lemma_unquoted_end,
    quoted_end,
    quoted_spec,
    unquoted_end,
    value_spec,
};

verus! {

/// A value that reads back as itself once written: an unquoted value of one
/// character at least, all of `[A-Za-z0-9_.-]`; a quoted one whose text
/// ends where its closing quote is read.
pub open spec fn value_writable(v: ValueView) -> bool {
    match v {
        ValueView::Doublequoted(t) => quoted_end(t.push('"'), 0, '"') == Some(t.len() as int),
        ValueView::Singlequoted(t) => quoted_end(t.push('\''), 0, '\'') == Some(t.len() as int),
        ValueView::Unquoted(t) => t.len() > 0 && forall|j: int|
            0 <= j < t.len() ==> is_unquoted_char(#[trigger] t[j]),
    }
}

/// A key that reads back as itself: one character at least, none of them
/// `=` or a line break, and the first neither white space nor `#`.
pub open spec fn key_writable(k: Seq<char>) -> bool {
    &&& k.len() > 0
    &&& !is_multispace(k[0])
    &&& k[0] != '#'
    &&& forall|j: int| 0 <= j < k.len() ==> #[trigger] k[j] != '=' && k[j] != '\n'
}

/// A token that reads back as itself once written on a line of its own.
pub open spec fn token_writable(t: TokenView) -> bool {
    match t {
        TokenView::Comment(c) => forall|j: int| 0 <= j < c.text.len() ==> #[trigger] c.text[j] != '\n',
        TokenView::Assignment(k, v) => key_writable(k) && match v {
            AssignmentValueView::Literal(x) => value_writable(x),
            AssignmentValueView::Array(vs) => forall|j: int|
                0 <= j < vs.len() ==> value_writable(#[trigger] vs[j]),
        },
        TokenView::Function(n, a) => {
            &&& forall|j: int| 0 <= j < n.len() ==> #[trigger] n[j] != ' ' && n[j] != '='
            &&& forall|j: int| 0 <= j < a.len() ==> #[trigger] a[j] != ')' && a[j] != '='
        },
    }
}

/// Two tokens that are equal but for where a comment stands.
pub open spec fn same_token(a: TokenView, b: TokenView) -> bool {
    match (a, b) {
        (TokenView::Comment(x), TokenView::Comment(y)) => x.text == y.text,
        _ => a == b,
    }
}

/// Two token sequences that are equal but for where their comments stand.
pub open spec fn same_tokens(a: Seq<TokenView>, b: Seq<TokenView>) -> bool {
    a.len() == b.len() && forall|k: int| 0 <= k < a.len() ==> same_token(#[trigger] a[k], b[k])
}

proof fn lemma_holds_split(s: Seq<char>, i: int, a: Seq<char>, b: Seq<char>)
    requires
        holds_at(s, i, a + b),
    ensures
        holds_at(s, i, a),
        holds_at(s, i + a.len(), b),
{
    let w = s.subrange(i, i + (a + b).len());
    let x = s.subrange(i, i + a.len());
    let y = s.subrange(i + a.len(), i + a.len() + b.len());
    assert(x =~= a) by {
        assert forall|d: int| 0 <= d < a.len() implies #[trigger] x[d] == a[d] by {
            assert(w[d] == (a + b)[d]);
        }
    }
    assert(y =~= b) by {
        assert forall|d: int| 0 <= d < b.len() implies #[trigger] y[d] == b[d] by {
            assert(w[a.len() + d] == (a + b)[a.len() + d]);
        }
    }
}

proof fn lemma_holds_index(s: Seq<char>, i: int, a: Seq<char>, j: int)
    requires
        holds_at(s, i, a),
        0 <= j < a.len(),
    ensures
        s[i + j] == a[j],
{
    assert(s.subrange(i, i + a.len())[j] == s[i + j]);
}

proof fn lemma_find_char_at(s: Seq<char>, i: int, k: int, c: char)
    requires
        0 <= i <= k < s.len(),
        s[k] == c,
        forall|j: int| i <= j < k ==> s[j] != c,
    ensures
        find_char(s, i, c) == Some(k),
    decreases k - i,
{
    if i < k {
        lemma_find_char_at(s, i + 1, k, c);
    }
}

proof fn lemma_unquoted_end_at(s: Seq<char>, i: int, e: int)
    requires
        0 <= i <= e <= s.len(),
        forall|j: int| i <= j < e ==> is_unquoted_char(s[j]),
        e == s.len() || !is_unquoted_char(s[e]),
    ensures
        unquoted_end(s, i) == e,
    decreases e - i,
{
    if i < e {
        lemma_unquoted_end_at(s, i + 1, e);
    }
}

proof fn lemma_key_end_at(s: Seq<char>, i: int, e: int)
    requires
        0 <= i <= e < s.len(),
        forall|j: int| i <= j < e ==> s[j] != '=' && s[j] != '\n',
        s[e] == '=' || s[e] == '\n',
    ensures
        key_end(s, i) == e,
    decreases e - i,
{
    if i < e {
        lemma_key_end_at(s, i + 1, e);
    }
}

/// Reading a quoted string's inside looks at nothing past its closing
/// quote: the same characters elsewhere are read the same way.
proof fn lemma_quoted_end_local(s1: Seq<char>, j1: int, s2: Seq<char>, j2: int, q: char, e1: int)
    requires
        0 <= j1,
        0 <= j2,
        quoted_end(s1, j1, q) == Some(e1),
        j2 + (e1 - j1) < s2.len(),
        s2.subrange(j2, j2 + (e1 - j1) + 1) == s1.subrange(j1, e1 + 1),
    ensures
        quoted_end(s2, j2, q) == Some(j2 + (e1 - j1)),
    decreases s1.len() - j1,
{
    lemma_quoted_end(s1, j1, q);
    let w2 = s2.subrange(j2, j2 + (e1 - j1) + 1);
    let w1 = s1.subrange(j1, e1 + 1);
    assert(s2[j2] == w2[0] && s1[j1] == w1[0]);
    if s1[j1] == q {
    } else if s1[j1] == '\\' && j1 + 1 < s1.len() && s1[j1 + 1] == q {
        lemma_quoted_end(s1, j1 + 2, q);
        assert(s2[j2 + 1] == w2[1] && s1[j1 + 1] == w1[1]);
        let a2 = s2.subrange(j2 + 2, j2 + 2 + (e1 - (j1 + 2)) + 1);
        let a1 = s1.subrange(j1 + 2, e1 + 1);
        assert(a2 =~= a1) by {
            assert forall|d: int| 0 <= d <= e1 - j1 - 2 implies #[trigger] a2[d] == a1[d] by {
                assert(w2[d + 2] == w1[d + 2]);
            }
        }
        lemma_quoted_end_local(s1, j1 + 2, s2, j2 + 2, q, e1);
    } else {
        lemma_quoted_end(s1, j1 + 1, q);
        if s1[j1] == '\\' {
            assert(s2[j2 + 1] == w2[1] && s1[j1 + 1] == w1[1]);
        }
        let a2 = s2.subrange(j2 + 1, j2 + 1 + (e1 - (j1 + 1)) + 1);
        let a1 = s1.subrange(j1 + 1, e1 + 1);
        assert(a2 =~= a1) by {
            assert forall|d: int| 0 <= d <= e1 - j1 - 1 implies #[trigger] a2[d] == a1[d] by {
                assert(w2[d + 1] == w1[d + 1]);
            }
        }
        lemma_quoted_end_local(s1, j1 + 1, s2, j2 + 1, q, e1);
    }
}

proof fn lemma_quoted_read(s: Seq<char>, i: int, t: Seq<char>, q: char)
    requires
        quoted_end(t.push(q), 0, q) == Some(t.len() as int),
        holds_at(s, i, seq![q] + t + seq![q]),
    ensures
        quoted_spec(s, i, q) == Some((i + t.len() + 2, t)),
{
    let w = seq![q] + t + seq![q];
    lemma_holds_index(s, i, w, 0);
    let a = s.subrange(i + 1, i + 1 + t.len() + 1);
    let b = t.push(q).subrange(0, t.len() + 1 as int);
    assert(a =~= b) by {
        assert forall|d: int| 0 <= d <= t.len() implies #[trigger] a[d] == b[d] by {
            lemma_holds_index(s, i, w, d + 1);
        }
    }
    lemma_quoted_end_local(t.push(q), 0, s, i + 1, q, t.len() as int);
    let c = s.subrange(i + 1, i + 1 + t.len());
    assert(c =~= t) by {
        assert forall|d: int| 0 <= d < t.len() implies #[trigger] c[d] == t[d] by {
            lemma_holds_index(s, i, w, d + 1);
        }
    }
}

/// A well-formed value written at `i` is read back as itself, where what
/// follows an unquoted one cannot continue it.
pub proof fn lemma_value_read(s: Seq<char>, i: int, v: ValueView)
    requires
        value_writable(v),
        holds_at(s, i, v.text()),
        v is Unquoted ==> (i + v.text().len() == s.len() || !is_unquoted_char(
            s[i + v.text().len()],
        )),
    ensures
        value_spec(s, i) == Some((i + v.text().len(), v)),
{
    match v {
        ValueView::Doublequoted(t) => {
            lemma_quoted_read(s, i, t, '"');
        },
        ValueView::Singlequoted(t) => {
            lemma_holds_index(s, i, v.text(), 0);
            lemma_quoted_read(s, i, t, '\'');
        },
        ValueView::Unquoted(t) => {
            lemma_holds_index(s, i, t, 0);
            assert forall|j: int| i <= j < i + t.len() implies is_unquoted_char(s[j]) by {
                lemma_holds_index(s, i, t, j - i);
            }
            lemma_unquoted_end_at(s, i, i + t.len());
        },
    }
}

proof fn lemma_value_text_start(v: ValueView)
    requires
        value_writable(v),
    ensures
        v.text().len() > 0,
        v.text()[0] != '(' && v.text()[0] != ')' && v.text()[0] != ' ',
        !is_multispace(v.text()[0]),
{
    match v {
        ValueView::Unquoted(t) => {
            assert(is_unquoted_char(t[0]));
        },
        _ => {},
    }
}

proof fn lemma_tail_read(s: Seq<char>, i: int, vs: Seq<ValueView>)
    requires
        forall|j: int| 0 <= j < vs.len() ==> value_writable(#[trigger] vs[j]),
        holds_at(s, i, items_tail_text(vs)),
        i + items_tail_text(vs).len() < s.len(),
        s[i + items_tail_text(vs).len()] == ')',
    ensures
        array_tail_spec(s, i) == (i + items_tail_text(vs).len(), vs),
    decreases vs.len(),
{
    if vs.len() == 0 {
        assert(vs =~= seq![]);
    } else {
        let v = vs[0];
        let rest = vs.drop_first();
        assert(value_writable(vs[0]));
        let tt = items_tail_text(vs);
        assert(tt == seq![' '] + v.text() + items_tail_text(rest));
        lemma_holds_split(s, i, seq![' '] + v.text(), items_tail_text(rest));
        lemma_holds_split(s, i, seq![' '], v.text());
        lemma_holds_index(s, i, seq![' '], 0);
        let j = i + 1 + v.text().len();
        if rest.len() > 0 {
            assert(items_tail_text(rest) == seq![' '] + rest[0].text() + items_tail_text(
                rest.drop_first(),
            ));
            lemma_holds_index(s, j, items_tail_text(rest), 0);
        }
        lemma_value_read(s, i + 1, v);
        assert forall|k: int| 0 <= k < rest.len() implies value_writable(#[trigger] rest[k]) by {
            assert(rest[k] == vs[k + 1]);
        }
        lemma_tail_read(s, j, rest);
        assert(seq![v] + rest =~= vs);
    }
}

proof fn lemma_items_read(s: Seq<char>, i: int, vs: Seq<ValueView>)
    requires
        forall|j: int| 0 <= j < vs.len() ==> value_writable(#[trigger] vs[j]),
        holds_at(s, i, items_text(vs)),
        i + items_text(vs).len() < s.len(),
        s[i + items_text(vs).len()] == ')',
    ensures
        array_items_spec(s, i) == (i + items_text(vs).len(), vs),
{
    if vs.len() == 0 {
        assert(vs =~= seq![]);
        assert(!is_unquoted_char(s[i]));
        assert(unquoted_end(s, i) == i);
    } else {
        let v = vs[0];
        let rest = vs.drop_first();
        assert(value_writable(vs[0]));
        lemma_holds_split(s, i, v.text(), items_tail_text(rest));
        let j = i + v.text().len();
        if rest.len() > 0 {
            assert(items_tail_text(rest) == seq![' '] + rest[0].text() + items_tail_text(
                rest.drop_first(),
            ));
            lemma_holds_index(s, j, items_tail_text(rest), 0);
        }
        lemma_value_read(s, i, v);
        assert forall|k: int| 0 <= k < rest.len() implies value_writable(#[trigger] rest[k]) by {
            assert(rest[k] == vs[k + 1]);
        }
        lemma_tail_read(s, j, rest);
        assert(seq![v] + rest =~= vs);
    }
}

/// The text of a well-formed token starts with neither white space nor a
/// line break.
pub proof fn lemma_token_text_start(t: TokenView)
    requires
        token_writable(t),
    ensures
        t.text().len() > 0,
        !is_multispace(t.text()[0]),
{
    match t {
        TokenView::Comment(c) => {},
        TokenView::Assignment(k, v) => {},
        TokenView::Function(n, a) => {},
    }
}

proof fn lemma_comment_read(s: Seq<char>, i: int, t: TokenView)
    requires
        t is Comment,
        token_writable(t),
        holds_at(s, i, t.text() + seq!['\n']),
    ensures
        token_spec(s, i) matches Some((e, t2)) && e == i + t.text().len() + 1 && same_token(t2, t),
{
    let c = t->Comment_0;
    let e = i + t.text().len() + 1;
    lemma_holds_split(s, i, t.text(), seq!['\n']);
    lemma_holds_index(s, i + t.text().len(), seq!['\n'], 0);
    lemma_holds_split(s, i, seq!['#'], c.text);
    lemma_holds_index(s, i, seq!['#'], 0);
    assert forall|j: int| i + 1 <= j < e - 1 implies s[j] != '\n' by {
        lemma_holds_index(s, i + 1, c.text, j - i - 1);
    }
    lemma_find_char_at(s, i + 1, e - 1, '\n');
    assert(s.subrange(i + 1, e - 1) =~= c.text);
}

proof fn lemma_assignment_read(s: Seq<char>, i: int, t: TokenView)
    requires
        t is Assignment,
        token_writable(t),
        holds_at(s, i, t.text() + seq!['\n']),
        i + t.text().len() + 1 == s.len() || !is_multispace(s[i + t.text().len() + 1]),
    ensures
        token_spec(s, i) == Some((i + t.text().len() + 1, t)),
{
    let k = t->Assignment_0;
    let v = t->Assignment_1;
    let e = i + t.text().len() + 1;
    lemma_holds_split(s, i, t.text(), seq!['\n']);
    lemma_holds_index(s, i + t.text().len(), seq!['\n'], 0);
    lemma_holds_split(s, i, k + seq!['='], v.text());
    lemma_holds_split(s, i, k, seq!['=']);
    lemma_holds_index(s, i, k, 0);
    lemma_holds_index(s, i + k.len(), seq!['='], 0);
    assert(multispace_end(s, i) == i);
    assert forall|j: int| i <= j < i + k.len() implies s[j] != '=' && s[j] != '\n' by {
        lemma_holds_index(s, i, k, j - i);
    }
    lemma_key_end_at(s, i, i + k.len());
    assert(s.subrange(i, i + k.len()) =~= k);
    assert(comment_spec(s, i) is None);
    let vstart = i + k.len() + 1;
    match v {
        AssignmentValueView::Literal(x) => {
            lemma_value_text_start(x);
            lemma_holds_index(s, vstart, x.text(), 0);
            lemma_value_read(s, vstart, x);
            let j = vstart + x.text().len();
            assert(multispace_end(s, j + 1) == j + 1);
            assert(multispace_end(s, j) == j + 1);
            assert(literal_spec(s, vstart) == Some((e, v)));
            assert(array_spec(s, vstart) is None);
        },
        AssignmentValueView::Array(vs) => {
            let it = items_text(vs);
            lemma_holds_split(s, vstart, seq!['('] + it, seq![')']);
            lemma_holds_split(s, vstart, seq!['('], it);
            lemma_holds_index(s, vstart, seq!['('], 0);
            lemma_holds_index(s, vstart + 1 + it.len(), seq![')'], 0);
            lemma_items_read(s, vstart + 1, vs);
            assert(array_spec(s, vstart) == Some((e, v)));
        },
    }
}

proof fn lemma_function_read(s: Seq<char>, i: int, t: TokenView)
    requires
        t is Function,
        token_writable(t),
        holds_at(s, i, t.text() + seq!['\n']),
    ensures
        token_spec(s, i) == Some((i + t.text().len() + 1, t)),
{
    let n = t->Function_0;
    let a = t->Function_1;
    let e = i + t.text().len() + 1;
    let kw = function_keyword();
    lemma_holds_split(s, i, t.text(), seq!['\n']);
    lemma_holds_index(s, i + t.text().len(), seq!['\n'], 0);
    lemma_holds_split(s, i, kw + n + seq![' ', '('] + a, seq![')']);
    lemma_holds_split(s, i, kw + n + seq![' ', '('], a);
    lemma_holds_split(s, i, kw + n, seq![' ', '(']);
    lemma_holds_split(s, i, kw, n);
    let n0 = i + kw.len();
    let ne = n0 + n.len();
    let p = ne + 1;
    let c = p + 1 + a.len();
    lemma_holds_index(s, ne, seq![' ', '('], 0);
    lemma_holds_index(s, ne, seq![' ', '('], 1);
    lemma_holds_index(s, c, seq![')'], 0);
    lemma_holds_index(s, i, kw, 0);
    assert forall|j: int| n0 <= j < ne implies s[j] != ' ' && s[j] != '=' by {
        lemma_holds_index(s, n0, n, j - n0);
    }
    assert forall|j: int| p + 1 <= j < c implies s[j] != ')' && s[j] != '=' by {
        lemma_holds_index(s, p + 1, a, j - p - 1);
    }
    assert forall|j: int| i <= j < n0 implies s[j] != '=' by {
        lemma_holds_index(s, i, kw, j - i);
    }
    // No `=` stands on the line, so it is not read as an assignment.
    assert(multispace_end(s, i) == i);
    lemma_key_end(s, i);
    let ke = key_end(s, i);
    if ke > e - 1 {
        assert(s[e - 1] == '\n');
    }
    assert(s[ke] != '=');
    assert(assignment_spec(s, i) is None);
    assert(comment_spec(s, i) is None);
    lemma_find_char_at(s, n0, ne, ' ');
    lemma_find_char_at(s, p + 1, c, ')');
    assert(s.subrange(n0, ne) =~= n);
    if a.len() > 0 {
        assert(s.subrange(p + 1, c) =~= a);
        lemma_find_char_at(s, c + 1, c + 1, '\n');
    } else {
        assert(a =~= seq![]);
        lemma_find_char_at(s, p, c + 1, '\n');
    }
    assert(function_spec(s, i) == Some((e, t)));
}

/// A well-formed token written on a line of its own at `i` is read back as
/// itself, where the next line does not start with white space.
proof fn lemma_token_read(s: Seq<char>, i: int, t: TokenView)
    requires
        token_writable(t),
        holds_at(s, i, t.text() + seq!['\n']),
        i + t.text().len() + 1 == s.len() || !is_multispace(s[i + t.text().len() + 1]),
    ensures
        token_spec(s, i) matches Some((e, t2)) && e == i + t.text().len() + 1 && same_token(t2, t),
{
    match t {
        TokenView::Comment(_) => lemma_comment_read(s, i, t),
        TokenView::Assignment(_, _) => lemma_assignment_read(s, i, t),
        TokenView::Function(_, _) => lemma_function_read(s, i, t),
    }
}

proof fn lemma_at_end(s: Seq<char>)
    ensures
        token_spec(s, s.len() as int) is None,
{
    assert(multispace_end(s, s.len() as int) == s.len());
    assert(key_end(s, s.len() as int) == s.len());
}

/// Well-formed tokens written one per line from `i` to the end of the text
/// are read back, up to the end.
proof fn lemma_tokens_read(s: Seq<char>, i: int, ts: Seq<TokenView>)
    requires
        forall|k: int| 0 <= k < ts.len() ==> token_writable(#[trigger] ts[k]),
        holds_at(s, i, doc_text(ts)),
        i + doc_text(ts).len() == s.len(),
    ensures
        tokens_spec(s, i).0 == s.len(),
        same_tokens(tokens_spec(s, i).1, ts),
    decreases ts.len(),
{
    if ts.len() == 0 {
        lemma_at_end(s);
    } else {
        let t = ts[0];
        let rest = ts.drop_first();
        assert(token_writable(ts[0]));
        let j = i + t.text().len() + 1;
        lemma_holds_split(s, i, t.text() + seq!['\n'], doc_text(rest));
        if rest.len() > 0 {
            assert(token_writable(rest[0]));
            lemma_token_text_start(rest[0]);
            lemma_holds_split(s, j, rest[0].text() + seq!['\n'], doc_text(rest.drop_first()));
            lemma_holds_split(s, j, rest[0].text(), seq!['\n']);
            lemma_holds_index(s, j, rest[0].text(), 0);
        }
        lemma_token_read(s, i, t);
        assert forall|k: int| 0 <= k < rest.len() implies token_writable(#[trigger] rest[k]) by {
            assert(rest[k] == ts[k + 1]);
        }
        lemma_tokens_read(s, j, rest);
        let t2 = (token_spec(s, i)->0).1;
        let rest2 = tokens_spec(s, j).1;
        assert(tokens_spec(s, i).1 == seq![t2] + rest2);
        assert forall|k: int| 0 <= k < ts.len() implies same_token(
            #[trigger] tokens_spec(s, i).1[k],
            ts[k],
        ) by {
            if k > 0 {
                assert(same_token(rest2[k - 1], rest[k - 1]));
            }
        }
    }
}

/// Tokens equal but for where comments stand are written out the same way.
pub proof fn lemma_same_tokens_text(a: Seq<TokenView>, b: Seq<TokenView>)
    requires
        same_tokens(a, b),
    ensures
        doc_text(a) == doc_text(b),
    decreases a.len(),
{
    if a.len() > 0 {
        assert(same_token(a[0], b[0]));
        assert(a[0].text() == b[0].text());
        assert(same_tokens(a.drop_first(), b.drop_first())) by {
            assert forall|k: int| 0 <= k < a.drop_first().len() implies same_token(
                #[trigger] a.drop_first()[k],
                b.drop_first()[k],
            ) by {
                assert(same_token(a[k + 1], b[k + 1]));
            }
        }
        lemma_same_tokens_text(a.drop_first(), b.drop_first());
    }
}

/// Writing well-formed tokens out, one per line, and reading the text back
/// reads all of it, gives the same tokens (comments then stand where the
/// text puts them), and writes out as the same text.
pub proof fn lemma_round_trip(ts: Seq<TokenView>)
    requires
        forall|k: int| 0 <= k < ts.len() ==> token_writable(#[trigger] ts[k]),
    ensures
        tokens_spec(doc_text(ts), 0).0 == doc_text(ts).len(),
        same_tokens(tokens_spec(doc_text(ts), 0).1, ts),
        doc_text(tokens_spec(doc_text(ts), 0).1) == doc_text(ts),
{
    let s = doc_text(ts);
    assert(s.subrange(0, s.len() as int) =~= s);
    lemma_tokens_read(s, 0, ts);
    lemma_same_tokens_text(tokens_spec(s, 0).1, ts);
}

/// A token that may read back as another kind once written out: an
/// assignment whose key starts with `#` (it reads back as a comment), or a
/// function header whose name or arguments hold `=` (it may read back as an
/// assignment).
pub open spec fn token_ambiguous(t: TokenView) -> bool {
    match t {
        TokenView::Comment(_) => false,
        TokenView::Assignment(k, _) => k.len() > 0 && k[0] == '#',
        TokenView::Function(n, a) => n.contains('=') || a.contains('='),
    }
}

proof fn lemma_value_parsed(s: Seq<char>, i: int)
    requires
        0 <= i <= s.len(),
        value_spec(s, i) is Some,
    ensures
        ({
            let (e, v) = value_spec(s, i)->0;
            &&& value_writable(v)
            &&& e == i + v.text().len()
            &&& holds_at(s, i, v.text())
            &&& v is Unquoted ==> (e == s.len() || !is_unquoted_char(s[e]))
        }),
{
    let (e, v) = value_spec(s, i)->0;
    match v {
        ValueView::Unquoted(t) => {
            lemma_unquoted_end(s, i);
            assert(s.subrange(i, e) =~= t);
        },
        ValueView::Doublequoted(t) => {
            lemma_quoted_parsed(s, i, '"');
        },
        ValueView::Singlequoted(t) => {
            lemma_quoted_parsed(s, i, '\'');
        },
    }
}

proof fn lemma_quoted_parsed(s: Seq<char>, i: int, q: char)
    requires
        0 <= i <= s.len(),
        quoted_spec(s, i, q) is Some,
    ensures
        ({
            let (e, t) = quoted_spec(s, i, q)->0;
            &&& quoted_end(t.push(q), 0, q) == Some(t.len() as int)
            &&& e == i + t.len() + 2
            &&& holds_at(s, i, seq![q] + t + seq![q])
        }),
{
    let (e, t) = quoted_spec(s, i, q)->0;
    lemma_quoted_end(s, i + 1, q);
    let a = t.push(q).subrange(0, t.len() + 1 as int);
    let b = s.subrange(i + 1, e);
    assert(a =~= b) by {
        assert forall|d: int| 0 <= d <= t.len() implies #[trigger] a[d] == b[d] by {
            if d < t.len() {
                assert(t[d] == s[i + 1 + d]);
            }
        }
    }
    lemma_quoted_end_local(s, i + 1, t.push(q), 0, q, e - 1);
    assert(s.subrange(i, e) =~= seq![q] + t + seq![q]);
}

proof fn lemma_tail_parsed(s: Seq<char>, i: int)
    requires
        0 <= i <= s.len(),
    ensures
        forall|j: int|
            0 <= j < array_tail_spec(s, i).1.len() ==> value_writable(
                #[trigger] array_tail_spec(s, i).1[j],
            ),
    decreases s.len() - i,
{
    if i < s.len() && s[i] == ' ' {
        if let Some((j, v)) = value_spec(s, i + 1) {
            lemma_value_parsed(s, i + 1);
            lemma_tail_parsed(s, j);
            let vs = array_tail_spec(s, j).1;
            assert forall|k: int| 0 <= k < (seq![v] + vs).len() implies value_writable(
                #[trigger] (seq![v] + vs)[k],
            ) by {
                if k > 0 {
                    assert((seq![v] + vs)[k] == vs[k - 1]);
                }
            }
        }
    }
}

proof fn lemma_token_parsed(s: Seq<char>, i: int)
    requires
        0 <= i <= s.len(),
        token_spec(s, i) is Some,
        !token_ambiguous((token_spec(s, i)->0).1),
    ensures
        token_writable((token_spec(s, i)->0).1),
{
    let t = (token_spec(s, i)->0).1;
    lemma_find_char(s, i + 1, '\n');
    match t {
        TokenView::Comment(c) => {},
        TokenView::Assignment(k, v) => {
            let a = multispace_end(s, i);
            lemma_multispace_end(s, i);
            lemma_key_end(s, a);
            let ke = key_end(s, a);
            assert(k[0] == s[a]);
            let vstart = ke + 1;
            if array_spec(s, vstart) is Some {
                if value_spec(s, vstart + 1) is Some {
                    let (j, v0) = value_spec(s, vstart + 1)->0;
                    lemma_value_parsed(s, vstart + 1);
                    lemma_tail_parsed(s, j);
                    let vs = array_tail_spec(s, j).1;
                    assert forall|m: int| 0 <= m < (seq![v0] + vs).len() implies value_writable(
                        #[trigger] (seq![v0] + vs)[m],
                    ) by {
                        if m > 0 {
                            assert((seq![v0] + vs)[m] == vs[m - 1]);
                        }
                    }
                }
            } else {
                lemma_value_parsed(s, vstart);
            }
        },
        TokenView::Function(n, a) => {
            let n0 = i + function_keyword().len();
            lemma_find_char(s, n0, ' ');
            let ne = find_char(s, n0, ' ')->0;
            lemma_find_char(s, ne + 2, ')');
            assert forall|j: int| 0 <= j < n.len() implies #[trigger] n[j] != ' ' && n[j] != '=' by {
                assert(n[j] == s[n0 + j]);
                if n[j] == '=' {
                    assert(n.contains('='));
                }
            }
            assert forall|j: int| 0 <= j < a.len() implies #[trigger] a[j] != ')' && a[j] != '=' by {
                assert(a[j] == s[ne + 2 + j]);
                if a[j] == '=' {
                    assert(a.contains('='));
                }
            }
        },
    }
}

proof fn lemma_tokens_parsed(s: Seq<char>, i: int)
    requires
        0 <= i <= s.len(),
        forall|k: int|
            0 <= k < tokens_spec(s, i).1.len() ==> !token_ambiguous(
                #[trigger] tokens_spec(s, i).1[k],
            ),
    ensures
        forall|k: int|
            0 <= k < tokens_spec(s, i).1.len() ==> token_writable(
                #[trigger] tokens_spec(s, i).1[k],
            ),
    decreases s.len() - i,
{
    lemma_token_bounds(s, i);
    if let Some((j, t)) = token_spec(s, i) {
        let ts = tokens_spec(s, i).1;
        let rest = tokens_spec(s, j).1;
        assert(ts == seq![t] + rest);
        assert(ts[0] == t);
        lemma_token_parsed(s, i);
        assert forall|k: int| 0 <= k < rest.len() implies !token_ambiguous(#[trigger] rest[k]) by {
            assert(ts[k + 1] == rest[k]);
        }
        lemma_tokens_parsed(s, j);
        assert forall|k: int| 0 <= k < ts.len() implies token_writable(#[trigger] ts[k]) by {
            if k > 0 {
                assert(ts[k] == rest[k - 1]);
            }
        }
    }
}

/// Reading a text, writing its tokens out and reading that again reads all
/// of the written text and gives the same tokens, but for where comments
/// stand; where the text was already written that way, exactly the same
/// tokens. Tokens that may read back as another kind are left out.
pub proof fn lemma_idempotent(s: Seq<char>)
    requires
        forall|k: int|
            0 <= k < tokens_spec(s, 0).1.len() ==> !token_ambiguous(
                #[trigger] tokens_spec(s, 0).1[k],
            ),
    ensures
        ({
            let ts = tokens_spec(s, 0).1;
            let w = doc_text(ts);
            &&& tokens_spec(w, 0).0 == w.len()
            &&& same_tokens(tokens_spec(w, 0).1, ts)
            &&& w == s ==> tokens_spec(w, 0).1 == ts
        }),
{
    lemma_tokens_parsed(s, 0);
    lemma_round_trip(tokens_spec(s, 0).1);
}

} // verus!

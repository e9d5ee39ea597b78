use vstd::prelude::*;
use vstd::string::*;

use crate::ast::span::{Span, find_char, holds_at, lemma_find_char};

verus! {

/// Space or tab.
pub open spec fn is_blank(c: char) -> bool {
    c == ' ' || c == '\t'
}

/// The end of the run of spaces and tabs from `i`.
pub open spec fn blank_end(s: Seq<char>, i: int) -> int
    decreases s.len() - i,
{
    if 0 <= i < s.len() && is_blank(s[i]) {
        blank_end(s, i + 1)
    } else {
        i
    }
}

/// A character of Unicode's White_Space property.
pub open spec fn is_white(c: char) -> bool {
    ('\u{9}' <= c && c <= '\u{d}') || c == ' ' || c == '\u{85}' || c == '\u{a0}' || c == '\u{1680}'
        || ('\u{2000}' <= c && c <= '\u{200a}') || c == '\u{2028}' || c == '\u{2029}' || c
        == '\u{202f}' || c == '\u{205f}' || c == '\u{3000}'
}

/// The end of the run of white space from `i`.
pub open spec fn white_end(s: Seq<char>, i: int) -> int
    decreases s.len() - i,
{
    if 0 <= i < s.len() && is_white(s[i]) {
        white_end(s, i + 1)
    } else {
        i
    }
}

/// The end of the run of characters other than white space from `i`.
pub open spec fn word_end(s: Seq<char>, i: int) -> int
    decreases s.len() - i,
{
    if 0 <= i < s.len() && !is_white(s[i]) {
        word_end(s, i + 1)
    } else {
        i
    }
}

/// The words of `s` from `i` on: the runs of characters that are not white
/// space.
pub open spec fn words_from(s: Seq<char>, i: int) -> Seq<Seq<char>>
    decreases s.len() - i,
{
    let j = white_end(s, i);
    if 0 <= i && i <= j < s.len() {
        proof {
            lemma_white_end(s, i);
            lemma_word_end(s, j);
        }
        seq![s.subrange(j, word_end(s, j))] + words_from(s, word_end(s, j))
    } else {
        seq![]
    }
}

pub proof fn lemma_white_end(s: Seq<char>, i: int)
    requires
        0 <= i <= s.len(),
    ensures
        i <= white_end(s, i) <= s.len(),
        white_end(s, i) < s.len() ==> !is_white(s[white_end(s, i)]),
    decreases s.len() - i,
{
    if i < s.len() && is_white(s[i]) {
        lemma_white_end(s, i + 1);
    }
}

pub proof fn lemma_word_end(s: Seq<char>, i: int)
    requires
        0 <= i < s.len(),
        !is_white(s[i]),
    ensures
        i < word_end(s, i) <= s.len(),
{
    lemma_word_end_le(s, i + 1);
}

pub proof fn lemma_word_end_le(s: Seq<char>, i: int)
    requires
        0 <= i <= s.len(),
    ensures
        i <= word_end(s, i) <= s.len(),
    decreases s.len() - i,
{
    if i < s.len() && !is_white(s[i]) {
        lemma_word_end_le(s, i + 1);
    }
}

proof fn lemma_blank_end(s: Seq<char>, i: int)
    requires
        0 <= i <= s.len(),
    ensures
        i <= blank_end(s, i) <= s.len(),
    decreases s.len() - i,
{
    if i < s.len() && is_blank(s[i]) {
        lemma_blank_end(s, i + 1);
    }
}

/// `'`, one character at least other than `'`, and `'`, at `i`: where it
/// ends.
pub open spec fn single_quoted_end(s: Seq<char>, i: int) -> Option<int> {
    if 0 <= i < s.len() && s[i] == '\'' {
        match find_char(s, i + 1, '\'') {
            Some(c) => if c > i + 1 {
                Some(c + 1)
            } else {
                None
            },
            None => None,
        }
    } else {
        None
    }
}

/// A word with the quotes taken off where it starts with a single-quoted
/// string (what follows that string is dropped); else the word as it is.
pub open spec fn unquote(w: Seq<char>) -> Seq<char> {
    match single_quoted_end(w, 0) {
        Some(e) => w.subrange(1, e - 1),
        None => w,
    }
}

/// The texts of a list of strings.
pub open spec fn strings_view(v: Seq<String>) -> Seq<Seq<char>> {
    v.map_values(|x: String| x@)
}

/// Each word unquoted.
pub open spec fn unquote_all(ws: Seq<Seq<char>>) -> Seq<Seq<char>> {
    ws.map_values(|w: Seq<char>| unquote(w))
}

/// `name`, blanks, `=` and blanks at `i`: where the value starts.
pub open spec fn field_head_spec(s: Seq<char>, i: int, name: Seq<char>) -> Option<int> {
    let a = blank_end(s, i + name.len());
    if holds_at(s, i, name) && a < s.len() && s[a] == '=' {
        Some(blank_end(s, a + 1))
    } else {
        None
    }
}

/// `name = value` and a line break at `i`: where it ends, and the value, as
/// it stands up to the line break.
pub open spec fn field_spec(s: Seq<char>, i: int, name: Seq<char>) -> Option<(int, Seq<char>)> {
    match field_head_spec(s, i, name) {
        Some(v) => match find_char(s, v, '\n') {
            Some(n) => Some((n + 1, s.subrange(v, n))),
            None => None,
        },
        None => None,
    }
}

pub open spec fn pkgname_key() -> Seq<char> {
    seq!['p', 'k', 'g', 'n', 'a', 'm', 'e']
}

pub open spec fn pkgver_key() -> Seq<char> {
    seq!['p', 'k', 'g', 'v', 'e', 'r']
}

pub open spec fn pkgrel_key() -> Seq<char> {
    seq!['p', 'k', 'g', 'r', 'e', 'l']
}

pub open spec fn arch_key() -> Seq<char> {
    seq!['a', 'r', 'c', 'h']
}

/// The names of a list `(name name ...)` at `v`, followed by blanks and a
/// line break: where it ends, and each word inside unquoted.
pub open spec fn pkgname_list_spec(s: Seq<char>, v: int) -> Option<(int, Seq<Seq<char>>)> {
    if 0 <= v < s.len() && s[v] == '(' {
        match find_char(s, v + 1, ')') {
            Some(c) => {
                let b = blank_end(s, c + 1);
                if b < s.len() && s[b] == '\n' {
                    Some((b + 1, unquote_all(words_from(s.subrange(v + 1, c), 0))))
                } else {
                    None
                }
            },
            None => None,
        }
    } else {
        None
    }
}

/// `pkgname=` and a list of names, or else a single name up to the line
/// break, unquoted.
pub open spec fn pkgname_spec(s: Seq<char>, i: int) -> Option<(int, Seq<Seq<char>>)> {
    match field_head_spec(s, i, pkgname_key()) {
        Some(v) => match pkgname_list_spec(s, v) {
            Some(r) => Some(r),
            None => match find_char(s, v, '\n') {
                Some(n) => Some((n + 1, seq![unquote(s.subrange(v, n))])),
                None => None,
            },
        },
        None => None,
    }
}

/// After the first entry of a list of single-quoted strings: each further
/// one that follows a single space.
pub open spec fn quoted_tail(s: Seq<char>, i: int) -> Seq<Seq<char>>
    decreases s.len() - i,
{
    if 0 <= i < s.len() && s[i] == ' ' {
        match single_quoted_end(s, i + 1) {
            Some(e) => {
                proof {
                    lemma_single_quoted_end(s, i + 1);
                }
                seq![s.subrange(i + 2, e - 1)] + quoted_tail(s, e)
            },
            None => seq![],
        }
    } else {
        seq![]
    }
}

/// A list of one single-quoted string at least, separated by single spaces,
/// at the start of `s`; what follows it is dropped.
pub open spec fn quoted_list(s: Seq<char>) -> Option<Seq<Seq<char>>> {
    match single_quoted_end(s, 0) {
        Some(e) => Some(seq![s.subrange(1, e - 1)] + quoted_tail(s, e)),
        None => None,
    }
}

/// `arch=(...)`, blanks and a line break at `i`, where the text in the
/// parentheses starts with a list of single-quoted names.
pub open spec fn arch_spec(s: Seq<char>, i: int) -> Option<(int, Seq<Seq<char>>)> {
    match field_head_spec(s, i, arch_key()) {
        Some(v) => if v < s.len() && s[v] == '(' {
            match find_char(s, v + 1, ')') {
                Some(c) => {
                    let b = blank_end(s, c + 1);
                    match quoted_list(s.subrange(v + 1, c)) {
                        Some(names) => if b < s.len() && s[b] == '\n' {
                            Some((b + 1, names))
                        } else {
                            None
                        },
                        None => None,
                    }
                },
                None => None,
            }
        } else {
            None
        },
        None => None,
    }
}

pub proof fn lemma_single_quoted_end(s: Seq<char>, i: int)
    requires
        0 <= i,
    ensures
        single_quoted_end(s, i) matches Some(e) ==> i + 3 <= e <= s.len() && s[e - 1] == '\'',
{
    lemma_find_char(s, i + 1, '\'');
}

fn is_blank_char(c: char) -> (r: bool)
    ensures
        r == is_blank(c),
{
    c == ' ' || c == '\t'
}

fn is_white_char(c: char) -> (r: bool)
    ensures
        r == is_white(c),
{
    ('\u{9}' <= c && c <= '\u{d}') || c == ' ' || c == '\u{85}' || c == '\u{a0}' || c == '\u{1680}'
        || ('\u{2000}' <= c && c <= '\u{200a}') || c == '\u{2028}' || c == '\u{2029}' || c
        == '\u{202f}' || c == '\u{205f}' || c == '\u{3000}'
}

/// The end of the run of spaces and tabs from `i`.
pub fn skip_blanks(t: &Span, i: usize) -> (r: usize)
    requires
        t.wf(),
        i <= t.len,
    ensures
        r == blank_end(t.src@, i as int),
        i <= r <= t.len,
{
    let mut k: usize = i;
    while k < t.len && is_blank_char(t.char_at(k))
        invariant
            t.wf(),
            i <= k <= t.len,
            blank_end(t.src@, i as int) == blank_end(t.src@, k as int),
        decreases t.len - k,
    {
        k = k + 1;
    }
    k
}

/// Whether `name` stands at index `i`.
pub fn holds_name(t: &Span, i: usize, name: &str) -> (r: bool)
    requires
        t.wf(),
        i <= t.len,
    ensures
        r == holds_at(t.src@, i as int, name@),
{
    let n = name.unicode_len();
    if t.len - i < n {
        return false;
    }
    let mut k: usize = 0;
    while k < n
        invariant
            t.wf(),
            n == name@.len(),
            i + n <= t.len,
            0 <= k <= n,
            forall|j: int| 0 <= j < k ==> t.src@[i + j] == name@[j],
        decreases n - k,
    {
        if t.char_at(i + k) != name.get_char(k) {
            proof {
                assert(t.src@.subrange(i as int, i + n)[k as int] != name@[k as int]);
            }
            return false;
        }
        k = k + 1;
    }
    proof {
        assert(t.src@.subrange(i as int, i + n) =~= name@);
    }
    true
}

/// Where the value of `name = ...` at index `i` starts.
pub fn field_head(t: &Span, i: usize, name: &str) -> (r: Option<usize>)
    requires
        t.wf(),
        i <= t.len,
    ensures
        match field_head_spec(t.src@, i as int, name@) {
            Some(v) => r == Some(v as usize) && i <= v <= t.len,
            None => r is None,
        },
{
    if !holds_name(t, i, name) {
        return None;
    }
    proof {
        lemma_blank_end(t.src@, i + name@.len());
    }
    let a = skip_blanks(t, i + name.unicode_len());
    proof {
        if a < t.len {
            lemma_blank_end(t.src@, a + 1);
        }
    }
    if a < t.len && t.char_at(a) == '=' {
        Some(skip_blanks(t, a + 1))
    } else {
        None
    }
}

/// Where the single-quoted string at index `i` ends.
pub fn single_quoted_at(t: &Span, i: usize) -> (r: Option<usize>)
    requires
        t.wf(),
        i <= t.len,
    ensures
        match single_quoted_end(t.src@, i as int) {
            Some(e) => r == Some(e as usize),
            None => r is None,
        },
{
    if !(i < t.len && t.char_at(i) == '\'') {
        return None;
    }
    proof {
        lemma_find_char(t.src@, i + 1, '\'');
    }
    match t.find(i + 1, '\'') {
        Some(c) => if c > i + 1 {
            Some(c + 1)
        } else {
            None
        },
        None => None,
    }
}

/// The word with the quotes taken off where it starts with a single-quoted
/// string.
pub fn unquote_word(w: &str) -> (r: String)
    requires
        w@.len() < usize::MAX,
    ensures
        r@ == unquote(w@),
{
    let t = Span::new(w);
    match single_quoted_at(&t, 0) {
        Some(e) => {
            proof {
                lemma_single_quoted_end(w@, 0);
            }
            t.slice(1, e - 1)
        },
        None => w.to_owned(),
    }
}

/// The words of `w`, each unquoted.
pub fn unquoted_words(w: &str) -> (r: Vec<String>)
    requires
        w@.len() < usize::MAX,
    ensures
        strings_view(r@) == unquote_all(words_from(w@, 0)),
{
    let t = Span::new(w);
    let ghost s = w@;
    let mut out: Vec<String> = Vec::new();
    let mut k: usize = 0;
    loop
        invariant
            t.wf(),
            t.src@ == s,
            s == w@,
            s.len() < usize::MAX,
            0 <= k <= t.len,
            unquote_all(words_from(s, 0)) == strings_view(out@)
                + unquote_all(words_from(s, k as int)),
        decreases t.len - k,
    {
        let mut j: usize = k;
        while j < t.len && is_white_char(t.char_at(j))
            invariant
                t.wf(),
                k <= j <= t.len,
                white_end(t.src@, k as int) == white_end(t.src@, j as int),
            decreases t.len - j,
        {
            j = j + 1;
        }
        proof {
            lemma_white_end(s, k as int);
        }
        if j >= t.len {
            proof {
                assert(words_from(s, k as int) =~= seq![]);
                assert(strings_view(out@) + seq![] =~= strings_view(out@));
                assert(unquote_all(words_from(s, k as int)) =~= seq![]);
                assert(unquote_all(words_from(s, 0)) == strings_view(out@));
            }
            return out;
        }
        let mut e: usize = j;
        while e < t.len && !is_white_char(t.char_at(e))
            invariant
                t.wf(),
                j <= e <= t.len,
                word_end(t.src@, j as int) == word_end(t.src@, e as int),
            decreases t.len - e,
        {
            e = e + 1;
        }
        proof {
            lemma_word_end(s, j as int);
        }
        let word = t.slice(j, e);
        let u = unquote_word(word.as_str());
        let ghost old_out = out@;
        out.push(u);
        proof {
            let rest = words_from(s, e as int);
            assert(words_from(s, k as int) == seq![s.subrange(j as int, e as int)] + rest);
            assert(unquote_all(words_from(s, k as int)) =~= seq![u@] + unquote_all(rest));
            assert(strings_view(out@) =~= strings_view(old_out).push(u@));
            assert(strings_view(old_out) + (seq![u@] + unquote_all(rest))
                =~= strings_view(out@) + unquote_all(rest));
        }
        k = e;
    }
}

} // verus!

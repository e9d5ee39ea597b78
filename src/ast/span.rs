use vstd::prelude::*;
use vstd::string::*;

verus! {

/// Number (counted from 1) of the line on which index `i` of `s` stands.
pub open spec fn line_at(s: Seq<char>, i: int) -> int
    decreases i,
{
    if i <= 0 {
        1
    } else if s[i - 1] == '\n' {
        line_at(s, i - 1) + 1
    } else {
        line_at(s, i - 1)
    }
}

/// Column (counted from 1, in characters) at which index `i` of `s` stands.
pub open spec fn column_at(s: Seq<char>, i: int) -> int
    decreases i,
{
    if i <= 0 {
        1
    } else if s[i - 1] == '\n' {
        1
    } else {
        column_at(s, i - 1) + 1
    }
}

pub proof fn lemma_line_column_bounds(s: Seq<char>, i: int)
    requires
        0 <= i,
    ensures
        1 <= line_at(s, i) <= i + 1,
        1 <= column_at(s, i) <= i + 1,
    decreases i,
{
    if i > 0 {
        lemma_line_column_bounds(s, i - 1);
    }
}

/// The first index `k >= i` of `s` that holds `c`, if there is one.
pub open spec fn find_char(s: Seq<char>, i: int, c: char) -> Option<int>
    decreases s.len() - i,
{
    if i < 0 || i >= s.len() {
        None
    } else if s[i] == c {
        Some(i)
    } else {
        find_char(s, i + 1, c)
    }
}

pub proof fn lemma_find_char(s: Seq<char>, i: int, c: char)
    requires
        0 <= i,
    ensures
        match find_char(s, i, c) {
            Some(k) => i <= k < s.len() && s[k] == c && forall|j: int| i <= j < k ==> s[j] != c,
            None => forall|j: int| i <= j < s.len() ==> s[j] != c,
        },
    decreases s.len() - i,
{
    if i < s.len() && s[i] != c {
        lemma_find_char(s, i + 1, c);
    }
}

/// `s` holds `p` from index `i` on.
pub open spec fn holds_at(s: Seq<char>, i: int, p: Seq<char>) -> bool {
    0 <= i && i + p.len() <= s.len() && s.subrange(i, i + p.len()) == p
}

/// `r` is what a parser returned from `input`, and `m` says what it owes:
/// nothing where `m` is `None`, else a cursor at index `m.0` of the same text
/// and a result whose view is `m.1`.
pub open spec fn parsed_as<'a, T: View>(
    input: Span<'a>,
    r: Option<(Span<'a>, T)>,
    m: Option<(int, T::V)>,
) -> bool {
    match (r, m) {
        (None, None) => true,
        (Some((rest, t)), Some((e, v))) => {
            &&& rest.wf()
            &&& rest.src == input.src
            &&& rest.offset == e
            &&& t@ == v
        },
        _ => false,
    }
}

/// Where a character stands in the input: its index (in characters), and
/// its line and column, both counted from 1.
#[derive(Clone, Copy, Debug, PartialEq, Eq, Structural)]
pub struct Position {
    pub offset: usize,
    pub line: usize,
    pub column: usize,
}

impl Position {
    /// The position of index `i` in `s`.
    pub open spec fn of(s: Seq<char>, i: int) -> Position {
        Position {
            offset: i as usize,
            line: line_at(s, i) as usize,
            column: column_at(s, i) as usize,
        }
    }
}

/// A cursor into an input text: the whole text, and the index (in
/// characters) from which the rest is still to be read.
#[derive(Clone, Copy, Debug)]
pub struct Span<'a> {
    pub src: &'a str,
    pub len: usize,
    pub offset: usize,
    pub line: usize,
    pub column: usize,
}

impl<'a> Span<'a> {
    pub open spec fn wf(self) -> bool {
        &&& self.len == self.src@.len()
        &&& self.len < usize::MAX
        &&& self.offset <= self.len
        &&& self.line == line_at(self.src@, self.offset as int)
        &&& self.column == column_at(self.src@, self.offset as int)
    }

    /// What is left to read.
    pub open spec fn rest(self) -> Seq<char> {
        self.src@.subrange(self.offset as int, self.len as int)
    }

    /// A cursor at the start of `src`.
    pub fn new(src: &'a str) -> (r: Span<'a>)
        requires
            src@.len() < usize::MAX,
        ensures
            r.wf(),
            r.src@ == src@,
            r.offset == 0,
    {
        Span { src, len: src.unicode_len(), offset: 0, line: 1, column: 1 }
    }

    /// The cursor moved on to index `to` of the same text.
    pub fn advance_to(&self, to: usize) -> (r: Span<'a>)
        requires
            self.wf(),
            self.offset <= to <= self.len,
        ensures
            r.wf(),
            r.src == self.src,
            r.offset == to,
    {
        let mut k: usize = self.offset;
        let mut line: usize = self.line;
        let mut column: usize = self.column;
        while k < to
            invariant
                self.wf(),
                self.offset <= k <= to <= self.len,
                line == line_at(self.src@, k as int),
                column == column_at(self.src@, k as int),
            decreases to - k,
        {
            proof {
                lemma_line_column_bounds(self.src@, k as int);
            }
            if self.src.get_char(k) == '\n' {
                line = line + 1;
                column = 1;
            } else {
                column = column + 1;
            }
            k = k + 1;
        }
        Span { src: self.src, len: self.len, offset: to, line, column }
    }

    /// The character at index `i` of the text.
    pub fn char_at(&self, i: usize) -> (c: char)
        requires
            self.wf(),
            i < self.len,
        ensures
            c == self.src@[i as int],
    {
        self.src.get_char(i)
    }

    /// The first index from `from` on that holds `c`, if there is one.
    pub fn find(&self, from: usize, c: char) -> (r: Option<usize>)
        requires
            self.wf(),
            from <= self.len,
        ensures
            match find_char(self.src@, from as int, c) {
                Some(k) => r == Some(k as usize),
                None => r is None,
            },
    {
        let mut k: usize = from;
        while k < self.len
            invariant
                self.wf(),
                from <= k <= self.len,
                find_char(self.src@, from as int, c) == find_char(self.src@, k as int, c),
            decreases self.len - k,
        {
            if self.src.get_char(k) == c {
                return Some(k);
            }
            k = k + 1;
        }
        None
    }

    /// The text from index `from` up to index `to`.
    pub fn slice(&self, from: usize, to: usize) -> (r: String)
        requires
            self.wf(),
            from <= to <= self.len,
        ensures
            r@ == self.src@.subrange(from as int, to as int),
    {
        self.src.substring_char(from, to).to_owned()
    }

    /// Where the cursor stands.
    pub fn position(&self) -> (r: Position)
        requires
            self.wf(),
        ensures
            r == Position::of(self.src@, self.offset as int),
    {
        proof {
            lemma_line_column_bounds(self.src@, self.offset as int);
        }
        Position { offset: self.offset, line: self.line, column: self.column }
    }

    /// What is left to read, as text.
    pub fn fragment(&self) -> (r: &'a str)
        requires
            self.wf(),
        ensures
            r@ == self.rest(),
    {
        self.src.substring_char(self.offset, self.len)
    }

    /// What is left to read, as an owned string.
    pub fn to_string(&self) -> (r: String)
        requires
            self.wf(),
        ensures
            r@ == self.rest(),
    {
        self.fragment().to_owned()
    }
}

} // verus!

//! A parser for PKGBUILD package descriptors.
//!
//! The input is read into an ordered sequence of tokens (comments,
//! assignments and function headers) that can be written back out as text;
//! [`PkgBuild`] reads the mandatory fields of a descriptor directly.
pub mod ast;
pub mod fields;

use vstd::prelude::*;
use vstd::string::*;

use ast::span::{Span, find_char, lemma_find_char};
use fields::{
    arch_key,
    arch_spec,
    blank_end,
    field_head,
    field_spec,
    lemma_single_quoted_end,
    pkgname_key,
    pkgname_list_spec,
    pkgname_spec,
    pkgrel_key,
    pkgver_key,
    quoted_list,
    quoted_tail,
    single_quoted_at,
    single_quoted_end,
    skip_blanks,
    strings_view,
    unquote,
    unquote_word,
    unquoted_words,
};

verus! {

/// The mandatory fields of a package descriptor.
#[derive(Debug, PartialEq)]
pub struct PkgBuild {
    pkgname: Vec<String>,
    pkgver: String,
    pkgrel: String,
    arch: Vec<String>,
}

/// The model of a [`PkgBuild`].
pub struct PkgBuildView {
    pub pkgname: Seq<Seq<char>>,
    pub pkgver: Seq<char>,
    pub pkgrel: Seq<char>,
    pub arch: Seq<Seq<char>>,
}

impl View for PkgBuild {
    type V = PkgBuildView;

    closed spec fn view(&self) -> PkgBuildView {
        PkgBuildView {
            pkgname: strings_view(self.pkgname@),
            pkgver: self.pkgver@,
            pkgrel: self.pkgrel@,
            arch: strings_view(self.arch@),
        }
    }
}

/// How many of the four fields are still to be read.
pub open spec fn missing(
    name: Option<Seq<Seq<char>>>,
    ver: Option<Seq<char>>,
    rel: Option<Seq<char>>,
    arch: Option<Seq<Seq<char>>>,
) -> int {
    (if name is None { 1int } else { 0 }) + (if ver is None { 1int } else { 0 }) + (if rel is None {
        1int
    } else {
        0
    }) + (if arch is None { 1int } else { 0 })
}

/// Reading the four fields in any order from `i`, each once: at each step
/// the first field still missing (pkgname, pkgver, pkgrel, arch) that can
/// be read there is taken. Where reading ends, and the fields; nothing where
/// a step finds none of the missing ones.
pub open spec fn fields_spec(
    s: Seq<char>,
    i: int,
    name: Option<Seq<Seq<char>>>,
    ver: Option<Seq<char>>,
    rel: Option<Seq<char>>,
    arch: Option<Seq<Seq<char>>>,
) -> Option<(int, PkgBuildView)>
    decreases missing(name, ver, rel, arch),
{
    if name is None && pkgname_spec(s, i) is Some {
        let (j, v) = pkgname_spec(s, i)->0;
        fields_spec(s, j, Some(v), ver, rel, arch)
    } else if ver is None && field_spec(s, i, pkgver_key()) is Some {
        let (j, v) = field_spec(s, i, pkgver_key())->0;
        fields_spec(s, j, name, Some(v), rel, arch)
    } else if rel is None && field_spec(s, i, pkgrel_key()) is Some {
        let (j, v) = field_spec(s, i, pkgrel_key())->0;
        fields_spec(s, j, name, ver, Some(v), arch)
    } else if arch is None && arch_spec(s, i) is Some {
        let (j, v) = arch_spec(s, i)->0;
        fields_spec(s, j, name, ver, rel, Some(v))
    } else if name is Some && ver is Some && rel is Some && arch is Some {
        Some(
            (
                i,
                PkgBuildView {
                    pkgname: name->0,
                    pkgver: ver->0,
                    pkgrel: rel->0,
                    arch: arch->0,
                },
            ),
        )
    } else {
        None
    }
}

pub open spec fn strings_opt(o: Option<Vec<String>>) -> Option<Seq<Seq<char>>> {
    match o {
        Some(v) => Some(strings_view(v@)),
        None => None,
    }
}

pub open spec fn string_opt(o: Option<String>) -> Option<Seq<char>> {
    match o {
        Some(v) => Some(v@),
        None => None,
    }
}

/// `r` is what a field reader returned from `input`, and `m` what it owes:
/// the text after the field and the value read.
pub open spec fn read_as<'a, T: View>(
    input: &'a str,
    r: Option<(&'a str, T)>,
    m: Option<(int, T::V)>,
) -> bool {
    match (r, m) {
        (None, None) => true,
        (Some((rest, v)), Some((e, w))) => rest@ == input@.subrange(e, input@.len() as int) && v@
            == w,
        _ => false,
    }
}

/// `name = value` and a line break at index `i`.
fn field_at(t: &Span, i: usize, name: &str) -> (r: Option<(usize, String)>)
    requires
        t.wf(),
        i <= t.len,
    ensures
        match field_spec(t.src@, i as int, name@) {
            Some((e, v)) => r matches Some((e2, v2)) && e2 == e && v2@ == v && e <= t.len,
            None => r is None,
        },
{
    let v = match field_head(t, i, name) {
        Some(v) => v,
        None => {
            return None;
        },
    };
    proof {
        lemma_find_char(t.src@, v as int, '\n');
    }
    match t.find(v, '\n') {
        Some(n) => Some((n + 1, t.slice(v, n))),
        None => None,
    }
}

/// A list of names in parentheses at index `v`, up to its line break.
fn pkgname_multiple_at(t: &Span, v: usize) -> (r: Option<(usize, Vec<String>)>)
    requires
        t.wf(),
        v <= t.len,
    ensures
        match pkgname_list_spec(t.src@, v as int) {
            Some((e, ns)) => r matches Some((e2, ns2)) && e2 == e && strings_view(ns2@) == ns && e
                <= t.len,
            None => r is None,
        },
{
    if !(v < t.len && t.char_at(v) == '(') {
        return None;
    }
    proof {
        lemma_find_char(t.src@, v + 1, ')');
    }
    let c = match t.find(v + 1, ')') {
        Some(c) => c,
        None => {
            return None;
        },
    };
    let b = skip_blanks(t, c + 1);
    if !(b < t.len && t.char_at(b) == '\n') {
        return None;
    }
    let inner = t.slice(v + 1, c);
    Some((b + 1, unquoted_words(inner.as_str())))
}

/// `pkgname=` and one or more names at index `i`.
fn pkgname_at(t: &Span, i: usize) -> (r: Option<(usize, Vec<String>)>)
    requires
        t.wf(),
        i <= t.len,
    ensures
        match pkgname_spec(t.src@, i as int) {
            Some((e, ns)) => r matches Some((e2, ns2)) && e2 == e && strings_view(ns2@) == ns && e
                <= t.len,
            None => r is None,
        },
{
    proof {
        reveal_strlit("pkgname");
        assert("pkgname"@ =~= pkgname_key());
    }
    let v = match field_head(t, i, "pkgname") {
        Some(v) => v,
        None => {
            return None;
        },
    };
    match pkgname_multiple_at(t, v) {
        Some(r) => Some(r),
        None => {
            proof {
                lemma_find_char(t.src@, v as int, '\n');
            }
            match t.find(v, '\n') {
                Some(n) => {
                    let value = t.slice(v, n);
                    let name = unquote_word(value.as_str());
                    let names = vec![name];
                    proof {
                        assert(strings_view(names@) =~= seq![unquote(t.src@.subrange(v as int, n as int))]);
                    }
                    Some((n + 1, names))
                },
                None => None,
            }
        },
    }
}

/// The single-quoted names at the start of `w`, one space between each two.
fn quoted_names(w: &str) -> (r: Option<Vec<String>>)
    requires
        w@.len() < usize::MAX,
    ensures
        match quoted_list(w@) {
            Some(ns) => r matches Some(ns2) && strings_view(ns2@) == ns,
            None => r is None,
        },
{
    let t = Span::new(w);
    let ghost s = w@;
    let first = match single_quoted_at(&t, 0) {
        Some(e) => e,
        None => {
            return None;
        },
    };
    proof {
        lemma_single_quoted_end(s, 0);
    }
    let mut names: Vec<String> = vec![t.slice(1, first - 1)];
    let mut k: usize = first;
    proof {
        assert(strings_view(names@) =~= seq![s.subrange(1, first - 1)]);
    }
    loop
        invariant
            t.wf(),
            t.src@ == s,
            s == w@,
            k <= t.len,
            quoted_list(s) == Some(strings_view(names@) + quoted_tail(s, k as int)),
        ensures
            quoted_list(s) == Some(strings_view(names@) + quoted_tail(s, k as int)),
            quoted_tail(s, k as int).len() == 0,
        decreases t.len - k,
    {
        if !(k < t.len && t.char_at(k) == ' ') {
            break;
        }
        match single_quoted_at(&t, k + 1) {
            Some(e) => {
                proof {
                    lemma_single_quoted_end(s, k + 1);
                }
                let name = t.slice(k + 2, e - 1);
                let ghost old_names = names@;
                names.push(name);
                proof {
                    let rest = quoted_tail(s, e as int);
                    assert(strings_view(names@) =~= strings_view(old_names).push(name@));
                    assert(strings_view(old_names) + (seq![name@] + rest) =~= strings_view(names@)
                        + rest);
                }
                k = e;
            },
            None => {
                break;
            },
        }
    }
    proof {
        assert(quoted_tail(s, k as int) =~= seq![]);
        assert(strings_view(names@) + seq![] =~= strings_view(names@));
    }
    Some(names)
}

/// `arch=` and a list of single-quoted names in parentheses at index `i`,
/// up to its line break.
fn arch_at(t: &Span, i: usize) -> (r: Option<(usize, Vec<String>)>)
    requires
        t.wf(),
        i <= t.len,
    ensures
        match arch_spec(t.src@, i as int) {
            Some((e, ns)) => r matches Some((e2, ns2)) && e2 == e && strings_view(ns2@) == ns && e
                <= t.len,
            None => r is None,
        },
{
    proof {
        reveal_strlit("arch");
        assert("arch"@ =~= arch_key());
    }
    let v = match field_head(t, i, "arch") {
        Some(v) => v,
        None => {
            return None;
        },
    };
    if !(v < t.len && t.char_at(v) == '(') {
        return None;
    }
    proof {
        lemma_find_char(t.src@, v + 1, ')');
    }
    let c = match t.find(v + 1, ')') {
        Some(c) => c,
        None => {
            return None;
        },
    };
    let inner = t.slice(v + 1, c);
    let names = match quoted_names(inner.as_str()) {
        Some(names) => names,
        None => {
            return None;
        },
    };
    let b = skip_blanks(t, c + 1);
    if b < t.len && t.char_at(b) == '\n' {
        Some((b + 1, names))
    } else {
        None
    }
}

/// The text of `t` from index `e` on.
fn rest_from<'a>(t: &Span<'a>, e: usize) -> (r: &'a str)
    requires
        t.wf(),
        e <= t.len,
    ensures
        r@ == t.src@.subrange(e as int, t.len as int),
{
    t.src.substring_char(e, t.len)
}

impl PkgBuild {
    /// Reads the four mandatory fields, in any order, each once.
    pub fn parse(input: &str) -> (r: Option<(&str, PkgBuild)>)
        requires
            input@.len() < usize::MAX,
        ensures
            read_as(input, r, fields_spec(input@, 0, None, None, None, None)),
    {
        let t = Span::new(input);
        let ghost s = input@;
        let mut i: usize = 0;
        let mut name: Option<Vec<String>> = None;
        let mut ver: Option<String> = None;
        let mut rel: Option<String> = None;
        let mut arch: Option<Vec<String>> = None;
        proof {
            reveal_strlit("pkgver");
            reveal_strlit("pkgrel");
            assert("pkgver"@ =~= pkgver_key());
            assert("pkgrel"@ =~= pkgrel_key());
        }
        loop
            invariant
                t.wf(),
                t.src@ == s,
                s == input@,
                i <= t.len,
                "pkgver"@ == pkgver_key(),
                "pkgrel"@ == pkgrel_key(),
                fields_spec(s, 0, None, None, None, None) == fields_spec(
                    s,
                    i as int,
                    strings_opt(name),
                    string_opt(ver),
                    string_opt(rel),
                    strings_opt(arch),
                ),
            decreases missing(strings_opt(name), string_opt(ver), string_opt(rel), strings_opt(arch)),
        {
            if name.is_none() {
                if let Some((e, v)) = pkgname_at(&t, i) {
                    i = e;
                    name = Some(v);
                    continue;
                }
            }
            if ver.is_none() {
                if let Some((e, v)) = field_at(&t, i, "pkgver") {
                    i = e;
                    ver = Some(v);
                    continue;
                }
            }
            if rel.is_none() {
                if let Some((e, v)) = field_at(&t, i, "pkgrel") {
                    i = e;
                    rel = Some(v);
                    continue;
                }
            }
            if arch.is_none() {
                if let Some((e, v)) = arch_at(&t, i) {
                    i = e;
                    arch = Some(v);
                    continue;
                }
            }
            return match (name, ver, rel, arch) {
                (Some(pkgname), Some(pkgver), Some(pkgrel), Some(arch)) => Some(
                    (rest_from(&t, i), PkgBuild { pkgname, pkgver, pkgrel, arch }),
                ),
                _ => None,
            };
        }
    }

    fn parse_field<'a>(input: &'a str, field: &str) -> (r: Option<(&'a str, String)>)
        requires
            input@.len() < usize::MAX,
        ensures
            read_as(input, r, field_spec(input@, 0, field@)),
    {
        let t = Span::new(input);
        match field_at(&t, 0, field) {
            Some((e, v)) => Some((rest_from(&t, e), v)),
            None => None,
        }
    }

    /// Reads `pkgname=` and one name, quoted or not, or a list of them in
    /// parentheses.
    pub fn parse_pkgname(input: &str) -> (r: Option<(&str, Vec<String>)>)
        requires
            input@.len() < usize::MAX,
        ensures
            match pkgname_spec(input@, 0) {
                Some((e, ns)) => r matches Some((rest, v)) && rest@ == input@.subrange(
                    e,
                    input@.len() as int,
                ) && strings_view(v@) == ns,
                None => r is None,
            },
    {
        let t = Span::new(input);
        match pkgname_at(&t, 0) {
            Some((e, v)) => Some((rest_from(&t, e), v)),
            None => None,
        }
    }

    /// Reads `pkgver=` and the rest of the line.
    pub fn parse_pkgver(input: &str) -> (r: Option<(&str, String)>)
        requires
            input@.len() < usize::MAX,
        ensures
            read_as(input, r, field_spec(input@, 0, pkgver_key())),
    {
        proof {
            reveal_strlit("pkgver");
            assert("pkgver"@ =~= pkgver_key());
        }
        Self::parse_field(input, "pkgver")
    }

    /// Reads `pkgrel=` and the rest of the line.
    pub fn parse_pkgrel(input: &str) -> (r: Option<(&str, String)>)
        requires
            input@.len() < usize::MAX,
        ensures
            read_as(input, r, field_spec(input@, 0, pkgrel_key())),
    {
        proof {
            reveal_strlit("pkgrel");
            assert("pkgrel"@ =~= pkgrel_key());
        }
        Self::parse_field(input, "pkgrel")
    }

    /// Reads `arch=` and a list of single-quoted names in parentheses.
    pub fn parse_arch(input: &str) -> (r: Option<(&str, Vec<String>)>)
        requires
            input@.len() < usize::MAX,
        ensures
            match arch_spec(input@, 0) {
                Some((e, ns)) => r matches Some((rest, v)) && rest@ == input@.subrange(
                    e,
                    input@.len() as int,
                ) && strings_view(v@) == ns,
                None => r is None,
            },
    {
        let t = Span::new(input);
        match arch_at(&t, 0) {
            Some((e, v)) => Some((rest_from(&t, e), v)),
            None => None,
        }
    }

    /// The package names.
    pub fn pkgname(&self) -> (r: &Vec<String>)
        ensures
            strings_view(r@) == self@.pkgname,
    {
        &self.pkgname
    }

    /// The package version.
    pub fn pkgver(&self) -> (r: &String)
        ensures
            r@ == self@.pkgver,
    {
        &self.pkgver
    }

    /// The release number.
    pub fn pkgrel(&self) -> (r: &String)
        ensures
            r@ == self@.pkgrel,
    {
        &self.pkgrel
    }

    /// The architectures.
    pub fn arch(&self) -> (r: &Vec<String>)
        ensures
            strings_view(r@) == self@.arch,
    {
        &self.arch
    }
}

} // verus!

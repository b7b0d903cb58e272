use vstd::prelude::*;

use crate::path::{split_dots, split_path, tokens_of};

verus! {

/// A part of a template: text that passes through, or the path of a value to
/// put in its place.
pub enum Part {
    Literal(Seq<char>),
    Path(Seq<Seq<char>>),
}

/// An ASCII whitespace character: space, tab, line feed, form feed or
/// carriage return.
pub open spec fn is_blank(c: char) -> bool {
    c == ' ' || c == '\t' || c == '\n' || c == '\x0C' || c == '\r'
}

/// A character that may stand inside a placeholder: anything but a brace or
/// whitespace.
pub open spec fn in_placeholder(c: char) -> bool {
    c != '{' && c != '}' && !is_blank(c)
}

/// The first index at or after `k` whose character may not stand inside a
/// placeholder; the length when there is none.
pub open spec fn first_stop(t: Seq<char>, k: int) -> int
    decreases t.len() - k,
{
    if k < 0 || k >= t.len() {
        t.len() as int
    } else if !in_placeholder(t[k]) {
        k
    } else {
        first_stop(t, k + 1)
    }
}

/// Whether a placeholder `{path}` starts at `p`: an opening brace, one or more
/// characters that are neither braces nor whitespace, a closing brace.
pub open spec fn placeholder_at(t: Seq<char>, p: int) -> bool {
    let q = first_stop(t, p + 1);
    0 <= p < t.len() && t[p] == '{' && q < t.len() && t[q] == '}' && q > p + 1
}

/// The literal text from `a` to `b`, if there is any.
pub open spec fn literal_between(t: Seq<char>, a: int, b: int) -> Seq<Part> {
    if a < b {
        seq![Part::Literal(t.subrange(a, b))]
    } else {
        Seq::empty()
    }
}

/// The parts of `t` from `p` on, the current literal having started at
/// `lit`: placeholders are taken from left to right, never overlapping.
pub open spec fn scan(t: Seq<char>, lit: int, p: int) -> Seq<Part>
    decreases t.len() - p,
{
    if p < 0 || p >= t.len() {
        literal_between(t, lit, t.len() as int)
    } else if placeholder_at(t, p) {
        let q = first_stop(t, p + 1);
        literal_between(t, lit, p).push(Part::Path(split_dots(t.subrange(p + 1, q)))) + scan(
            t,
            q + 1,
            q + 1,
        )
    } else {
        scan(t, lit, p + 1)
    }
}

/// The parts of a template text.
pub open spec fn template_parts(t: Seq<char>) -> Seq<Part> {
    scan(t, 0, 0)
}

/// The paths that the parts hold, in order.
pub open spec fn paths_of(parts: Seq<Part>) -> Seq<Seq<Seq<char>>>
    decreases parts.len(),
{
    if parts.len() == 0 {
        Seq::empty()
    } else {
        match parts.last() {
            Part::Path(p) => paths_of(parts.drop_last()).push(p),
            Part::Literal(_) => paths_of(parts.drop_last()),
        }
    }
}

/// How many paths the parts hold.
pub open spec fn path_count(parts: Seq<Part>) -> nat {
    paths_of(parts).len()
}

/// The token lists of a list of paths.
pub open spec fn path_views(v: Seq<Vec<String>>) -> Seq<Seq<Seq<char>>> {
    v.map_values(|p: Vec<String>| tokens_of(p@))
}

/// The text put in place of the `j`-th path: its value, or nothing.
pub open spec fn value_text(values: Seq<Option<String>>, j: int) -> Seq<char> {
    if 0 <= j < values.len() {
        match values[j] {
            Some(v) => v@,
            None => Seq::empty(),
        }
    } else {
        Seq::empty()
    }
}

/// The parts rendered: literals as they are, the `j`-th path as the `j`-th
/// value.
pub open spec fn fill_spec(parts: Seq<Part>, values: Seq<Option<String>>) -> Seq<char>
    decreases parts.len(),
{
    if parts.len() == 0 {
        Seq::empty()
    } else {
        fill_spec(parts.drop_last(), values) + match parts.last() {
            Part::Literal(l) => l,
            Part::Path(_) => value_text(values, path_count(parts.drop_last()) as int),
        }
    }
}

enum Token {
    Literal(String),
    IqPath(Vec<String>),
}

impl View for Token {
    type V = Part;

    closed spec fn view(&self) -> Part {
        match self {
            Token::Literal(s) => Part::Literal(s@),
            Token::IqPath(p) => Part::Path(tokens_of(p@)),
        }
    }
}

/// A template: text with `{path}` placeholders, each to be replaced by the
/// display text of the value at that path.
pub struct Template {
    tokens: Vec<Token>,
}

impl View for Template {
    type V = Seq<Part>;

    closed spec fn view(&self) -> Seq<Part> {
        self.tokens@.map_values(|k: Token| k@)
    }
}

/// The first index at or after `k` whose character may not stand inside a
/// placeholder.
fn find_stop(t: &str, n: usize, k: usize) -> (r: usize)
    requires
        n == t@.len(),
        k <= n,
    ensures
        r as int == first_stop(t@, k as int),
{
    let mut i = k;
    while i < n
        invariant
            n == t@.len(),
            k <= i <= n,
            first_stop(t@, k as int) == first_stop(t@, i as int),
        decreases n - i,
    {
        let c = t.get_char(i);
        if c == '{' || c == '}' || c == ' ' || c == '\t' || c == '\n' || c == '\x0C' || c == '\r' {
            return i;
        }
        i = i + 1;
    }
    i
}

fn push_literal(tokens: &mut Vec<Token>, t: &str, a: usize, b: usize)
    requires
        a <= b <= t@.len(),
    ensures
        final(tokens)@.map_values(|k: Token| k@) == old(tokens)@.map_values(|k: Token| k@)
            + literal_between(t@, a as int, b as int),
{
    if a < b {
        tokens.push(Token::Literal(String::from_str(t.substring_char(a, b))));
        assert(final(tokens)@.map_values(|k: Token| k@) =~= old(tokens)@.map_values(|k: Token| k@)
            + literal_between(t@, a as int, b as int));
    } else {
        assert(old(tokens)@.map_values(|k: Token| k@) + literal_between(t@, a as int, b as int)
            =~= old(tokens)@.map_values(|k: Token| k@));
    }
}

impl Template {
    /// Cuts a template text into literal text and placeholders.
    pub fn new(template: &str) -> (r: Template)
        ensures
            r@ == template_parts(template@),
    {
        let n = template.unicode_len();
        let mut tokens: Vec<Token> = Vec::new();
        let mut lit: usize = 0;
        let mut p: usize = 0;
        while p < n
            invariant
                n == template@.len(),
                lit <= p <= n,
                tokens@.map_values(|k: Token| k@) + scan(template@, lit as int, p as int)
                    == template_parts(template@),
            decreases n - p,
        {
            if template.get_char(p) == '{' {
                let q = find_stop(template, n, p + 1);
                if q < n && q > p + 1 && template.get_char(q) == '}' {
                    let ghost before = tokens@.map_values(|k: Token| k@);
                    push_literal(&mut tokens, template, lit, p);
                    let path = split_path(template.substring_char(p + 1, q));
                    let ghost mid = tokens@.map_values(|k: Token| k@);
                    tokens.push(Token::IqPath(path));
                    assert(tokens@.map_values(|k: Token| k@) =~= mid.push(
                        Part::Path(split_dots(template@.subrange(p + 1, q as int))),
                    ));
                    assert(tokens@.map_values(|k: Token| k@) + scan(
                        template@,
                        q + 1,
                        q + 1,
                    ) =~= before + scan(template@, lit as int, p as int));
                    lit = q + 1;
                    p = q + 1;
                } else {
                    p = p + 1;
                }
            } else {
                p = p + 1;
            }
        }
        push_literal(&mut tokens, template, lit, n);
        assert(tokens@.map_values(|k: Token| k@) =~= template_parts(template@));
        Template { tokens }
    }

    /// The paths of the placeholders, in order.
    pub fn paths(&self) -> (r: Vec<Vec<String>>)
        ensures
            path_views(r@) == paths_of(self@),
    {
        let mut r: Vec<Vec<String>> = Vec::new();
        let mut i: usize = 0;
        while i < self.tokens.len()
            invariant
                i <= self@.len(),
                self@.len() == self.tokens@.len(),
                path_views(r@) == paths_of(self@.subrange(0, i as int)),
            decreases self.tokens@.len() - i,
        {
            proof {
                let s = self@.subrange(0, i + 1);
                assert(s.drop_last() =~= self@.subrange(0, i as int));
                assert(s.last() == self@[i as int]);
            }
            match &self.tokens[i] {
                Token::IqPath(p) => {
                    let ghost before = r@;
                    r.push(p.clone());
                    proof {
                        assert(path_views(r@) =~= path_views(before).push(tokens_of(p@)));
                    }
                },
                Token::Literal(_) => {},
            }
            i = i + 1;
        }
        proof {
            assert(self@.subrange(0, i as int) =~= self@);
        }
        r
    }

    /// The template with its `j`-th placeholder replaced by the `j`-th value,
    /// and by nothing where that value is absent.
    pub fn fill(&self, values: &Vec<Option<String>>) -> (r: String)
        ensures
            r@ == fill_spec(self@, values@),
    {
        let mut out = String::new();
        let mut j: usize = 0;
        let mut i: usize = 0;
        while i < self.tokens.len()
            invariant
                i <= self@.len(),
                self@.len() == self.tokens@.len(),
                j == path_count(self@.subrange(0, i as int)),
                j <= i,
                out@ == fill_spec(self@.subrange(0, i as int), values@),
            decreases self.tokens@.len() - i,
        {
            proof {
                let s = self@.subrange(0, i + 1);
                assert(s.drop_last() =~= self@.subrange(0, i as int));
                assert(s.last() == self@[i as int]);
            }
            match &self.tokens[i] {
                Token::Literal(l) => {
                    out.append(l.as_str());
                },
                Token::IqPath(_) => {
                    if j < values.len() {
                        match &values[j] {
                            Some(v) => out.append(v.as_str()),
                            None => {
                                assert(out@ + Seq::<char>::empty() =~= out@);
                            },
                        }
                    } else {
                        assert(out@ + Seq::<char>::empty() =~= out@);
                    }
                    j = j + 1;
                },
            }
            i = i + 1;
        }
        proof {
            assert(self@.subrange(0, i as int) =~= self@);
        }
        out
    }
}

} // verus!

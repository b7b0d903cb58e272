use vstd::prelude::*;

verus! {

/// The tokens that a list of strings stands for.
pub open spec fn tokens_of(v: Seq<String>) -> Seq<Seq<char>> {
    v.map_values(|k: String| k@)
}

/// The tokens that a list of string slices stands for.
pub open spec fn str_tokens_of(v: Seq<&str>) -> Seq<Seq<char>> {
    v.map_values(|k: &str| k@)
}

/// A dotted path cut at every `.`: `"a.b"` gives `a` and `b`, `""` gives one
/// empty token, `"a."` gives `a` and an empty token.
pub open spec fn split_dots(s: Seq<char>) -> Seq<Seq<char>>
    decreases s.len(),
{
    if s.len() == 0 {
        seq![Seq::<char>::empty()]
    } else {
        let rest = split_dots(s.drop_last());
        if s.last() == '.' {
            rest.push(Seq::<char>::empty())
        } else {
            rest.update(rest.len() - 1, rest.last().push(s.last()))
        }
    }
}

/// A dotted path always has at least one token.
pub proof fn lemma_split_dots_nonempty(s: Seq<char>)
    ensures
        split_dots(s).len() >= 1,
    decreases s.len(),
{
    if s.len() > 0 {
        lemma_split_dots_nonempty(s.drop_last());
    }
}

/// A path without a dot is a single token, itself.
pub proof fn lemma_split_dots_no_dot(s: Seq<char>)
    requires
        forall|i: int| 0 <= i < s.len() ==> s[i] != '.',
    ensures
        split_dots(s) == seq![s],
    decreases s.len(),
{
    if s.len() > 0 {
        lemma_split_dots_no_dot(s.drop_last());
        assert(s.drop_last().push(s.last()) =~= s);
        assert(split_dots(s) =~= seq![s]);
    } else {
        assert(s =~= Seq::<char>::empty());
    }
}

/// Cuts a dotted path into its tokens.
pub fn split_path(s: &str) -> (r: Vec<String>)
    ensures
        tokens_of(r@) == split_dots(s@),
{
    let n = s.unicode_len();
    let mut done: Vec<String> = Vec::new();
    let mut start: usize = 0;
    let mut i: usize = 0;
    proof {
        assert(s@.subrange(0, 0) =~= Seq::<char>::empty());
        assert(tokens_of(done@) =~= Seq::<Seq<char>>::empty());
        assert(s@.subrange(0, 0) =~= Seq::<char>::empty());
    }
    while i < n
        invariant
            n == s@.len(),
            start <= i <= n,
            split_dots(s@.subrange(0, i as int)) == tokens_of(done@).push(
                s@.subrange(start as int, i as int),
            ),
        decreases n - i,
    {
        let c = s.get_char(i);
        proof {
            let p = s@.subrange(0, i + 1);
            assert(p.drop_last() =~= s@.subrange(0, i as int));
            assert(p.last() == c);
        }
        if c == '.' {
            let ghost before = done@;
            let tok = String::from_str(s.substring_char(start, i));
            done.push(tok);
            start = i + 1;
            proof {
                assert(tokens_of(done@) =~= tokens_of(before).push(tok@));
                assert(s@.subrange(start as int, i + 1) =~= Seq::<char>::empty());
            }
        } else {
            proof {
                assert(s@.subrange(start as int, i + 1) =~= s@.subrange(start as int, i as int).push(c));
            }
        }
        i = i + 1;
    }
    let ghost before = done@;
    let tok = String::from_str(s.substring_char(start, n));
    done.push(tok);
    proof {
        assert(tokens_of(done@) =~= tokens_of(before).push(tok@));
        assert(s@.subrange(0, n as int) =~= s@);
    }
    done
}

/// A path defining a deep destination into a value: an ordered list of
/// tokens, each a field name, a map key or a sequence index.
///
/// A dotted string is cut at every `.`; a list of strings is taken token for
/// token. So `""` is one empty token, while an empty list has no token.
pub trait IqPath {
    /// The tokens of the path, in the order of descent.
    spec fn tokens(&self) -> Seq<Seq<char>>;

    /// The canonical parsed form of the path, handy when one path is used
    /// many times.
    fn iq_path(&self) -> (r: Vec<String>)
        ensures
            tokens_of(r@) == self.tokens(),
    ;
}

/// Copies a list of string slices into owned tokens.
fn owned_tokens(v: &[&str]) -> (r: Vec<String>)
    ensures
        tokens_of(r@) == str_tokens_of(v@),
{
    let mut r: Vec<String> = Vec::new();
    let mut i: usize = 0;
    while i < v.len()
        invariant
            i <= v@.len(),
            tokens_of(r@) == str_tokens_of(v@.subrange(0, i as int)),
        decreases v@.len() - i,
    {
        let ghost before = r@;
        r.push(String::from_str(v[i]));
        proof {
            assert(tokens_of(r@) =~= tokens_of(before).push(v@[i as int]@));
            assert(str_tokens_of(v@.subrange(0, i + 1)) =~= str_tokens_of(
                v@.subrange(0, i as int),
            ).push(v@[i as int]@));
        }
        i = i + 1;
    }
    proof {
        assert(v@.subrange(0, v@.len() as int) =~= v@);
    }
    r
}

/// Copies a list of strings into owned tokens.
fn cloned_tokens(v: &[String]) -> (r: Vec<String>)
    ensures
        tokens_of(r@) == tokens_of(v@),
{
    let mut r: Vec<String> = Vec::new();
    let mut i: usize = 0;
    while i < v.len()
        invariant
            i <= v@.len(),
            tokens_of(r@) == tokens_of(v@.subrange(0, i as int)),
        decreases v@.len() - i,
    {
        let ghost before = r@;
        r.push(v[i].clone());
        proof {
            assert(tokens_of(r@) =~= tokens_of(before).push(v@[i as int]@));
            assert(tokens_of(v@.subrange(0, i + 1)) =~= tokens_of(v@.subrange(0, i as int)).push(
                v@[i as int]@,
            ));
        }
        i = i + 1;
    }
    proof {
        assert(v@.subrange(0, v@.len() as int) =~= v@);
    }
    r
}

impl<'a> IqPath for &'a str {
    open spec fn tokens(&self) -> Seq<Seq<char>> {
        split_dots((*self)@)
    }

    fn iq_path(&self) -> (r: Vec<String>) {
        split_path(*self)
    }
}

impl<'a> IqPath for &'a [&'a str] {
    open spec fn tokens(&self) -> Seq<Seq<char>> {
        str_tokens_of((*self)@)
    }

    fn iq_path(&self) -> (r: Vec<String>) {
        owned_tokens(*self)
    }
}

impl<'a> IqPath for Vec<&'a str> {
    open spec fn tokens(&self) -> Seq<Seq<char>> {
        str_tokens_of(self@)
    }

    fn iq_path(&self) -> (r: Vec<String>) {
        owned_tokens(self.as_slice())
    }
}

impl<'a> IqPath for &'a Vec<&'a str> {
    open spec fn tokens(&self) -> Seq<Seq<char>> {
        str_tokens_of((*self)@)
    }

    fn iq_path(&self) -> (r: Vec<String>) {
        owned_tokens(self.as_slice())
    }
}

impl<'a> IqPath for &'a [String] {
    open spec fn tokens(&self) -> Seq<Seq<char>> {
        tokens_of((*self)@)
    }

    fn iq_path(&self) -> (r: Vec<String>) {
        cloned_tokens(*self)
    }
}

impl IqPath for Vec<String> {
    open spec fn tokens(&self) -> Seq<Seq<char>> {
        tokens_of(self@)
    }

    fn iq_path(&self) -> (r: Vec<String>) {
        cloned_tokens(self.as_slice())
    }
}

impl<'a> IqPath for &'a Vec<String> {
    open spec fn tokens(&self) -> Seq<Seq<char>> {
        tokens_of((*self)@)
    }

    fn iq_path(&self) -> (r: Vec<String>) {
        cloned_tokens(self.as_slice())
    }
}

} // verus!

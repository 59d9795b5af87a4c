//! Splitting text: a command line into whitespace-separated tokens, and a
//! path into slash-separated segments. Empty pieces are dropped, so leading,
//! trailing and repeated separators carry no meaning.

use vstd::prelude::*;

verus! {

/// A character that separates tokens on a command line.
pub open spec fn is_space(c: char) -> bool {
    c == ' ' || c == '\t' || c == '\r' || c == '\n'
}

/// A character that separates path segments.
pub open spec fn is_slash(c: char) -> bool {
    c == '/'
}

/// The whitespace separator as a function value.
pub open spec fn space_sep() -> spec_fn(char) -> bool {
    |c: char| is_space(c)
}

/// The slash separator as a function value.
pub open spec fn slash_sep() -> spec_fn(char) -> bool {
    |c: char| is_slash(c)
}

/// The separator used by the executable splitter: slashes for paths,
/// whitespace for command lines.
pub open spec fn sep_of(slash: bool) -> spec_fn(char) -> bool {
    if slash {
        slash_sep()
    } else {
        space_sep()
    }
}

/// Length of the maximal separator-free prefix of `s`.
pub open spec fn token_len(s: Seq<char>, sep: spec_fn(char) -> bool) -> int
    decreases s.len(),
{
    if s.len() == 0 || sep(s[0]) {
        0
    } else {
        1 + token_len(s.skip(1), sep)
    }
}

pub proof fn lemma_token_len_bounds(s: Seq<char>, sep: spec_fn(char) -> bool)
    ensures
        0 <= token_len(s, sep) <= s.len(),
    decreases s.len(),
{
    if s.len() != 0 && !sep(s[0]) {
        lemma_token_len_bounds(s.skip(1), sep);
    }
}

/// `s` split at separator characters, with empty pieces dropped.
pub open spec fn split_on(s: Seq<char>, sep: spec_fn(char) -> bool) -> Seq<Seq<char>>
    decreases s.len(),
    via split_on_decreases
{
    if s.len() == 0 {
        Seq::empty()
    } else if sep(s[0]) {
        split_on(s.skip(1), sep)
    } else {
        seq![s.take(token_len(s, sep))] + split_on(s.skip(token_len(s, sep)), sep)
    }
}

#[via_fn]
proof fn split_on_decreases(s: Seq<char>, sep: spec_fn(char) -> bool) {
    lemma_token_len_bounds(s, sep);
    if s.len() != 0 && !sep(s[0]) {
        lemma_token_len_bounds(s.skip(1), sep);
    }
}

/// Tokens of a command line.
pub open spec fn tokens(s: Seq<char>) -> Seq<Seq<char>> {
    split_on(s, space_sep())
}

/// Segments of a slash-delimited path.
pub open spec fn segments(s: Seq<char>) -> Seq<Seq<char>> {
    split_on(s, slash_sep())
}

/// The last segment of a path: its basename.
pub open spec fn basename(s: Seq<char>) -> Seq<char> {
    segments(s).last()
}

/// A prefix of non-separator characters followed by a separator or the end
/// of the text pins `token_len` down exactly.
proof fn lemma_token_len_is(s: Seq<char>, sep: spec_fn(char) -> bool, n: int)
    requires
        0 <= n <= s.len(),
        forall|k: int| 0 <= k < n ==> !sep(#[trigger] s[k]),
        n == s.len() || sep(s[n]),
    ensures
        token_len(s, sep) == n,
    decreases n,
{
    if n > 0 {
        lemma_token_len_is(s.skip(1), sep, n - 1);
    }
}

fn is_sep_exec(c: char, slash: bool) -> (r: bool)
    ensures
        r == sep_of(slash)(c),
{
    if slash {
        c == '/'
    } else {
        c == ' ' || c == '\t' || c == '\r' || c == '\n'
    }
}

/// Splits `s` at the separator selected by `slash`, dropping empty pieces.
fn split_core(s: &str, slash: bool) -> (r: Vec<String>)
    ensures
        r.deep_view() == split_on(s@, sep_of(slash)),
{
    let ghost sep = sep_of(slash);
    let n = s.unicode_len();
    let mut out: Vec<String> = Vec::new();
    let mut i: usize = 0;
    proof {
        assert(out.deep_view() =~= Seq::<Seq<char>>::empty());
        assert(s@.skip(0) =~= s@);
        assert(Seq::<Seq<char>>::empty() + split_on(s@, sep) =~= split_on(s@, sep));
    }
    while i < n
        invariant
            n == s@.len(),
            i <= n,
            split_on(s@, sep) == out.deep_view() + split_on(s@.skip(i as int), sep),
            sep == sep_of(slash),
        decreases n - i,
    {
        let c = s.get_char(i);
        if is_sep_exec(c, slash) {
            proof {
                assert(s@.skip(i as int).skip(1) =~= s@.skip(i + 1));
            }
            i = i + 1;
        } else {
            let mut j: usize = i + 1;
            while j < n && !is_sep_exec(s.get_char(j), slash)
                invariant
                    n == s@.len(),
                    i < j <= n,
                    forall|k: int| i <= k < j ==> !sep(#[trigger] s@[k]),
                    sep == sep_of(slash),
                decreases n - j,
            {
                j = j + 1;
            }
            let tok = s.substring_char(i, j).to_owned();
            let ghost out0 = out.deep_view();
            out.push(tok);
            proof {
                let suf = s@.skip(i as int);
                assert forall|k: int| 0 <= k < j - i implies !sep(#[trigger] suf[k]) by {
                    assert(suf[k] == s@[i + k]);
                }
                if j < n {
                    assert(sep(suf[j - i]));
                }
                lemma_token_len_is(suf, sep, j - i);
                assert(suf.take(j - i) =~= s@.subrange(i as int, j as int));
                assert(suf.skip(j - i) =~= s@.skip(j as int));
                assert(out.deep_view() =~= out0.push(tok@));
                assert(out0 + (seq![tok@] + split_on(s@.skip(j as int), sep))
                    =~= out0.push(tok@) + split_on(s@.skip(j as int), sep));
            }
            i = j;
        }
    }
    proof {
        assert(s@.skip(n as int) =~= Seq::<char>::empty());
        assert(out.deep_view() + Seq::<Seq<char>>::empty() =~= out.deep_view());
    }
    out
}

/// The whitespace-separated tokens of a command line.
pub fn tokenize(s: &str) -> (r: Vec<String>)
    ensures
        r.deep_view() == tokens(s@),
{
    split_core(s, false)
}

/// The slash-separated segments of a path.
pub fn split_path(s: &str) -> (r: Vec<String>)
    ensures
        r.deep_view() == segments(s@),
{
    split_core(s, true)
}

} // verus!

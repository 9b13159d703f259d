use vstd::prelude::*;
use vstd::string::*;

verus! {

/// How a single character moves the brace depth.
pub open spec fn brace_delta(c: char) -> int {
    if c == '{' {
        1
    } else if c == '}' {
        -1
    } else {
        0
    }
}

/// Number of `{` minus number of `}` in `s`.
pub open spec fn brace_balance(s: Seq<char>) -> int
    decreases s.len(),
{
    if s.len() == 0 {
        0
    } else {
        brace_balance(s.drop_last()) + brace_delta(s.last())
    }
}

/// `t` with character `c` appended to its last piece.
pub open spec fn extend_last(t: Seq<Seq<char>>, c: char) -> Seq<Seq<char>>
    recommends
        t.len() > 0,
{
    t.update(t.len() - 1, t.last().push(c))
}

/// The pieces of `s` between its `/` characters.
pub open spec fn split_on_slash(s: Seq<char>) -> Seq<Seq<char>>
    decreases s.len(),
{
    if s.len() == 0 {
        seq![Seq::empty()]
    } else if s.last() == '/' {
        split_on_slash(s.drop_last()).push(Seq::empty())
    } else {
        extend_last(split_on_slash(s.drop_last()), s.last())
    }
}

/// The pieces of `s` between the `/` characters that stand outside any braces.
pub open spec fn tokens(s: Seq<char>) -> Seq<Seq<char>>
    decreases s.len(),
{
    if s.len() == 0 {
        seq![Seq::empty()]
    } else if s.last() == '/' && brace_balance(s.drop_last()) == 0 {
        tokens(s.drop_last()).push(Seq::empty())
    } else {
        extend_last(tokens(s.drop_last()), s.last())
    }
}

/// The character sequences held by a vector of strings.
pub open spec fn strings_view(v: Seq<String>) -> Seq<Seq<char>> {
    v.map_values(|x: String| x@)
}

pub proof fn lemma_strings_view_push(v: Seq<String>, x: String)
    ensures
        strings_view(v.push(x)) == strings_view(v).push(x@),
{
    assert(strings_view(v.push(x)) =~= strings_view(v).push(x@));
}

pub proof fn lemma_split_on_slash_len(s: Seq<char>)
    ensures
        split_on_slash(s).len() >= 1,
    decreases s.len(),
{
    if s.len() > 0 {
        lemma_split_on_slash_len(s.drop_last());
    }
}

/// Every token is at most as long as the text it comes from.
pub proof fn lemma_tokens_bounded(s: Seq<char>)
    ensures
        tokens(s).len() >= 1,
        forall|k: int| 0 <= k < tokens(s).len() ==> #[trigger] tokens(s)[k].len() <= s.len(),
    decreases s.len(),
{
    if s.len() > 0 {
        lemma_tokens_bounded(s.drop_last());
    }
}

/// The first `n` strings of `v`, copied.
pub fn copy_prefix(v: &Vec<String>, n: usize) -> (r: Vec<String>)
    requires
        n <= v.len(),
    ensures
        strings_view(r@) == strings_view(v@).subrange(0, n as int),
{
    let mut r: Vec<String> = Vec::new();
    let mut i: usize = 0;
    while i < n
        invariant
            i <= n <= v.len(),
            strings_view(r@) == strings_view(v@).subrange(0, i as int),
        decreases n - i,
    {
        let s = v[i].clone();
        proof {
            lemma_strings_view_push(r@, s);
        }
        r.push(s);
        assert(strings_view(r@) =~= strings_view(v@).subrange(0, i + 1));
        i = i + 1;
    }
    r
}

/// Whether `s` holds a brace.
pub fn has_brace(s: &str) -> (r: bool)
    ensures
        r == (s@.contains('{') || s@.contains('}')),
{
    let n = s.unicode_len();
    let mut i: usize = 0;
    while i < n
        invariant
            n == s@.len(),
            i <= n,
            forall|k: int| 0 <= k < i ==> #[trigger] s@[k] != '{' && s@[k] != '}',
        decreases n - i,
    {
        let c = s.get_char(i);
        if c == '{' || c == '}' {
            return true;
        }
        i = i + 1;
    }
    false
}

/// Splits `s` at every `/`.
pub fn split_slash(s: &str) -> (r: Vec<String>)
    ensures
        strings_view(r@) == split_on_slash(s@),
{
    let n = s.unicode_len();
    let mut parts: Vec<String> = Vec::new();
    let mut start: usize = 0;
    let mut i: usize = 0;
    assert(s@.subrange(0, 0) =~= Seq::<char>::empty());
    assert(strings_view(parts@).push(s@.subrange(0, 0)) =~= seq![Seq::<char>::empty()]);
    while i < n
        invariant
            n == s@.len(),
            start <= i <= n,
            strings_view(parts@).push(s@.subrange(start as int, i as int)) == split_on_slash(
                s@.subrange(0, i as int),
            ),
        decreases n - i,
    {
        let c = s.get_char(i);
        let ghost prev = s@.subrange(0, i as int);
        let ghost next = s@.subrange(0, i + 1);
        assert(next.drop_last() =~= prev);
        assert(next.last() == c);
        if c == '/' {
            let piece = s.substring_char(start, i).to_owned();
            proof {
                lemma_strings_view_push(parts@, piece);
            }
            parts.push(piece);
            start = i + 1;
            assert(s@.subrange(start as int, start as int) =~= Seq::<char>::empty());
        } else {
            assert(s@.subrange(start as int, i as int).push(c) =~= s@.subrange(
                start as int,
                i + 1,
            ));
            assert(extend_last(strings_view(parts@).push(s@.subrange(start as int, i as int)), c)
                =~= strings_view(parts@).push(s@.subrange(start as int, i + 1)));
        }
        i = i + 1;
    }
    let last = s.substring_char(start, n).to_owned();
    proof {
        lemma_strings_view_push(parts@, last);
        assert(s@.subrange(0, n as int) =~= s@);
    }
    parts.push(last);
    parts
}

/// Splits `s` at every `/` outside braces, or reports unbalanced braces.
pub fn tokenize(s: &str) -> (r: Result<Vec<String>, crate::error::SyntaxError>)
    ensures
        r is Ok <==> brace_balance(s@) == 0,
        r matches Ok(v) ==> strings_view(v@) == tokens(s@),
        r matches Err(e) ==> e == crate::error::SyntaxError::MismatchedBraces,
{
    let n = s.unicode_len();
    let mut parts: Vec<String> = Vec::new();
    let mut start: usize = 0;
    let mut opens: usize = 0;
    let mut closes: usize = 0;
    let mut i: usize = 0;
    assert(s@.subrange(0, 0) =~= Seq::<char>::empty());
    assert(strings_view(parts@).push(s@.subrange(0, 0)) =~= seq![Seq::<char>::empty()]);
    while i < n
        invariant
            n == s@.len(),
            start <= i <= n,
            opens <= i,
            closes <= i,
            opens - closes == brace_balance(s@.subrange(0, i as int)),
            strings_view(parts@).push(s@.subrange(start as int, i as int)) == tokens(
                s@.subrange(0, i as int),
            ),
        decreases n - i,
    {
        let c = s.get_char(i);
        let ghost prev = s@.subrange(0, i as int);
        let ghost next = s@.subrange(0, i + 1);
        assert(next.drop_last() =~= prev);
        assert(next.last() == c);
        if c == '/' && opens == closes {
            let piece = s.substring_char(start, i).to_owned();
            proof {
                lemma_strings_view_push(parts@, piece);
            }
            parts.push(piece);
            start = i + 1;
            assert(s@.subrange(start as int, start as int) =~= Seq::<char>::empty());
        } else {
            assert(s@.subrange(start as int, i as int).push(c) =~= s@.subrange(
                start as int,
                i + 1,
            ));
            assert(extend_last(strings_view(parts@).push(s@.subrange(start as int, i as int)), c)
                =~= strings_view(parts@).push(s@.subrange(start as int, i + 1)));
            if c == '{' {
                opens = opens + 1;
            } else if c == '}' {
                closes = closes + 1;
            }
        }
        i = i + 1;
    }
    assert(s@.subrange(0, n as int) =~= s@);
    if opens != closes {
        return Err(crate::error::SyntaxError::MismatchedBraces);
    }
    let last = s.substring_char(start, n).to_owned();
    proof {
        lemma_strings_view_push(parts@, last);
    }
    parts.push(last);
    Ok(parts)
}

} // verus!

use vstd::prelude::*;
use vstd::string::*;
use crate::error::SyntaxError;
use crate::text::{copy_prefix, split_on_slash, split_slash, strings_view, lemma_strings_view_push};

verus! {

/// A segment that a concrete address can hold and still print and parse back.
pub open spec fn valid_name(n: Seq<char>) -> bool {
    n.len() > 0 && !n.contains('/')
}

/// An address all of whose segments are valid names.
pub open spec fn valid_address(p: Seq<Seq<char>>) -> bool {
    forall|i: int| 0 <= i < p.len() ==> valid_name(#[trigger] p[i])
}

/// The segments of `p` joined by `/`.
pub open spec fn join_slash(p: Seq<Seq<char>>) -> Seq<char>
    decreases p.len(),
{
    if p.len() == 0 {
        Seq::empty()
    } else if p.len() == 1 {
        p[0]
    } else {
        join_slash(p.drop_last()) + seq!['/'] + p.last()
    }
}

/// The text form of a concrete address: `/` followed by the joined segments.
pub open spec fn address_text(p: Seq<Seq<char>>) -> Seq<char> {
    seq!['/'] + join_slash(p)
}

/// The address that a text denotes, or why it denotes none.
pub open spec fn parse_address(s: Seq<char>) -> Result<Seq<Seq<char>>, SyntaxError> {
    if s.len() == 0 || s[0] != '/' {
        Err(SyntaxError::NotAbsolute)
    } else if s.len() == 1 {
        Ok(Seq::empty())
    } else if split_on_slash(s.drop_first()).contains(Seq::empty()) {
        Err(SyntaxError::EmptyComponent)
    } else {
        Ok(split_on_slash(s.drop_first()))
    }
}

pub open spec fn child_of(p: Seq<Seq<char>>, n: Seq<char>) -> Seq<Seq<char>> {
    p.push(n)
}

/// The address one level up; the root is its own parent.
pub open spec fn parent_of(p: Seq<Seq<char>>) -> Seq<Seq<char>> {
    if p.len() == 0 {
        p
    } else {
        p.drop_last()
    }
}

/// The last segment, or the empty text at the root.
pub open spec fn basename_of(p: Seq<Seq<char>>) -> Seq<char> {
    if p.len() == 0 {
        Seq::empty()
    } else {
        p.last()
    }
}

/// A fully resolved address: the names of the nodes from the root down.
#[derive(Clone, Debug, PartialEq, Eq, Hash)]
pub struct ConcretePath {
    pub components: Vec<String>,
}

impl View for ConcretePath {
    type V = Seq<Seq<char>>;

    open spec fn view(&self) -> Seq<Seq<char>> {
        strings_view(self.components@)
    }
}

impl ConcretePath {
    pub fn from_components(components: Vec<String>) -> (r: ConcretePath)
        ensures
            r@ == strings_view(components@),
    {
        ConcretePath { components }
    }

    pub fn new_root() -> (r: ConcretePath)
        ensures
            r@ == Seq::<Seq<char>>::empty(),
    {
        let r = ConcretePath { components: Vec::new() };
        assert(r@ =~= Seq::<Seq<char>>::empty());
        r
    }

    /// A new address one level below this one; `self` is left as it is.
    pub fn new_child(&self, name: &str) -> (r: ConcretePath)
        ensures
            r@ == child_of(self@, name@),
    {
        let mut components = copy_prefix(&self.components, self.components.len());
        let n = name.to_owned();
        proof {
            lemma_strings_view_push(components@, n);
            assert(strings_view(self.components@).subrange(0, self.components.len() as int)
                =~= self@);
        }
        components.push(n);
        ConcretePath { components }
    }

    pub fn basename(&self) -> (r: &str)
        ensures
            r@ == basename_of(self@),
    {
        if self.components.len() == 0 {
            proof {
                reveal_strlit("");
            }
            return "";
        }
        self.components[self.components.len() - 1].as_str()
    }

    pub fn parent(&self) -> (r: ConcretePath)
        ensures
            r@ == parent_of(self@),
    {
        if self.components.len() <= 1 {
            let r = ConcretePath::new_root();
            assert(self.components.len() == 1 ==> parent_of(self@) =~= Seq::<Seq<char>>::empty());
            return r;
        }
        let components = copy_prefix(&self.components, self.components.len() - 1);
        assert(strings_view(self.components@).subrange(0, self.components.len() - 1)
            =~= self@.drop_last());
        ConcretePath::from_components(components)
    }

    /// The text form: `/` followed by the segments joined by `/`.
    pub fn to_string(&self) -> (r: String)
        ensures
            r@ == address_text(self@),
    {
        proof {
            reveal_strlit("/");
        }
        let mut r = "/".to_owned();
        let mut i: usize = 0;
        assert(self@.subrange(0, 0) =~= Seq::<Seq<char>>::empty());
        assert(r@ =~= address_text(self@.subrange(0, 0)));
        while i < self.components.len()
            invariant
                i <= self.components.len(),
                r@ == address_text(self@.subrange(0, i as int)),
            decreases self.components.len() - i,
        {
            let ghost next = self@.subrange(0, i + 1);
            assert(next.drop_last() =~= self@.subrange(0, i as int));
            assert(next.last() == self.components[i as int]@);
            if i > 0 {
                proof {
                    reveal_strlit("/");
                }
                r.append("/");
                r.append(self.components[i].as_str());
                assert(join_slash(next) == join_slash(next.drop_last()) + seq!['/'] + next.last());
            } else {
                r.append(self.components[i].as_str());
                assert(join_slash(next.drop_last()) =~= Seq::<char>::empty());
                assert(join_slash(next) == next[0]);
            }
            assert(r@ =~= address_text(next));
            i = i + 1;
        }
        assert(self@.subrange(0, self.components.len() as int) =~= self@);
        r
    }

    /// Reads an address from its text form.
    pub fn parse(s: &str) -> (r: Result<ConcretePath, SyntaxError>)
        ensures
            r is Ok <==> parse_address(s@) is Ok,
            r matches Ok(p) ==> parse_address(s@) == Ok::<Seq<Seq<char>>, SyntaxError>(p@),
            r matches Err(e) ==> parse_address(s@) == Err::<Seq<Seq<char>>, SyntaxError>(e),
    {
        let n = s.unicode_len();
        if n == 0 || s.get_char(0) != '/' {
            return Err(SyntaxError::NotAbsolute);
        }
        if n == 1 {
            return Ok(ConcretePath::new_root());
        }
        let rest = s.substring_char(1, n);
        assert(rest@ =~= s@.drop_first());
        let parts = split_slash(rest);
        let mut j: usize = 0;
        while j < parts.len()
            invariant
                j <= parts.len(),
                n == s@.len(),
                n >= 2,
                s@[0] == '/',
                strings_view(parts@) == split_on_slash(s@.drop_first()),
                forall|k: int| 0 <= k < j ==> (#[trigger] strings_view(parts@)[k]).len() > 0,
            decreases parts.len() - j,
        {
            if parts[j].as_str().unicode_len() == 0 {
                assert(strings_view(parts@)[j as int] =~= Seq::<char>::empty());
                assert(split_on_slash(s@.drop_first()).contains(Seq::empty()));
                return Err(SyntaxError::EmptyComponent);
            }
            j = j + 1;
        }
        assert(!strings_view(parts@).contains(Seq::empty())) by {
            if strings_view(parts@).contains(Seq::empty()) {
                let k = choose|k: int|
                    0 <= k < strings_view(parts@).len() && strings_view(parts@)[k]
                        == Seq::<char>::empty();
                assert(strings_view(parts@)[k].len() > 0);
            }
        }
        Ok(ConcretePath { components: parts })
    }
}

impl std::str::FromStr for ConcretePath {
    type Err = SyntaxError;

    fn from_str(s: &str) -> Result<ConcretePath, SyntaxError> {
        ConcretePath::parse(s)
    }
}

impl<'a> std::ops::Div<&'a str> for ConcretePath {
    type Output = ConcretePath;

    /// `p / name` is `p.new_child(name)`.
    fn div(self, rhs: &'a str) -> ConcretePath {
        self.new_child(rhs)
    }
}

/// A path value cannot be written down in a specification, so the operator
/// states nothing there; verified code calls `new_child`, whose contract is
/// exact.
impl<'a> vstd::std_specs::ops::DivSpecImpl<&'a str> for ConcretePath {
    open spec fn obeys_div_spec() -> bool {
        false
    }

    open spec fn div_req(self, rhs: &'a str) -> bool {
        true
    }

    open spec fn div_spec(self, rhs: &'a str) -> ConcretePath {
        self
    }
}

impl<'a, 'b> std::ops::Div<&'a str> for &'b ConcretePath {
    type Output = ConcretePath;

    /// `&p / name` is `p.new_child(name)`.
    fn div(self, rhs: &'a str) -> ConcretePath {
        self.new_child(rhs)
    }
}

impl<'a, 'b> vstd::std_specs::ops::DivSpecImpl<&'a str> for &'b ConcretePath {
    open spec fn obeys_div_spec() -> bool {
        false
    }

    open spec fn div_req(self, rhs: &'a str) -> bool {
        true
    }

    open spec fn div_spec(self, rhs: &'a str) -> ConcretePath {
        *self
    }
}

/// Under a string `x`, appending text without `/` lengthens the last piece.
proof fn lemma_split_append_plain(x: Seq<char>, b: Seq<char>)
    requires
        !b.contains('/'),
    ensures
        split_on_slash(x).len() >= 1,
        split_on_slash(x + b) == split_on_slash(x).update(
            split_on_slash(x).len() - 1,
            split_on_slash(x).last() + b,
        ),
    decreases b.len(),
{
    crate::text::lemma_split_on_slash_len(x);
    if b.len() == 0 {
        assert(x + b =~= x);
        assert(split_on_slash(x).last() + b =~= split_on_slash(x).last());
        assert(split_on_slash(x).update(split_on_slash(x).len() - 1, split_on_slash(x).last())
            =~= split_on_slash(x));
    } else {
        let b0 = b.drop_last();
        assert(!b0.contains('/')) by {
            if b0.contains('/') {
                let k = choose|k: int| 0 <= k < b0.len() && b0[k] == '/';
                assert(b[k] == '/');
            }
        }
        assert(b.last() != '/') by {
            assert(b[b.len() - 1] == b.last());
        }
        lemma_split_append_plain(x, b0);
        assert((x + b).drop_last() =~= x + b0);
        assert((x + b).last() == b.last());
        assert((split_on_slash(x).last() + b0).push(b.last()) =~= split_on_slash(x).last() + b);
        assert(split_on_slash(x + b) =~= split_on_slash(x).update(
            split_on_slash(x).len() - 1,
            split_on_slash(x).last() + b,
        ));
    }
}

proof fn lemma_split_join(p: Seq<Seq<char>>)
    requires
        p.len() > 0,
        valid_address(p),
    ensures
        split_on_slash(join_slash(p)) == p,
    decreases p.len(),
{
    let e = Seq::<char>::empty();
    if p.len() == 1 {
        assert(valid_name(p[0]));
        lemma_split_append_plain(e, p[0]);
        assert(e + p[0] =~= p[0]);
        assert(e + p[0] =~= join_slash(p));
        assert(split_on_slash(e) =~= seq![e]);
        assert(split_on_slash(join_slash(p)) =~= p);
    } else {
        let q = p.drop_last();
        assert(valid_address(q)) by {
            assert forall|i: int| 0 <= i < q.len() implies valid_name(#[trigger] q[i]) by {
                assert(valid_name(p[i]));
            }
        }
        assert(valid_name(p[p.len() - 1]));
        lemma_split_join(q);
        let x = join_slash(q) + seq!['/'];
        assert(x.drop_last() =~= join_slash(q));
        assert(split_on_slash(x) == split_on_slash(join_slash(q)).push(e));
        lemma_split_append_plain(x, p.last());
        assert(e + p.last() =~= p.last());
        assert(split_on_slash(x + p.last()) =~= p);
    }
}

/// Printing a valid concrete address and reading the text back gives the
/// same address.
pub proof fn lemma_round_trip(p: Seq<Seq<char>>)
    requires
        valid_address(p),
    ensures
        parse_address(address_text(p)) == Ok::<Seq<Seq<char>>, SyntaxError>(p),
{
    let s = address_text(p);
    assert(s.drop_first() =~= join_slash(p));
    if p.len() == 0 {
        assert(s.len() == 1);
        assert(p =~= Seq::<Seq<char>>::empty());
    } else {
        lemma_split_join(p);
        assert(join_slash(p).len() > 0) by {
            lemma_join_nonempty(p);
        }
        assert(!p.contains(Seq::empty())) by {
            if p.contains(Seq::empty()) {
                let k = choose|k: int| 0 <= k < p.len() && p[k] == Seq::<char>::empty();
                assert(valid_name(p[k]));
            }
        }
    }
}

proof fn lemma_join_nonempty(p: Seq<Seq<char>>)
    requires
        p.len() > 0,
        valid_address(p),
    ensures
        join_slash(p).len() > 0,
{
    assert(valid_name(p[p.len() - 1]));
    if p.len() > 1 {
        assert(join_slash(p).len() >= p.last().len());
    }
}

/// The parent of a child address is the address it was made from.
pub proof fn lemma_parent_of_child(p: Seq<Seq<char>>, n: Seq<char>)
    ensures
        parent_of(child_of(p, n)) == p,
{
    assert(child_of(p, n).drop_last() =~= p);
}

} // verus!

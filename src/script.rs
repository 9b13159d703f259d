use vstd::prelude::*;
use vstd::string::*;
use crate::address::{
    base_prefix, body_text, components_well_formed, concrete_names, devirtualize_model,
    expand_children, expand_components, expand_lookup, append_name, has_lookup, inner_text,
    is_absolute, is_braced, literal_dependencies, lookup_dependencies, parse_model,
    resolve_token, resolve_tokens, well_formed, AddressModel, ComponentModel,
    address_model_text, component_text, join_components, names_model,
};
use crate::concrete::ConcretePath;
use crate::error::{ConversionError, ResolutionError, SyntaxError};
use crate::text::{
    brace_balance, has_brace, lemma_strings_view_push, lemma_tokens_bounded, split_on_slash, split_slash,
    strings_view, tokenize, tokens,
};
use crate::tree::{TreeModel, TreeShape};

verus! {

/// One segment of a dynamic address.
#[derive(Debug, PartialEq, Eq, Hash)]
pub enum PathComponent {
    Name(String),
    Lookup(ScriptPath),
}

/// A parsed address whose segments may be lookups of other addresses.
#[derive(Debug, PartialEq, Eq, Hash)]
pub struct ScriptPath {
    pub components: Vec<PathComponent>,
    /// Whether a top-level token of the text was a lookup; see `well_formed`.
    pub dynamic: bool,
}

pub open spec fn component_model(c: PathComponent) -> ComponentModel
    decreases c,
{
    match c {
        PathComponent::Name(n) => ComponentModel::Name(n@),
        PathComponent::Lookup(p) => ComponentModel::Lookup(script_model(p)),
    }
}

pub open spec fn script_model(p: ScriptPath) -> AddressModel
    decreases p,
{
    AddressModel { components: components_model(p.components@), dynamic: p.dynamic }
}

pub open spec fn components_model(s: Seq<PathComponent>) -> Seq<ComponentModel>
    decreases s,
{
    if s.len() == 0 {
        Seq::empty()
    } else {
        components_model(s.drop_last()).push(component_model(s.last()))
    }
}

impl Clone for PathComponent {
    fn clone(&self) -> (r: PathComponent)
        ensures
            component_model(r) == component_model(*self),
        decreases self,
    {
        match self {
            PathComponent::Name(name) => PathComponent::Name(name.clone()),
            PathComponent::Lookup(path) => PathComponent::Lookup(path.clone()),
        }
    }
}

impl Clone for ScriptPath {
    fn clone(&self) -> (r: ScriptPath)
        ensures
            r@ == self@,
        decreases self,
    {
        let mut components: Vec<PathComponent> = Vec::new();
        let mut i: usize = 0;
        proof {
            lemma_components_model(self.components@);
        }
        while i < self.components.len()
            invariant
                i <= self.components.len(),
                components_model(self.components@).len() == self.components.len(),
                forall|j: int|
                    0 <= j < self.components.len() ==> #[trigger] components_model(
                        self.components@,
                    )[j] == component_model(self.components@[j]),
                components_model(components@) == components_model(self.components@).subrange(
                    0,
                    i as int,
                ),
            decreases self.components.len() - i,
        {
            let c = self.components[i].clone();
            proof {
                lemma_components_model_push(components@, c);
            }
            components.push(c);
            assert(components_model(components@) =~= components_model(self.components@).subrange(
                0,
                i + 1,
            ));
            i = i + 1;
        }
        assert(components_model(self.components@).subrange(0, i as int) =~= components_model(
            self.components@,
        ));
        ScriptPath { components, dynamic: self.dynamic }
    }
}

impl View for ScriptPath {
    type V = AddressModel;

    open spec fn view(&self) -> AddressModel {
        script_model(*self)
    }
}

/// The addresses held by a vector of concrete paths.
pub open spec fn concrete_views(v: Seq<ConcretePath>) -> Seq<Seq<Seq<char>>> {
    v.map_values(|p: ConcretePath| p@)
}

/// The model of an address holds the models of its `components` field.
pub proof fn lemma_script_model_components(p: ScriptPath)
    ensures
        p@.components == components_model(p.components@),
{
}

proof fn lemma_components_model(s: Seq<PathComponent>)
    ensures
        components_model(s).len() == s.len(),
        forall|i: int|
            0 <= i < s.len() ==> #[trigger] components_model(s)[i] == component_model(s[i]),
    decreases s.len(),
{
    if s.len() > 0 {
        lemma_components_model(s.drop_last());
    }
}

proof fn lemma_components_model_push(s: Seq<PathComponent>, c: PathComponent)
    ensures
        components_model(s.push(c)) == components_model(s).push(component_model(c)),
{
    assert(s.push(c).drop_last() =~= s);
}

proof fn lemma_components_model_drop_last(s: Seq<PathComponent>)
    requires
        s.len() > 0,
    ensures
        components_model(s.drop_last()) == components_model(s).drop_last(),
{
    assert(components_model(s).drop_last() =~= components_model(s.drop_last()));
}

proof fn lemma_concrete_views_push(v: Seq<ConcretePath>, p: ConcretePath)
    ensures
        concrete_views(v.push(p)) == concrete_views(v).push(p@),
{
    assert(concrete_views(v.push(p)) =~= concrete_views(v).push(p@));
}

/// In a well-formed sequence of components every lookup is well formed.
proof fn lemma_components_well_formed(s: Seq<ComponentModel>, i: int)
    requires
        components_well_formed(s),
        0 <= i < s.len(),
    ensures
        s[i] matches ComponentModel::Lookup(m) ==> well_formed(m),
    decreases s.len(),
{
    if i < s.len() - 1 {
        lemma_components_well_formed(s.drop_last(), i);
    }
}

proof fn lemma_has_lookup_push(s: Seq<ComponentModel>, c: ComponentModel)
    ensures
        has_lookup(s.push(c)) == (has_lookup(s) || c is Lookup),
{
    if has_lookup(s) {
        let i = choose|i: int| 0 <= i < s.len() && #[trigger] s[i] is Lookup;
        assert(s.push(c)[i] is Lookup);
    }
    if c is Lookup {
        assert(s.push(c)[s.len() as int] is Lookup);
    }
    if has_lookup(s.push(c)) {
        let i = choose|i: int| 0 <= i < s.push(c).len() && #[trigger] s.push(c)[i] is Lookup;
        if i < s.len() {
            assert(s[i] is Lookup);
        }
    }
}

proof fn lemma_has_lookup_drop_last(s: Seq<ComponentModel>)
    requires
        s.len() > 0,
    ensures
        has_lookup(s.drop_last()) ==> has_lookup(s),
{
    if has_lookup(s.drop_last()) {
        let i = choose|i: int| 0 <= i < s.drop_last().len() && #[trigger] s.drop_last()[i] is Lookup;
        assert(s[i] is Lookup);
    }
}


/// The bound given to `resolve_tokens` does not matter once every token fits under it.
proof fn lemma_resolve_bound(
    base: Seq<char>,
    toks: Seq<Seq<char>>,
    start: Seq<ComponentModel>,
    b1: nat,
    b2: nat,
)
    requires
        forall|k: int| 0 <= k < toks.len() ==> #[trigger] toks[k].len() <= b1,
        forall|k: int| 0 <= k < toks.len() ==> #[trigger] toks[k].len() <= b2,
    ensures
        resolve_tokens(base, toks, start, b1) == resolve_tokens(base, toks, start, b2),
    decreases toks.len(),
{
    if toks.len() > 0 {
        let d = toks.drop_last();
        assert forall|k: int| 0 <= k < d.len() implies #[trigger] d[k].len() <= b1 && d[k].len()
            <= b2 by {
            assert(d[k] == toks[k]);
        }
        lemma_resolve_bound(base, d, start, b1, b2);
    }
}

/// Once a prefix of the tokens fails, the whole sequence fails the same way.
proof fn lemma_resolve_error_extends(
    base: Seq<char>,
    toks: Seq<Seq<char>>,
    start: Seq<ComponentModel>,
    bound: nat,
    j: int,
)
    requires
        0 <= j <= toks.len(),
        forall|k: int| 0 <= k < toks.len() ==> #[trigger] toks[k].len() <= bound,
        resolve_tokens(base, toks.subrange(0, j), start, bound) is Err,
    ensures
        resolve_tokens(base, toks, start, bound) == resolve_tokens(
            base,
            toks.subrange(0, j),
            start,
            bound,
        ),
    decreases toks.len(),
{
    if j == toks.len() {
        assert(toks.subrange(0, j) =~= toks);
    } else {
        let d = toks.drop_last();
        assert(d.subrange(0, j) =~= toks.subrange(0, j));
        assert forall|k: int| 0 <= k < d.len() implies #[trigger] d[k].len() <= bound by {
            assert(d[k] == toks[k]);
        }
        lemma_resolve_error_extends(base, d, start, bound, j);
        assert(toks[toks.len() - 1].len() <= bound);
    }
}

proof fn lemma_balance_drop_first(s: Seq<char>)
    requires
        s.len() > 0,
    ensures
        brace_balance(s) == crate::text::brace_delta(s[0]) + brace_balance(s.drop_first()),
    decreases s.len(),
{
    if s.len() > 1 {
        lemma_balance_drop_first(s.drop_last());
        assert(s.drop_last().drop_first() =~= s.drop_first().drop_last());
        assert(s.drop_first().last() == s.last());
        assert(s.drop_last()[0] == s[0]);
        assert(brace_balance(s.drop_first()) == brace_balance(s.drop_first().drop_last())
            + crate::text::brace_delta(s.drop_first().last()));
        assert(brace_balance(s) == brace_balance(s.drop_last()) + crate::text::brace_delta(
            s.last(),
        ));
    } else {
        assert(s.drop_first().len() == 0);
        assert(s.drop_last().len() == 0);
        assert(brace_balance(s) == brace_balance(s.drop_last()) + crate::text::brace_delta(
            s.last(),
        ));
        assert(s.last() == s[0]);
    }
}

/// A text with a different number of `{` and `}` is rejected for that reason,
/// wherever the braces stand.
pub proof fn lemma_unbalanced_braces(base: Seq<char>, text: Seq<char>)
    ensures
        brace_balance(text) != 0 ==> parse_model(base, text) == Err::<AddressModel, SyntaxError>(
            SyntaxError::MismatchedBraces,
        ),
{
    if is_absolute(text) {
        lemma_balance_drop_first(text);
    }
}

/// Once a prefix of the working set fails to expand, the whole set fails the same way.
proof fn lemma_expand_children_error_extends(ws: Seq<Seq<Seq<char>>>, tree: TreeModel, j: int)
    requires
        0 <= j <= ws.len(),
        expand_children(ws.subrange(0, j), tree) is Err,
    ensures
        expand_children(ws, tree) == expand_children(ws.subrange(0, j), tree),
    decreases ws.len(),
{
    if j == ws.len() {
        assert(ws.subrange(0, j) =~= ws);
    } else {
        assert(ws.drop_last().subrange(0, j) =~= ws.subrange(0, j));
        lemma_expand_children_error_extends(ws.drop_last(), tree, j);
    }
}

/// Once a prefix of the components fails to expand, the whole address fails the same way.
proof fn lemma_expand_components_error_extends(s: Seq<ComponentModel>, tree: TreeModel, j: int)
    requires
        0 <= j <= s.len(),
        expand_components(s.subrange(0, j), tree) is Err,
    ensures
        expand_components(s, tree) == expand_components(s.subrange(0, j), tree),
    decreases s.len(),
{
    if j == s.len() {
        assert(s.subrange(0, j) =~= s);
    } else {
        assert(s.drop_last().subrange(0, j) =~= s.subrange(0, j));
        lemma_expand_components_error_extends(s.drop_last(), tree, j);
    }
}

/// A concrete-shaped address expands to itself alone, whatever the tree.
pub proof fn lemma_concrete_devirtualizes_to_itself(d: AddressModel, tree: TreeModel)
    requires
        well_formed(d),
        !d.dynamic,
    ensures
        !has_lookup(d.components),
        devirtualize_model(d, tree) == Ok::<Seq<Seq<Seq<char>>>, ResolutionError>(
            seq![concrete_names(d.components)],
        ),
{
}

/// The flag of an accepted token sequence tells whether any token was braced.
proof fn lemma_resolve_flag(
    base: Seq<char>,
    toks: Seq<Seq<char>>,
    start: Seq<ComponentModel>,
    bound: nat,
)
    requires
        resolve_tokens(base, toks, start, bound) is Ok,
    ensures
        resolve_tokens(base, toks, start, bound)->Ok_0.1 <==> exists|k: int|
            0 <= k < toks.len() && is_braced(#[trigger] toks[k]),
    decreases toks.len(),
{
    if toks.len() > 0 {
        let d = toks.drop_last();
        lemma_resolve_flag(base, d, start, bound);
        let tok = toks.last();
        let stack = resolve_tokens(base, d, start, bound)->Ok_0.0;
        let rt = resolve_token(base, stack, tok);
        assert(rt is Ok);
        if tok == seq!['.'] || tok == seq!['.', '.'] {
            assert(tok[0] == '.');
        }
        assert(rt->Ok_0.1 == is_braced(tok));
        assert(resolve_tokens(base, toks, start, bound)->Ok_0.1 == (resolve_tokens(
            base,
            d,
            start,
            bound,
        )->Ok_0.1 || rt->Ok_0.1));
        if exists|k: int| 0 <= k < d.len() && is_braced(#[trigger] d[k]) {
            let k = choose|k: int| 0 <= k < d.len() && is_braced(#[trigger] d[k]);
            assert(toks[k] == d[k]);
        }
        if exists|k: int| 0 <= k < toks.len() && is_braced(#[trigger] toks[k]) {
            let k = choose|k: int| 0 <= k < toks.len() && is_braced(#[trigger] toks[k]);
            if k < d.len() {
                assert(d[k] == toks[k]);
            }
        }
        assert(is_braced(tok) ==> is_braced(toks[toks.len() - 1]));
    }
}

/// An accepted text yields a dynamic address exactly when one of its
/// top-level tokens is a braced lookup.
pub proof fn lemma_dynamic_flag(base: Seq<char>, text: Seq<char>)
    requires
        parse_model(base, text) is Ok,
    ensures
        parse_model(base, text)->Ok_0.dynamic <==> exists|k: int|
            0 <= k < tokens(body_text(text)).len() && is_braced(
                #[trigger] tokens(body_text(text))[k],
            ),
{
    let start = if is_absolute(text) {
        Seq::empty()
    } else {
        base_prefix(base)
    };
    lemma_resolve_flag(base, tokens(body_text(text)), start, text.len());
}

impl PathComponent {
    /// The text form: a name as it is, a lookup in braces.
    pub fn to_string(&self) -> (r: String)
        ensures
            r@ == component_text(component_model(*self)),
        decreases self,
    {
        match self {
            PathComponent::Name(name) => name.clone(),
            PathComponent::Lookup(path) => {
                proof {
                    reveal_strlit("{");
                    reveal_strlit("}");
                }
                let mut r = "{".to_owned();
                let inner = path.to_string();
                r.append(inner.as_str());
                r.append("}");
                r
            },
        }
    }
}

impl ScriptPath {
    /// Builds an address from its components; it is dynamic exactly when one
    /// of them is a lookup.
    pub fn from_components(components: Vec<PathComponent>) -> (r: ScriptPath)
        ensures
            r@.components == components_model(components@),
            r@.dynamic == has_lookup(components_model(components@)),
            components_well_formed(components_model(components@)) ==> well_formed(r@),
    {
        let mut dynamic = false;
        let mut i: usize = 0;
        proof {
            lemma_components_model(components@);
        }
        while i < components.len()
            invariant
                i <= components.len(),
                components_model(components@).len() == components.len(),
                forall|j: int|
                    0 <= j < components.len() ==> #[trigger] components_model(components@)[j]
                        == component_model(components@[j]),
                dynamic == exists|j: int| 0 <= j < i && #[trigger] components@[j] is Lookup,
            decreases components.len() - i,
        {
            if let PathComponent::Lookup(_) = &components[i] {
                dynamic = true;
            }
            i = i + 1;
        }
        proof {
            if dynamic {
                let j = choose|j: int| 0 <= j < i && #[trigger] components@[j] is Lookup;
                assert(components_model(components@)[j] is Lookup);
            }
            if has_lookup(components_model(components@)) {
                let j = choose|j: int|
                    0 <= j < components.len() && #[trigger] components_model(components@)[j] is Lookup;
                assert(components@[j] is Lookup);
            }
        }
        let r = ScriptPath { components, dynamic };
        proof {
            lemma_script_model_components(r);
        }
        r
    }

    /// Reads `s` as an address; a relative text is read against `base_path`,
    /// as if it stood in place of the last segment of `base_path`.
    pub fn from_str_at_path(base_path: &str, s: &str) -> (r: Result<ScriptPath, SyntaxError>)
        requires
            base_path@.len() > 0,
            base_path@[0] == '/',
        ensures
            r matches Ok(p) ==> parse_model(base_path@, s@) == Ok::<AddressModel, SyntaxError>(p@)
                && well_formed(p@),
            r matches Err(e) ==> parse_model(base_path@, s@) == Err::<AddressModel, SyntaxError>(e),
            brace_balance(s@) != 0 ==> r == Err::<ScriptPath, SyntaxError>(
                SyntaxError::MismatchedBraces,
            ),
        decreases s@.len(), 2nat,
    {
        proof {
            lemma_unbalanced_braces(base_path@, s@);
        }
        let n = s.unicode_len();
        let absolute = n > 0 && s.get_char(0) == '/';
        assert(absolute == is_absolute(s@));
        let mut components: Vec<PathComponent> = if absolute {
            Vec::new()
        } else {
            Self::base_components(base_path)
        };
        let rest = if absolute {
            s.substring_char(1, n)
        } else {
            s
        };
        assert(rest@ =~= body_text(s@));
        proof {
            if absolute {
                assert(components_model(components@) =~= Seq::<ComponentModel>::empty());
            }
        }
        let ghost start = components_model(components@);
        let r = Self::parse_parts(&mut components, base_path, rest);
        proof {
            lemma_tokens_bounded(rest@);
            let toks = tokens(rest@);
            assert forall|k: int| 0 <= k < toks.len() implies #[trigger] toks[k].len() <= s@.len() by {
                assert(toks[k].len() <= rest@.len());
            }
            lemma_resolve_bound(base_path@, toks, start, rest@.len(), s@.len());
        }
        match r {
            Ok(dynamic) => {
                let p = ScriptPath { components, dynamic };
                proof {
                    lemma_script_model_components(p);
                }
                Ok(p)
            },
            Err(e) => Err(e),
        }
    }

    /// The segments of the base address without its last one, as names.
    fn base_components(base_path: &str) -> (r: Vec<PathComponent>)
        requires
            base_path@.len() > 0,
        ensures
            components_model(r@) == base_prefix(base_path@),
            !has_lookup(components_model(r@)),
            components_well_formed(components_model(r@)),
    {
        let n = base_path.unicode_len();
        let rest = base_path.substring_char(1, n);
        assert(rest@ =~= base_path@.drop_first());
        let mut parts = split_slash(rest);
        proof {
            crate::text::lemma_split_on_slash_len(rest@);
        }
        let _ = parts.pop();
        assert(strings_view(parts@) =~= split_on_slash(rest@).drop_last());
        let ghost names = names_model(split_on_slash(rest@).drop_last());
        let mut r: Vec<PathComponent> = Vec::new();
        let mut i: usize = 0;
        while i < parts.len()
            invariant
                i <= parts.len(),
                names == names_model(strings_view(parts@)),
                components_model(r@) == names.subrange(0, i as int),
                !has_lookup(components_model(r@)),
                components_well_formed(components_model(r@)),
            decreases parts.len() - i,
        {
            let c = PathComponent::Name(parts[i].clone());
            proof {
                lemma_components_model_push(r@, c);
                lemma_has_lookup_push(components_model(r@), component_model(c));
                assert(components_model(r@).push(component_model(c)).drop_last()
                    =~= components_model(r@));
            }
            r.push(c);
            assert(components_model(r@) =~= names.subrange(0, i + 1));
            i = i + 1;
        }
        assert(names.subrange(0, i as int) =~= names);
        r
    }

    /// Splits `s` into tokens and applies them to `components`; tells whether
    /// any of them was a lookup.
    fn parse_parts(components: &mut Vec<PathComponent>, base_path: &str, s: &str) -> (r: Result<
        bool,
        SyntaxError,
    >)
        requires
            base_path@.len() > 0,
            base_path@[0] == '/',
            components_well_formed(components_model(old(components)@)),
        ensures
            r matches Ok(d) ==> brace_balance(s@) == 0 && resolve_tokens(
                base_path@,
                tokens(s@),
                components_model(old(components)@),
                s@.len(),
            ) == Ok::<(Seq<ComponentModel>, bool), SyntaxError>(
                (components_model(final(components)@), d),
            ) && (has_lookup(components_model(final(components)@)) ==> d || has_lookup(
                components_model(old(components)@),
            )) && components_well_formed(components_model(final(components)@)),
            r matches Err(e) ==> if brace_balance(s@) != 0 {
                e == SyntaxError::MismatchedBraces
            } else {
                resolve_tokens(base_path@, tokens(s@), components_model(old(components)@), s@.len())
                    == Err::<(Seq<ComponentModel>, bool), SyntaxError>(e)
            },
        decreases s@.len(), 1nat,
    {
        let parts = match tokenize(s) {
            Ok(parts) => parts,
            Err(e) => {
                return Err(e);
            },
        };
        let ghost toks = tokens(s@);
        let ghost start = components_model(components@);
        proof {
            lemma_tokens_bounded(s@);
            assert(toks.subrange(0, 0) =~= Seq::<Seq<char>>::empty());
        }
        let mut dynamic = false;
        let mut i: usize = 0;
        while i < parts.len()
            invariant
                i <= parts.len(),
                toks == strings_view(parts@),
                toks == tokens(s@),
                start == components_model(old(components)@),
                toks.len() >= 1,
                brace_balance(s@) == 0,
                forall|k: int| 0 <= k < toks.len() ==> #[trigger] toks[k].len() <= s@.len(),
                base_path@.len() > 0,
                base_path@[0] == '/',
                resolve_tokens(base_path@, toks.subrange(0, i as int), start, s@.len()) == Ok::<
                    (Seq<ComponentModel>, bool),
                    SyntaxError,
                >((components_model(components@), dynamic)),
                has_lookup(components_model(components@)) ==> dynamic || has_lookup(start),
                components_well_formed(components_model(components@)),
            decreases parts.len() - i,
        {
            let ghost pre = toks.subrange(0, i as int);
            let ghost next = toks.subrange(0, i + 1);
            assert(next.drop_last() =~= pre);
            assert(next.last() == toks[i as int]);
            assert(parts[i as int]@ == toks[i as int]);
            assert(toks[i as int].len() <= s@.len());
            match Self::parse_part(components, base_path, parts[i].as_str()) {
                Ok(lookup) => {
                    if lookup {
                        dynamic = true;
                    }
                },
                Err(e) => {
                    proof {
                        lemma_resolve_error_extends(base_path@, toks, start, s@.len(), i + 1);
                    }
                    return Err(e);
                },
            }
            i = i + 1;
        }
        assert(toks.subrange(0, i as int) =~= toks);
        Ok(dynamic)
    }

    /// Applies one token to `components`; tells whether it was a lookup.
    fn parse_part(components: &mut Vec<PathComponent>, base_path: &str, part: &str) -> (r: Result<
        bool,
        SyntaxError,
    >)
        requires
            base_path@.len() > 0,
            base_path@[0] == '/',
            components_well_formed(components_model(old(components)@)),
        ensures
            r matches Ok(lookup) ==> resolve_token(
                base_path@,
                components_model(old(components)@),
                part@,
            ) == Ok::<(Seq<ComponentModel>, bool), SyntaxError>(
                (components_model(final(components)@), lookup),
            ) && components_well_formed(components_model(final(components)@)) && (has_lookup(
                components_model(final(components)@),
            ) ==> lookup || has_lookup(components_model(old(components)@))),
            r matches Err(e) ==> resolve_token(
                base_path@,
                components_model(old(components)@),
                part@,
            ) == Err::<(Seq<ComponentModel>, bool), SyntaxError>(e),
            r is Err ==> final(components)@ == old(components)@,
        decreases part@.len(), 0nat,
    {
        let ghost old_model = components_model(components@);
        let n = part.unicode_len();
        if n == 0 {
            return Err(SyntaxError::EmptyComponent);
        }
        if n == 1 && part.get_char(0) == '.' {
            assert(part@ =~= seq!['.']);
            return Ok(false);
        }
        if n == 2 && part.get_char(0) == '.' && part.get_char(1) == '.' {
            assert(part@ =~= seq!['.', '.']);
            if components.len() == 0 {
                return Err(SyntaxError::ParentUnderflow);
            }
            proof {
                lemma_components_model_drop_last(components@);
                lemma_has_lookup_drop_last(old_model);
            }
            let _ = components.pop();
            return Ok(false);
        }
        assert(part@ != seq!['.']);
        assert(part@ != seq!['.', '.']);
        if n >= 2 && part.get_char(0) == '{' && part.get_char(n - 1) == '}' {
            assert(is_braced(part@));
            let inner = part.substring_char(1, n - 1);
            assert(inner@ =~= inner_text(part@));
            match Self::from_str_at_path(base_path, inner) {
                Ok(p) => {
                    let c = PathComponent::Lookup(p);
                    proof {
                        lemma_components_model_push(components@, c);
                        assert(components_model(components@).push(component_model(c)).drop_last()
                            =~= components_model(components@));
                    }
                    components.push(c);
                    return Ok(true);
                },
                Err(e) => {
                    return Err(e);
                },
            }
        }
        assert(!is_braced(part@));
        if has_brace(part) {
            return Err(SyntaxError::InvalidCharacter);
        }
        let c = PathComponent::Name(part.to_owned());
        proof {
            lemma_components_model_push(components@, c);
            lemma_has_lookup_push(old_model, component_model(c));
            assert(components_model(components@).push(component_model(c)).drop_last()
                =~= components_model(components@));
        }
        components.push(c);
        Ok(false)
    }

    /// Appends `name` to every prefix; an empty set stands for the root.
    fn explode_paths_1(paths: Vec<ConcretePath>, name: &str) -> (r: Vec<ConcretePath>)
        ensures
            concrete_views(r@) == append_name(concrete_views(paths@), name@),
    {
        let mut out: Vec<ConcretePath> = Vec::new();
        if paths.len() == 0 {
            let mut c: Vec<String> = Vec::new();
            c.push(name.to_owned());
            assert(strings_view(c@) =~= seq![name@]);
            out.push(ConcretePath::from_components(c));
            assert(concrete_views(out@) =~= append_name(concrete_views(paths@), name@));
            return out;
        }
        let mut i: usize = 0;
        while i < paths.len()
            invariant
                i <= paths.len(),
                out.len() == i,
                forall|k: int| 0 <= k < i ==> (#[trigger] out@[k])@ == paths@[k]@.push(name@),
            decreases paths.len() - i,
        {
            out.push(paths[i].new_child(name));
            i = i + 1;
        }
        assert(concrete_views(out@) =~= append_name(concrete_views(paths@), name@));
        out
    }

    /// Replaces every prefix by its children in the tree; an empty set
    /// stands for the root.
    #[verifier::loop_isolation(false)]
    fn explode_paths_2(paths: Vec<ConcretePath>, tree: &TreeShape) -> (r: Result<
        Vec<ConcretePath>,
        ResolutionError,
    >)
        ensures
            r matches Ok(v) ==> expand_lookup(concrete_views(paths@), tree@) == Ok::<
                Seq<Seq<Seq<char>>>,
                ResolutionError,
            >(concrete_views(v@)),
            r matches Err(e) ==> expand_lookup(concrete_views(paths@), tree@) == Err::<
                Seq<Seq<Seq<char>>>,
                ResolutionError,
            >(e),
    {
        let ghost given = concrete_views(paths@);
        let mut paths = paths;
        if paths.len() == 0 {
            paths.push(ConcretePath::new_root());
            assert(concrete_views(paths@) =~= seq![Seq::<Seq<char>>::empty()]);
        }
        let ghost ws = concrete_views(paths@);
        assert(expand_lookup(given, tree@) == expand_children(ws, tree@));
        let mut next: Vec<ConcretePath> = Vec::new();
        let mut j: usize = 0;
        assert(ws.subrange(0, 0) =~= Seq::<Seq<Seq<char>>>::empty());
        assert(concrete_views(next@) =~= Seq::<Seq<Seq<char>>>::empty());
        while j < paths.len()
            invariant
                j <= paths.len(),
                ws == concrete_views(paths@),
                expand_children(ws.subrange(0, j as int), tree@) == Ok::<
                    Seq<Seq<Seq<char>>>,
                    ResolutionError,
                >(concrete_views(next@)),
            decreases paths.len() - j,
        {
            let ghost pre = ws.subrange(0, j as int);
            let ghost cur = ws.subrange(0, j + 1);
            assert(cur.drop_last() =~= pre);
            assert(cur.last() == paths@[j as int]@);
            let names = match tree.child_names(&paths[j]) {
                Ok(names) => names,
                Err(e) => {
                    proof {
                        lemma_expand_children_error_extends(ws, tree@, j + 1);
                    }
                    return Err(e);
                },
            };
            let ghost acc = concrete_views(next@);
            let ghost cs = strings_view(names@);
            let mut k: usize = 0;
            while k < names.len()
                invariant
                    k <= names.len(),
                    j < paths.len(),
                    cs == strings_view(names@),
                    next.len() == acc.len() + k,
                    forall|m: int| 0 <= m < acc.len() ==> (#[trigger] next@[m])@ == acc[m],
                    forall|m: int|
                        0 <= m < k ==> (#[trigger] next@[acc.len() + m])@ == paths@[j as int]@.push(
                            cs[m],
                        ),
                decreases names.len() - k,
            {
                next.push(paths[j].new_child(names[k].as_str()));
                k = k + 1;
            }
            assert forall|m: int| acc.len() <= m < next.len() implies (#[trigger] next@[m])@
                == cur.last().push(cs[m - acc.len()]) by {
                let q = m - acc.len();
                assert(next@[acc.len() + q] == next@[m]);
            }
            assert(concrete_views(next@) =~= acc + cs.map_values(|c: Seq<char>| cur.last().push(c)));
            j = j + 1;
        }
        assert(ws.subrange(0, j as int) =~= ws);
        Ok(next)
    }

    /// The concrete addresses that this address may denote in `tree`: every
    /// lookup stands for any child that exists at its position, whatever the
    /// lookup's own text says.
    pub fn devirtualize(&self, tree: &TreeShape) -> (r: Result<Vec<ConcretePath>, ResolutionError>)
        requires
            well_formed(self@),
        ensures
            r matches Ok(v) ==> devirtualize_model(self@, tree@) == Ok::<
                Seq<Seq<Seq<char>>>,
                ResolutionError,
            >(concrete_views(v@)),
            r matches Err(e) ==> devirtualize_model(self@, tree@) == Err::<
                Seq<Seq<Seq<char>>>,
                ResolutionError,
            >(e),
    {
        let mut working_set: Vec<ConcretePath> = Vec::new();
        if self.is_concrete() {
            match self.as_concrete() {
                Ok(c) => {
                    working_set.push(c);
                    assert(concrete_views(working_set@) =~= seq![c@]);
                },
                Err(_) => {
                    assert(false);
                },
            }
            return Ok(working_set);
        }
        let ghost cm = self@.components;
        proof {
            lemma_script_model_components(*self);
            lemma_components_model(self.components@);
            assert(cm.subrange(0, 0) =~= Seq::<ComponentModel>::empty());
            assert(concrete_views(working_set@) =~= Seq::<Seq<Seq<char>>>::empty());
        }
        let mut i: usize = 0;
        while i < self.components.len()
            invariant
                i <= self.components.len(),
                self@.dynamic,
                cm == self@.components,
                cm == components_model(self.components@),
                cm.len() == self.components.len(),
                forall|j: int|
                    0 <= j < self.components.len() ==> #[trigger] cm[j] == component_model(
                        self.components@[j],
                    ),
                expand_components(cm.subrange(0, i as int), tree@) == Ok::<
                    Seq<Seq<Seq<char>>>,
                    ResolutionError,
                >(concrete_views(working_set@)),
            decreases self.components.len() - i,
        {
            let ghost cur = cm.subrange(0, i + 1);
            assert(cur.drop_last() =~= cm.subrange(0, i as int));
            assert(cur.last() == cm[i as int]);
            match &self.components[i] {
                PathComponent::Name(name) => {
                    working_set = Self::explode_paths_1(working_set, name.as_str());
                },
                PathComponent::Lookup(_) => {
                    match Self::explode_paths_2(working_set, tree) {
                        Ok(next) => {
                            working_set = next;
                        },
                        Err(e) => {
                            proof {
                                lemma_expand_components_error_extends(cm, tree@, i + 1);
                            }
                            return Err(e);
                        },
                    }
                },
            }
            i = i + 1;
        }
        assert(cm.subrange(0, i as int) =~= cm);
        Ok(working_set)
    }

    /// Appends to `inputs` the literal addresses embedded in this address:
    /// the address itself when it is concrete, else those of its lookups.
    pub fn find_concrete_inputs(&self, inputs: &mut Vec<ConcretePath>)
        requires
            well_formed(self@),
        ensures
            concrete_views(final(inputs)@) == concrete_views(old(inputs)@) + literal_dependencies(
                self@,
            ),
        decreases self,
    {
        if self.is_concrete() {
            match self.as_concrete() {
                Ok(c) => {
                    proof {
                        lemma_concrete_views_push(inputs@, c);
                    }
                    inputs.push(c);
                },
                Err(_) => {
                    assert(false);
                },
            }
            return;
        }
        let ghost cm = self@.components;
        proof {
            lemma_script_model_components(*self);
            lemma_components_model(self.components@);
            assert(cm.subrange(0, 0) =~= Seq::<ComponentModel>::empty());
            assert(concrete_views(inputs@) =~= concrete_views(inputs@) + Seq::<
                Seq<Seq<char>>,
            >::empty());
        }
        let mut i: usize = 0;
        while i < self.components.len()
            invariant
                i <= self.components.len(),
                well_formed(self@),
                cm == self@.components,
                cm == components_model(self.components@),
                cm.len() == self.components.len(),
                forall|j: int|
                    0 <= j < self.components.len() ==> #[trigger] cm[j] == component_model(
                        self.components@[j],
                    ),
                concrete_views(inputs@) == concrete_views(old(inputs)@) + lookup_dependencies(
                    cm.subrange(0, i as int),
                ),
            decreases self.components.len() - i,
        {
            let ghost cur = cm.subrange(0, i + 1);
            assert(cur.drop_last() =~= cm.subrange(0, i as int));
            assert(cur.last() == cm[i as int]);
            proof {
                lemma_components_well_formed(cm, i as int);
            }
            match &self.components[i] {
                PathComponent::Name(_) => {
                    assert(concrete_views(inputs@) =~= concrete_views(old(inputs)@)
                        + lookup_dependencies(cur));
                },
                PathComponent::Lookup(path) => {
                    path.find_concrete_inputs(inputs);
                    assert(concrete_views(inputs@) =~= concrete_views(old(inputs)@)
                        + lookup_dependencies(cur));
                },
            }
            i = i + 1;
        }
        assert(cm.subrange(0, i as int) =~= cm);
    }

    /// The text form: `/` followed by the components joined by `/`.
    pub fn to_string(&self) -> (r: String)
        ensures
            r@ == address_model_text(self@),
        decreases self,
    {
        let ghost cm = self@.components;
        proof {
            lemma_script_model_components(*self);
            lemma_components_model(self.components@);
            reveal_strlit("/");
        }
        let mut r = "/".to_owned();
        let mut i: usize = 0;
        assert(cm.subrange(0, 0) =~= Seq::<ComponentModel>::empty());
        assert(r@ =~= seq!['/'] + join_components(cm.subrange(0, 0)));
        while i < self.components.len()
            invariant
                i <= self.components.len(),
                cm == self@.components,
                cm.len() == self.components.len(),
                forall|j: int|
                    0 <= j < self.components.len() ==> #[trigger] cm[j] == component_model(
                        self.components@[j],
                    ),
                r@ == seq!['/'] + join_components(cm.subrange(0, i as int)),
            decreases self.components.len() - i,
        {
            let ghost next = cm.subrange(0, i + 1);
            assert(next.drop_last() =~= cm.subrange(0, i as int));
            assert(next.last() == cm[i as int]);
            let piece = self.components[i].to_string();
            if i > 0 {
                proof {
                    reveal_strlit("/");
                }
                r.append("/");
                r.append(piece.as_str());
                assert(join_components(next) == join_components(next.drop_last()) + seq!['/']
                    + component_text(next.last()));
            } else {
                r.append(piece.as_str());
                assert(join_components(next.drop_last()) =~= Seq::<char>::empty());
                assert(join_components(next) == component_text(next[0]));
            }
            assert(r@ =~= seq!['/'] + join_components(next));
            i = i + 1;
        }
        assert(cm.subrange(0, i as int) =~= cm);
        r
    }

    /// Whether the text held no lookup at its top level.
    pub fn is_concrete(&self) -> (r: bool)
        ensures
            r == !self@.dynamic,
    {
        !self.dynamic
    }

    /// The concrete address named by the components, when all of them are
    /// names.
    pub fn as_concrete(&self) -> (r: Result<ConcretePath, ConversionError>)
        ensures
            r is Ok <==> !has_lookup(self@.components),
            r matches Ok(c) ==> c@ == concrete_names(self@.components),
            r matches Err(e) ==> e == ConversionError::InvariantViolation,
    {
        let ghost cm = self@.components;
        proof {
            lemma_script_model_components(*self);
            lemma_components_model(self.components@);
        }
        let mut concrete: Vec<String> = Vec::new();
        let mut i: usize = 0;
        while i < self.components.len()
            invariant
                i <= self.components.len(),
                cm == components_model(self.components@),
                cm.len() == self.components.len(),
                forall|j: int|
                    0 <= j < self.components.len() ==> #[trigger] cm[j] == component_model(
                        self.components@[j],
                    ),
                forall|j: int| 0 <= j < i ==> !(#[trigger] cm[j] is Lookup),
                strings_view(concrete@) == concrete_names(cm.subrange(0, i as int)),
            decreases self.components.len() - i,
        {
            match &self.components[i] {
                PathComponent::Name(name) => {
                    let s = name.clone();
                    proof {
                        lemma_strings_view_push(concrete@, s);
                    }
                    concrete.push(s);
                    assert(strings_view(concrete@) =~= concrete_names(cm.subrange(0, i + 1)));
                },
                PathComponent::Lookup(_) => {
                    assert(cm[i as int] is Lookup);
                    return Err(ConversionError::InvariantViolation);
                },
            }
            i = i + 1;
        }
        assert(cm.subrange(0, i as int) =~= cm);
        Ok(ConcretePath::from_components(concrete))
    }
}

} // verus!

use vstd::prelude::*;
use crate::error::{ResolutionError, SyntaxError};
use crate::text::{brace_balance, split_on_slash, tokens};
use crate::tree::{children_of, TreeModel};

verus! {

/// What a path component denotes: a literal name or an embedded address.
pub enum ComponentModel {
    Name(Seq<char>),
    Lookup(AddressModel),
}

/// What a dynamic address denotes: its components and whether any token of
/// its text was a lookup.
pub struct AddressModel {
    pub components: Seq<ComponentModel>,
    pub dynamic: bool,
}

pub open spec fn names_model(s: Seq<Seq<char>>) -> Seq<ComponentModel> {
    s.map_values(|n: Seq<char>| ComponentModel::Name(n))
}

/// The components that a relative text starts from: the segments of the
/// base address without its last one.
pub open spec fn base_prefix(base: Seq<char>) -> Seq<ComponentModel> {
    names_model(split_on_slash(base.drop_first()).drop_last())
}

/// A token of the form `{...}`.
pub open spec fn is_braced(tok: Seq<char>) -> bool {
    tok.len() >= 2 && tok[0] == '{' && tok.last() == '}'
}

/// The text between the outer braces of a braced token.
pub open spec fn inner_text(tok: Seq<char>) -> Seq<char> {
    tok.subrange(1, tok.len() - 1)
}

pub open spec fn is_absolute(text: Seq<char>) -> bool {
    text.len() > 0 && text[0] == '/'
}

/// The part of the text that is split into tokens.
pub open spec fn body_text(text: Seq<char>) -> Seq<char> {
    if is_absolute(text) {
        text.drop_first()
    } else {
        text
    }
}

/// The address that `text` denotes when read against `base`, or why it
/// denotes none.
pub open spec fn parse_model(base: Seq<char>, text: Seq<char>) -> Result<AddressModel, SyntaxError>
    decreases text.len(), 2nat, 0nat,
{
    let start = if is_absolute(text) {
        Seq::empty()
    } else {
        base_prefix(base)
    };
    let rest = body_text(text);
    if brace_balance(rest) != 0 {
        Err(SyntaxError::MismatchedBraces)
    } else {
        match resolve_tokens(base, tokens(rest), start, text.len()) {
            Ok((components, dynamic)) => Ok(AddressModel { components, dynamic }),
            Err(e) => Err(e),
        }
    }
}

/// Applies the tokens from left to right to the stack `start`; the flag tells
/// whether any of them was a lookup. `bound` is the length of the text the
/// tokens come from, which no token exceeds; it serves termination only.
pub open spec fn resolve_tokens(
    base: Seq<char>,
    toks: Seq<Seq<char>>,
    start: Seq<ComponentModel>,
    bound: nat,
) -> Result<(Seq<ComponentModel>, bool), SyntaxError>
    decreases bound, 1nat, toks.len(),
{
    if toks.len() == 0 {
        Ok((start, false))
    } else if toks.last().len() > bound {
        Err(SyntaxError::EmptyComponent)
    } else {
        match resolve_tokens(base, toks.drop_last(), start, bound) {
            Err(e) => Err(e),
            Ok((stack, dynamic)) => match resolve_token(base, stack, toks.last()) {
                Err(e) => Err(e),
                Ok((next, lookup)) => Ok((next, dynamic || lookup)),
            },
        }
    }
}

/// Applies one token to the stack; the flag tells whether it was a lookup.
pub open spec fn resolve_token(base: Seq<char>, stack: Seq<ComponentModel>, tok: Seq<char>) -> Result<
    (Seq<ComponentModel>, bool),
    SyntaxError,
>
    decreases tok.len(), 0nat, 0nat,
{
    if tok.len() == 0 {
        Err(SyntaxError::EmptyComponent)
    } else if tok == seq!['.'] {
        Ok((stack, false))
    } else if tok == seq!['.', '.'] {
        if stack.len() == 0 {
            Err(SyntaxError::ParentUnderflow)
        } else {
            Ok((stack.drop_last(), false))
        }
    } else if is_braced(tok) {
        match parse_model(base, inner_text(tok)) {
            Ok(m) => Ok((stack.push(ComponentModel::Lookup(m)), true)),
            Err(e) => Err(e),
        }
    } else if tok.contains('{') || tok.contains('}') {
        Err(SyntaxError::InvalidCharacter)
    } else {
        Ok((stack.push(ComponentModel::Name(tok)), false))
    }
}

pub open spec fn has_lookup(s: Seq<ComponentModel>) -> bool {
    exists|i: int| 0 <= i < s.len() && #[trigger] s[i] is Lookup
}

/// An address whose flag is set wherever it holds a lookup, at every level.
pub open spec fn well_formed(m: AddressModel) -> bool
    decreases m,
{
    &&& has_lookup(m.components) ==> m.dynamic
    &&& components_well_formed(m.components)
}

pub open spec fn components_well_formed(s: Seq<ComponentModel>) -> bool
    decreases s,
{
    if s.len() == 0 {
        true
    } else {
        &&& components_well_formed(s.drop_last())
        &&& match s.last() {
            ComponentModel::Name(_) => true,
            ComponentModel::Lookup(m) => well_formed(m),
        }
    }
}

/// The names of the components, read as a concrete address.
pub open spec fn concrete_names(s: Seq<ComponentModel>) -> Seq<Seq<char>> {
    s.map_values(
        |c: ComponentModel|
            match c {
                ComponentModel::Name(n) => n,
                ComponentModel::Lookup(_) => Seq::empty(),
            },
    )
}

/// Appends a name to every prefix of the working set; an empty set stands
/// for the root.
pub open spec fn append_name(ws: Seq<Seq<Seq<char>>>, n: Seq<char>) -> Seq<Seq<Seq<char>>> {
    if ws.len() == 0 {
        seq![seq![n]]
    } else {
        ws.map_values(|p: Seq<Seq<char>>| p.push(n))
    }
}

/// Replaces every prefix by one prefix per child that the tree lists under it.
pub open spec fn expand_children(ws: Seq<Seq<Seq<char>>>, tree: TreeModel) -> Result<
    Seq<Seq<Seq<char>>>,
    ResolutionError,
>
    decreases ws.len(),
{
    if ws.len() == 0 {
        Ok(Seq::empty())
    } else {
        match expand_children(ws.drop_last(), tree) {
            Err(e) => Err(e),
            Ok(acc) => match children_of(tree, ws.last()) {
                Err(e) => Err(e),
                Ok(cs) => Ok(acc + cs.map_values(|c: Seq<char>| ws.last().push(c))),
            },
        }
    }
}

/// The working set after a lookup; an empty set stands for the root.
pub open spec fn expand_lookup(ws: Seq<Seq<Seq<char>>>, tree: TreeModel) -> Result<
    Seq<Seq<Seq<char>>>,
    ResolutionError,
> {
    if ws.len() == 0 {
        expand_children(seq![Seq::empty()], tree)
    } else {
        expand_children(ws, tree)
    }
}

/// The working set after the components, taken from left to right.
pub open spec fn expand_components(s: Seq<ComponentModel>, tree: TreeModel) -> Result<
    Seq<Seq<Seq<char>>>,
    ResolutionError,
>
    decreases s.len(),
{
    if s.len() == 0 {
        Ok(Seq::empty())
    } else {
        match expand_components(s.drop_last(), tree) {
            Err(e) => Err(e),
            Ok(ws) => match s.last() {
                ComponentModel::Name(n) => Ok(append_name(ws, n)),
                ComponentModel::Lookup(_) => expand_lookup(ws, tree),
            },
        }
    }
}

/// The concrete addresses that `m` may denote in a tree of this shape.
pub open spec fn devirtualize_model(m: AddressModel, tree: TreeModel) -> Result<
    Seq<Seq<Seq<char>>>,
    ResolutionError,
> {
    if !m.dynamic {
        Ok(seq![concrete_names(m.components)])
    } else {
        expand_components(m.components, tree)
    }
}

/// The literal addresses embedded in `m`: itself when it is concrete, else
/// those of its lookups, from left to right.
pub open spec fn literal_dependencies(m: AddressModel) -> Seq<Seq<Seq<char>>>
    decreases m,
{
    if !m.dynamic {
        seq![concrete_names(m.components)]
    } else {
        lookup_dependencies(m.components)
    }
}

pub open spec fn lookup_dependencies(s: Seq<ComponentModel>) -> Seq<Seq<Seq<char>>>
    decreases s,
{
    if s.len() == 0 {
        Seq::empty()
    } else {
        lookup_dependencies(s.drop_last()) + match s.last() {
            ComponentModel::Name(_) => Seq::empty(),
            ComponentModel::Lookup(m) => literal_dependencies(m),
        }
    }
}

/// The text form of a component: a name as it is, a lookup in braces.
pub open spec fn component_text(c: ComponentModel) -> Seq<char>
    decreases c,
{
    match c {
        ComponentModel::Name(n) => n,
        ComponentModel::Lookup(m) => seq!['{'] + address_model_text(m) + seq!['}'],
    }
}

/// The text form of an address: `/` followed by its components joined by `/`.
pub open spec fn address_model_text(m: AddressModel) -> Seq<char>
    decreases m,
{
    seq!['/'] + join_components(m.components)
}

pub open spec fn join_components(s: Seq<ComponentModel>) -> Seq<char>
    decreases s,
{
    if s.len() == 0 {
        Seq::empty()
    } else if s.len() == 1 {
        component_text(s[0])
    } else {
        join_components(s.drop_last()) + seq!['/'] + component_text(s.last())
    }
}

} // verus!

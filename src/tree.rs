use vstd::prelude::*;
use crate::concrete::ConcretePath;
use crate::error::ResolutionError;
use crate::text::{copy_prefix, strings_view};

verus! {

/// The shape of a tree, as a list of entries: an address, and the names of
/// its children if it is a container (`None` for a leaf). A later entry for
/// the same address replaces an earlier one.
pub type TreeModel = Seq<(Seq<Seq<char>>, Option<Seq<Seq<char>>>)>;

/// The last entry for `p`, if any.
pub open spec fn node_at(t: TreeModel, p: Seq<Seq<char>>) -> Option<Option<Seq<Seq<char>>>>
    decreases t.len(),
{
    if t.len() == 0 {
        None
    } else if t.last().0 == p {
        Some(t.last().1)
    } else {
        node_at(t.drop_last(), p)
    }
}

/// The names of the children at `p`, or why there are none to list.
pub open spec fn children_of(t: TreeModel, p: Seq<Seq<char>>) -> Result<Seq<Seq<char>>, ResolutionError> {
    match node_at(t, p) {
        None => Err(ResolutionError::NotFound),
        Some(None) => Err(ResolutionError::NotAContainer),
        Some(Some(cs)) => Ok(cs),
    }
}

} // verus!

verus! {

/// One entry of a tree shape.
pub struct TreeNode {
    pub path: ConcretePath,
    pub children: Option<Vec<String>>,
}

pub open spec fn entry_model(e: TreeNode) -> (Seq<Seq<char>>, Option<Seq<Seq<char>>>) {
    (
        e.path@,
        match e.children {
            Some(v) => Some(strings_view(v@)),
            None => None,
        },
    )
}

/// A read-only snapshot of which nodes exist and which children each
/// container lists, in order.
pub struct TreeShape {
    entries: Vec<TreeNode>,
}

impl View for TreeShape {
    type V = TreeModel;

    closed spec fn view(&self) -> TreeModel {
        self.entries@.map_values(|e: TreeNode| entry_model(e))
    }
}

/// Whether two concrete addresses have the same segments.
fn same_path(a: &ConcretePath, b: &ConcretePath) -> (r: bool)
    ensures
        r == (a@ == b@),
{
    if a.components.len() != b.components.len() {
        assert(a@.len() != b@.len());
        return false;
    }
    let mut i: usize = 0;
    while i < a.components.len()
        invariant
            i <= a.components.len() == b.components.len(),
            forall|k: int| 0 <= k < i ==> a@[k] == b@[k],
        decreases a.components.len() - i,
    {
        if a.components[i] != b.components[i] {
            assert(a@[i as int] != b@[i as int]);
            return false;
        }
        i = i + 1;
    }
    assert(a@ =~= b@);
    true
}

impl TreeShape {
    pub fn new() -> (r: TreeShape)
        ensures
            r@ == TreeModel::empty(),
    {
        let r = TreeShape { entries: Vec::new() };
        assert(r@ =~= TreeModel::empty());
        r
    }

    /// Records a container at `path` listing `children`, in that order.
    pub fn add_container(&mut self, path: ConcretePath, children: Vec<String>)
        ensures
            final(self)@ == old(self)@.push((path@, Some(strings_view(children@)))),
    {
        let e = TreeNode { path, children: Some(children) };
        self.entries.push(e);
        assert(self@ =~= old(self)@.push(entry_model(e)));
    }

    /// Records a leaf at `path`: a node without children to list.
    pub fn add_leaf(&mut self, path: ConcretePath)
        ensures
            final(self)@ == old(self)@.push((path@, None::<Seq<Seq<char>>>)),
    {
        let e = TreeNode { path, children: None };
        self.entries.push(e);
        assert(self@ =~= old(self)@.push(entry_model(e)));
    }

    /// The names of the children listed at `path`.
    pub fn child_names(&self, path: &ConcretePath) -> (r: Result<Vec<String>, ResolutionError>)
        ensures
            r matches Ok(v) ==> children_of(self@, path@) == Ok::<Seq<Seq<char>>, ResolutionError>(
                strings_view(v@),
            ),
            r matches Err(e) ==> children_of(self@, path@) == Err::<Seq<Seq<char>>, ResolutionError>(
                e,
            ),
    {
        let mut i: usize = self.entries.len();
        assert(self@.subrange(0, i as int) =~= self@);
        while i > 0
            invariant
                i <= self.entries.len(),
                node_at(self@, path@) == node_at(self@.subrange(0, i as int), path@),
            decreases i,
        {
            let ghost prev = self@.subrange(0, i as int);
            assert(prev.drop_last() =~= self@.subrange(0, i - 1));
            assert(prev.last() == entry_model(self.entries@[i - 1]));
            let e = &self.entries[i - 1];
            if same_path(&e.path, path) {
                match &e.children {
                    Some(v) => {
                        let r = copy_prefix(v, v.len());
                        assert(strings_view(v@).subrange(0, v.len() as int) =~= strings_view(v@));
                        return Ok(r);
                    },
                    None => {
                        return Err(ResolutionError::NotAContainer);
                    },
                }
            }
            i = i - 1;
        }
        Err(ResolutionError::NotFound)
    }

    /// Whether `path` names a container.
    pub fn exists_and_is_container(&self, path: &ConcretePath) -> (r: bool)
        ensures
            r == children_of(self@, path@) is Ok,
    {
        self.child_names(path).is_ok()
    }
}

} // verus!

//! Paths inside a file tree, held as their components.

use vstd::prelude::*;

verus! {

/// The text that separates two components when a path is shown.
pub open spec fn separator() -> Seq<char> {
    seq!['/']
}

/// The text of a path: its components with a separator between each two.
pub open spec fn rendered(path: Seq<Seq<char>>) -> Seq<char>
    decreases path.len(),
{
    if path.len() == 0 {
        Seq::empty()
    } else if path.len() == 1 {
        path[0]
    } else {
        rendered(path.drop_last()) + separator() + path.last()
    }
}

/// A location in a file tree: the names of the directories that lead to it,
/// outermost first, and then its own name. The empty path is the root.
#[derive(Debug, PartialEq, Eq)]
pub struct TreePath {
    pub parts: Vec<String>,
}

impl View for TreePath {
    type V = Seq<Seq<char>>;

    open spec fn view(&self) -> Seq<Seq<char>> {
        Seq::new(self.parts@.len(), |i: int| self.parts@[i]@)
    }
}

/// The views of a list of paths.
pub open spec fn path_views(paths: Seq<TreePath>) -> Seq<Seq<Seq<char>>> {
    Seq::new(paths.len(), |i: int| paths[i]@)
}

impl Clone for TreePath {
    fn clone(&self) -> (copy: Self)
        ensures
            copy@ == self@,
    {
        let mut parts: Vec<String> = Vec::new();
        let mut i: usize = 0;
        while i < self.parts.len()
            invariant
                i <= self.parts.len(),
                parts@.len() == i,
                forall|k: int| 0 <= k < i ==> parts@[k]@ == self.parts@[k]@,
            decreases self.parts.len() - i,
        {
            parts.push(self.parts[i].clone());
            i += 1;
        }
        let copy = TreePath { parts };
        assert(copy@ =~= self@);
        copy
    }
}

impl TreePath {
    /// The root of the tree.
    pub fn root() -> (path: TreePath)
        ensures
            path@ == Seq::<Seq<char>>::empty(),
    {
        let path = TreePath { parts: Vec::new() };
        assert(path@ =~= Seq::<Seq<char>>::empty());
        path
    }

    /// The number of components.
    pub fn len(&self) -> (n: usize)
        ensures
            n == self@.len(),
    {
        self.parts.len()
    }

    /// The path of the entry `name` inside the directory `self`.
    pub fn join(&self, name: &str) -> (path: TreePath)
        ensures
            path@ == self@.push(name@),
    {
        let mut path = self.clone();
        path.parts.push(name.to_owned());
        assert(path@ =~= self@.push(name@));
        path
    }

    /// The directory that holds `self`; the root is its own parent.
    pub fn parent(&self) -> (path: TreePath)
        ensures
            path@ == if self@.len() == 0 {
                self@
            } else {
                self@.drop_last()
            },
    {
        let mut path = self.clone();
        if path.parts.len() > 0 {
            path.parts.pop();
        }
        assert(path@ =~= if self@.len() == 0 {
            self@
        } else {
            self@.drop_last()
        });
        path
    }

    /// The last component, which names the entry itself; the root has none.
    pub fn file_name(&self) -> (name: Option<String>)
        ensures
            self@.len() == 0 ==> name is None,
            self@.len() > 0 ==> name is Some && name->0@ == self@.last(),
    {
        let n = self.parts.len();
        if n == 0 {
            None
        } else {
            Some(self.parts[n - 1].clone())
        }
    }

    /// Whether both paths have the same components.
    pub fn same_as(&self, other: &TreePath) -> (same: bool)
        ensures
            same == (self@ == other@),
    {
        if self.parts.len() != other.parts.len() {
            assert(self@.len() != other@.len());
            return false;
        }
        let mut i: usize = 0;
        while i < self.parts.len()
            invariant
                i <= self.parts.len(),
                self.parts.len() == other.parts.len(),
                forall|k: int| 0 <= k < i ==> self@[k] == other@[k],
            decreases self.parts.len() - i,
        {
            if self.parts[i] != other.parts[i] {
                assert(self@[i as int] != other@[i as int]);
                return false;
            }
            i += 1;
        }
        assert(self@ =~= other@);
        true
    }

    /// Whether `self` is `base` or lies below it.
    pub fn starts_with(&self, base: &TreePath) -> (inside: bool)
        ensures
            inside == base@.is_prefix_of(self@),
    {
        if base.parts.len() > self.parts.len() {
            return false;
        }
        let mut i: usize = 0;
        while i < base.parts.len()
            invariant
                i <= base.parts.len(),
                base.parts.len() <= self.parts.len(),
                forall|k: int| 0 <= k < i ==> self@[k] == base@[k],
            decreases base.parts.len() - i,
        {
            if self.parts[i] != base.parts[i] {
                assert(self@.subrange(0, base@.len() as int)[i as int] != base@[i as int]);
                return false;
            }
            i += 1;
        }
        assert(base@ =~= self@.subrange(0, base@.len() as int));
        true
    }

    /// The path as text, the components separated by `/`.
    pub fn display(&self) -> (text: String)
        ensures
            text@ == rendered(self@),
    {
        let mut text = String::new();
        let mut i: usize = 0;
        while i < self.parts.len()
            invariant
                i <= self.parts.len(),
                text@ == rendered(self@.take(i as int)),
            decreases self.parts.len() - i,
        {
            proof {
                reveal_strlit("/");
                let next = self@.take(i + 1);
                assert(next.drop_last() =~= self@.take(i as int));
                assert(next.last() == self@[i as int]);
                assert("/"@ =~= separator());
                if i == 0 {
                    assert(text@ + self@[0] =~= self@[0]);
                }
            }
            if i > 0 {
                text.append("/");
            }
            text.append(self.parts[i].as_str());
            i += 1;
        }
        assert(self@.take(self@.len() as int) =~= self@);
        text
    }
}

} // verus!

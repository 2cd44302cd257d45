//! The directory tree: creating subdirectories and walking to one by a path.
use vstd::prelude::*;
use crate::error::{is_invalid_child, DirError};
use crate::names::{contains_slash, has_slash, names, same_name};

verus! {

/// A directory entry: a component name and the directory it names.
#[derive(Debug)]
pub struct DEnt<'a> {
    pub name: &'a str,
    pub subdir: DTree<'a>,
}

/// A directory tree.
#[derive(Debug)]
pub struct DTree<'a> {
    pub children: Vec<DEnt<'a>>,
}

impl<'a> DTree<'a> {
    /// Whether names are unique among the children of every directory of the tree,
    /// and no name holds `/`.
    pub open spec fn wf(self) -> bool
        decreases self,
    {
        &&& forall|i: int|
            0 <= i < self.children@.len() ==> !has_slash(#[trigger] self.children@[i].name@)
        &&& forall|i: int, j: int|
            0 <= i < j < self.children@.len() ==> #[trigger] self.children@[i].name@
                != #[trigger] self.children@[j].name@
        &&& forall|i: int|
            0 <= i < self.children@.len() ==> (#[trigger] self.children@[i]).subdir.wf()
    }

    /// Whether some child of this directory is named `n`.
    pub open spec fn has_child(self, n: Seq<char>) -> bool {
        exists|i: int| 0 <= i < self.children@.len() && self.children@[i].name@ == n
    }

    /// Whether `i` is the first position among the children that holds the name `n`.
    pub open spec fn first_named(self, n: Seq<char>, i: int) -> bool {
        &&& 0 <= i < self.children@.len()
        &&& self.children@[i].name@ == n
        &&& forall|j: int| 0 <= j < i ==> self.children@[j].name@ != n
    }

    /// The position of the first child named `n`, if any.
    pub open spec fn find(self, n: Seq<char>) -> Option<int> {
        if self.has_child(n) {
            Some(choose|i: int| self.first_named(n, i))
        } else {
            None
        }
    }

    /// The subtree that the names of `p` lead to, walking from this directory one
    /// child at a time; or the first name that is missing on the way.
    pub open spec fn resolve(self, p: Seq<Seq<char>>) -> Result<DTree<'a>, Seq<char>>
        decreases p.len(),
    {
        if p.len() == 0 {
            Ok(self)
        } else {
            match self.find(p[0]) {
                Some(i) => self.children@[i].subdir.resolve(p.drop_first()),
                None => Err(p[0]),
            }
        }
    }

    /// Lemma: `find` succeeds exactly on the names that some child holds, and then
    /// gives the first position that holds the name.
    pub proof fn lemma_find(self, n: Seq<char>)
        ensures
            self.has_child(n) <==> self.find(n) is Some,
            self.find(n) matches Some(i) ==> self.first_named(n, i),
    {
        if self.has_child(n) {
            let k = choose|k: int| 0 <= k < self.children@.len() && self.children@[k].name@ == n;
            self.lemma_first_named(n, k);
        }
    }

    /// Lemma: a name held at position `k` is first held at some position.
    proof fn lemma_first_named(self, n: Seq<char>, k: int)
        requires
            0 <= k < self.children@.len(),
            self.children@[k].name@ == n,
        ensures
            exists|i: int| self.first_named(n, i),
        decreases k,
    {
        if exists|j: int| 0 <= j < k && self.children@[j].name@ == n {
            let j = choose|j: int| 0 <= j < k && self.children@[j].name@ == n;
            self.lemma_first_named(n, j);
        } else {
            assert(self.first_named(n, k));
        }
    }

    /// Whether `new` is this directory with the subtree at `p` replaced by `sub`,
    /// every other node kept as it was.
    pub open spec fn replaced(self, p: Seq<Seq<char>>, sub: DTree<'a>, new: DTree<'a>) -> bool
        decreases p.len(),
    {
        if p.len() == 0 {
            new == sub
        } else {
            match self.find(p[0]) {
                Some(i) => {
                    &&& i < new.children@.len()
                    &&& new.children@ == self.children@.update(
                        i,
                        DEnt { name: self.children@[i].name, subdir: new.children@[i].subdir },
                    )
                    &&& self.children@[i].subdir.replaced(p.drop_first(), sub, new.children@[i].subdir)
                },
                None => false,
            }
        }
    }

    /// Whether `new` is this directory with one more child, named `n` and empty,
    /// placed after the others.
    pub open spec fn added(self, n: Seq<char>, new: DTree<'a>) -> bool {
        &&& new.children@.len() == self.children@.len() + 1
        &&& new.children@.drop_last() == self.children@
        &&& new.children@.last().name@ == n
        &&& new.children@.last().subdir.children@.len() == 0
    }

    /// Lemma: the first position that holds a name is unique.
    pub proof fn lemma_first_named_unique(self, n: Seq<char>, i: int, j: int)
        requires
            self.first_named(n, i),
            self.first_named(n, j),
        ensures
            i == j,
    {
        if i < j {
            assert(self.children@[i].name@ != n);
        } else if j < i {
            assert(self.children@[j].name@ != n);
        }
    }

    /// Lemma: after the subtree at `p` is replaced by `sub`, `p` leads to `sub`.
    pub proof fn lemma_replaced_resolve(self, p: Seq<Seq<char>>, sub: DTree<'a>, new: DTree<'a>)
        requires
            self.replaced(p, sub, new),
        ensures
            new.resolve(p) == Ok::<DTree<'a>, Seq<char>>(sub),
        decreases p.len(),
    {
        if p.len() > 0 {
            self.lemma_find(p[0]);
            let i = self.find(p[0])->Some_0;
            assert(new.children@[i].name@ == p[0]);
            new.lemma_find(p[0]);
            let j = new.find(p[0])->Some_0;
            assert(self.first_named(p[0], j)) by {
                assert(forall|m: int|
                    0 <= m < self.children@.len() ==> new.children@[m].name
                        == self.children@[m].name);
            }
            self.lemma_first_named_unique(p[0], i, j);
            self.children@[i].subdir.lemma_replaced_resolve(
                p.drop_first(),
                sub,
                new.children@[i].subdir,
            );
        }
    }

    /// Lemma: a fresh name without `/`, added to a well-formed directory, keeps it
    /// well-formed.
    pub proof fn lemma_added_wf(self, n: Seq<char>, new: DTree<'a>)
        requires
            self.wf(),
            self.added(n, new),
            !has_slash(n),
            !self.has_child(n),
        ensures
            new.wf(),
    {
        let len = self.children@.len();
        assert forall|i: int| 0 <= i < len implies new.children@[i] == self.children@[i] by {
            assert(new.children@[i] == new.children@.drop_last()[i]);
        }
        assert(new.children@[len as int] == new.children@.last());
        assert(new.children@[len as int].subdir.wf());
    }

    /// Lemma: whatever a path leads to in a well-formed tree is well-formed.
    pub proof fn lemma_resolve_wf(self, p: Seq<Seq<char>>)
        requires
            self.wf(),
            self.resolve(p) is Ok,
        ensures
            self.resolve(p)->Ok_0.wf(),
        decreases p.len(),
    {
        if p.len() > 0 {
            self.lemma_find(p[0]);
            let i = self.find(p[0])->Some_0;
            assert(self.children@[i].subdir.wf());
            self.children@[i].subdir.lemma_resolve_wf(p.drop_first());
        }
    }

    /// Lemma: replacing a subtree of a well-formed tree by a well-formed one keeps
    /// the tree well-formed.
    pub proof fn lemma_replaced_wf(self, p: Seq<Seq<char>>, sub: DTree<'a>, new: DTree<'a>)
        requires
            self.wf(),
            sub.wf(),
            self.replaced(p, sub, new),
        ensures
            new.wf(),
        decreases p.len(),
    {
        if p.len() > 0 {
            self.lemma_find(p[0]);
            let i = self.find(p[0])->Some_0;
            assert(self.children@[i].subdir.wf());
            self.children@[i].subdir.lemma_replaced_wf(
                p.drop_first(),
                sub,
                new.children@[i].subdir,
            );
            assert forall|m: int| 0 <= m < new.children@.len() implies new.children@[m].name
                == self.children@[m].name by {}
            assert forall|m: int| 0 <= m < new.children@.len() implies (
            #[trigger] new.children@[m]).subdir.wf() by {
                if m != i {
                    assert(new.children@[m] == self.children@[m]);
                }
            }
        }
    }

    /// Finds the position of the first child named `name`.
    pub(crate) fn find_child(&self, name: &str) -> (r: Option<usize>)
        ensures
            r matches Some(i) ==> self.find(name@) == Some(i as int),
            r is None <==> self.find(name@) is None,
    {
        proof {
            self.lemma_find(name@);
        }
        let mut i: usize = 0;
        while i < self.children.len()
            invariant
                i <= self.children@.len(),
                forall|j: int| 0 <= j < i ==> self.children@[j].name@ != name@,
            decreases self.children@.len() - i,
        {
            if same_name(self.children[i].name, name) {
                assert(self.first_named(name@, i as int));
                return Some(i);
            }
            i += 1;
        }
        None
    }
}

impl<'a> DEnt<'a> {
    /// Makes an entry named `name` with an empty directory.
    ///
    /// # Errors
    ///
    /// * `DirError::SlashInName` if `name` contains `/`.
    pub fn new(name: &'a str) -> (r: Result<Self, DirError<'a>>)
        ensures
            has_slash(name@) ==> r == Err::<Self, DirError<'a>>(DirError::SlashInName(name)),
            !has_slash(name@) ==> (r matches Ok(e) && e.name == name && e.subdir.children@.len() == 0),
    {
        if contains_slash(name) {
            return Err(DirError::SlashInName(name));
        }
        Ok(DEnt { name, subdir: DTree::new() })
    }
}

impl<'a> DTree<'a> {
    /// Creates a new empty directory tree.
    pub fn new() -> (r: Self)
        ensures
            r.children@.len() == 0,
            r.wf(),
    {
        DTree { children: Vec::new() }
    }

    /// Makes a subdirectory with the given name in this directory.
    ///
    /// # Errors
    ///
    /// * `DirError::SlashInName` if `name` contains `/`.
    /// * `DirError::DirExists` if `name` already exists.
    pub fn mkdir(&mut self, name: &'a str) -> (r: Result<(), DirError<'a>>)
        ensures
            r is Ok <==> !has_slash(name@) && !old(self).has_child(name@),
            has_slash(name@) ==> r == Err::<(), DirError<'a>>(DirError::SlashInName(name)),
            !has_slash(name@) && old(self).has_child(name@) ==> r == Err::<(), DirError<'a>>(
                DirError::DirExists(name),
            ),
            r is Ok ==> old(self).added(name@, *final(self)),
            r is Err ==> *final(self) == *old(self),
            old(self).wf() ==> final(self).wf(),
    {
        if contains_slash(name) {
            return Err(DirError::SlashInName(name));
        }
        if self.find_child(name).is_some() {
            return Err(DirError::DirExists(name));
        }
        proof {
            self.lemma_find(name@);
        }
        let ghost before = *self;
        match DEnt::new(name) {
            Ok(entry) => {
                self.children.push(entry);
                assert(self.children@.drop_last() =~= before.children@);
                proof {
                    if before.wf() {
                        before.lemma_added_wf(name@, *self);
                    }
                }
                Ok(())
            },
            Err(e) => Err(e),
        }
    }

    /// Walks from this directory along the names of `path` and hands out the
    /// subtree reached; the empty path reaches this directory.
    ///
    /// # Errors
    ///
    /// * `DirError::InvalidChild` with the first name of `path` that is missing.
    pub fn with_subdir<'b>(&'b self, path: &[&'a str]) -> (r: Result<&'b DTree<'a>, DirError<'a>>)
        ensures
            self.resolve(names(path@)) matches Ok(t) ==> r == Ok::<&'b DTree<'a>, DirError<'a>>(&t),
            self.resolve(names(path@)) matches Err(n) ==> (r matches Err(e) && is_invalid_child(e, n)),
    {
        let ghost p = names(path@);
        let mut cur: &'b DTree<'a> = self;
        let mut i: usize = 0;
        assert(p.skip(0) =~= p);
        while i < path.len()
            invariant
                p == names(path@),
                i <= path@.len(),
                self.resolve(p) == cur.resolve(p.skip(i as int)),
            decreases path@.len() - i,
        {
            assert(p.skip(i as int).drop_first() =~= p.skip(i + 1));
            proof {
                cur.lemma_find(path@[i as int]@);
            }
            match cur.find_child(path[i]) {
                Some(k) => {
                    cur = &cur.children[k].subdir;
                },
                None => {
                    return Err(DirError::InvalidChild(path[i]));
                },
            }
            i += 1;
        }
        assert(p.skip(i as int) =~= Seq::<Seq<char>>::empty());
        Ok(cur)
    }

    /// Walks along `path` from its position `i` on, where every name is known to
    /// be present, and hands out the subtree reached for change in place.
    fn subdir_mut<'b>(&'b mut self, path: &[&'a str], i: usize) -> (r: &'b mut DTree<'a>)
        requires
            i <= path@.len(),
            old(self).resolve(names(path@).skip(i as int)) is Ok,
        ensures
            old(self).resolve(names(path@).skip(i as int)) == Ok::<DTree<'a>, Seq<char>>(*r),
            old(self).replaced(names(path@).skip(i as int), *final(r), *final(self)),
        decreases path@.len() - i,
    {
        let ghost p = names(path@).skip(i as int);
        if i == path.len() {
            assert(p =~= Seq::<Seq<char>>::empty());
            return self;
        }
        assert(p.drop_first() =~= names(path@).skip(i + 1));
        proof {
            self.lemma_find(p[0]);
        }
        let k = match self.find_child(path[i]) {
            Some(k) => k,
            None => {
                // not reached: the requires says that every name is present
                return self;
            },
        };
        let entry = &mut self.children[k];
        entry.subdir.subdir_mut(path, i + 1)
    }

    /// Walks from this directory along the names of `path` and hands out the
    /// subtree reached for change in place; the empty path reaches this directory.
    /// What is done through the handle is done to this tree, and nothing else
    /// changes.
    ///
    /// # Errors
    ///
    /// * `DirError::InvalidChild` with the first name of `path` that is missing;
    ///   the tree is then left as it was.
    pub fn with_subdir_mut<'b>(&'b mut self, path: &[&'a str]) -> (r: Result<&'b mut DTree<'a>, DirError<'a>>)
        ensures
            old(self).resolve(names(path@)) matches Ok(t) ==> (r matches Ok(h) && *h == t
                && old(self).replaced(names(path@), *final(h), *final(self))),
            old(self).resolve(names(path@)) matches Err(n) ==> (r matches Err(e)
                && is_invalid_child(e, n) && *final(self) == *old(self)),
    {
        match self.with_subdir(path) {
            Err(e) => {
                return Err(e);
            },
            Ok(_) => {},
        }
        assert(names(path@).skip(0) =~= names(path@));
        Ok(self.subdir_mut(path, 0))
    }
}

impl<'a> Default for DTree<'a> {
    /// The empty directory tree.
    fn default() -> (r: Self)
        ensures
            r.children@.len() == 0,
    {
        DTree::new()
    }
}

/// No duplicate siblings: once `mkdir(n)` has succeeded on a directory, turning it
/// into `t1`, a second `mkdir(n)` on `t1` finds the name taken and fails with
/// `DirError::DirExists`.
pub proof fn lemma_mkdir_twice<'a>(t0: DTree<'a>, n: Seq<char>, t1: DTree<'a>)
    requires
        !has_slash(n),
        !t0.has_child(n),
        t0.added(n, t1),
    ensures
        t1.has_child(n),
{
    assert(t1.children@[t0.children@.len() as int] == t1.children@.last());
}

} // verus!

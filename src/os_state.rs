//! The operating-system stub: a directory tree and a working directory in it.
use vstd::prelude::*;
use crate::error::{is_invalid_child, DirError};
use crate::names::{contains_slash, has_slash, names, strs};
use crate::tree::DTree;

verus! {

/// Operating system state: the directory tree and the current working directory.
#[derive(Debug)]
pub struct OsState<'a> {
    pub dtree: DTree<'a>,
    pub cwd: Vec<&'a str>,
}

impl<'a> Default for OsState<'a> {
    /// An empty tree, with the root as working directory.
    fn default() -> (r: Self)
        ensures
            r.dtree.children@.len() == 0,
            r.cwd@.len() == 0,
    {
        OsState::new()
    }
}

impl<'a> OsState<'a> {
    /// Whether the working directory names a directory of the tree.
    pub open spec fn wf(self) -> bool {
        self.dtree.resolve(names(self.cwd@)) is Ok
    }

    /// Creates a new directory tree in the operating system.  The working directory
    /// is the root.
    pub fn new() -> (r: Self)
        ensures
            r.dtree.children@.len() == 0,
            r.cwd@.len() == 0,
            r.wf(),
            r.dtree.wf(),
    {
        OsState { dtree: DTree::new(), cwd: Vec::new() }
    }

    /// If `path` is empty, changes the working directory to the root.  Otherwise
    /// changes the working directory to the subdirectory given by `path` relative
    /// to the working directory.  (There is no notion of `.` or `..`: `path` must be
    /// a valid sequence of component names.)
    ///
    /// # Errors
    ///
    /// * `DirError::InvalidChild` with the first name that is missing on the way.
    ///   The working directory is then kept.
    pub fn chdir(&mut self, path: &[&'a str]) -> (r: Result<(), DirError<'a>>)
        ensures
            final(self).dtree == old(self).dtree,
            path@.len() == 0 ==> r is Ok && final(self).cwd@.len() == 0,
            path@.len() > 0 ==> match old(self).dtree.resolve(names(old(self).cwd@ + path@)) {
                Ok(_) => r is Ok && final(self).cwd@ == old(self).cwd@ + path@,
                Err(n) => (r matches Err(e) && is_invalid_child(e, n)) && final(self).cwd == old(
                    self,
                ).cwd,
            },
            r is Err ==> *final(self) == *old(self),
            old(self).wf() ==> final(self).wf(),
    {
        if path.len() == 0 {
            self.cwd.clear();
            assert(names(self.cwd@) =~= Seq::<Seq<char>>::empty());
            return Ok(());
        }
        let mut candidate: Vec<&'a str> = Vec::new();
        let mut i: usize = 0;
        while i < self.cwd.len()
            invariant
                i <= self.cwd@.len(),
                candidate@ == self.cwd@.take(i as int),
            decreases self.cwd@.len() - i,
        {
            candidate.push(self.cwd[i]);
            assert(self.cwd@.take(i + 1) =~= self.cwd@.take(i as int).push(self.cwd@[i as int]));
            i += 1;
        }
        let mut j: usize = 0;
        while j < path.len()
            invariant
                i == self.cwd@.len(),
                j <= path@.len(),
                candidate@ == self.cwd@ + path@.take(j as int),
            decreases path@.len() - j,
        {
            candidate.push(path[j]);
            assert(path@.take(j + 1) =~= path@.take(j as int).push(path@[j as int]));
            assert(self.cwd@ + path@.take(j + 1) =~= (self.cwd@ + path@.take(j as int)).push(path@[j as int]));
            j += 1;
        }
        assert(self.cwd@.take(i as int) =~= self.cwd@);
        assert(path@.take(j as int) =~= path@);
        match self.dtree.with_subdir(candidate.as_slice()) {
            Ok(_) => {
                self.cwd = candidate;
                Ok(())
            },
            Err(e) => Err(e),
        }
    }

    /// Makes a new subdirectory with the given `name` in the working directory.
    ///
    /// # Errors
    ///
    /// * `DirError::SlashInName` if `name` contains `/`.
    /// * `DirError::InvalidChild` if the working directory is invalid.
    /// * `DirError::DirExists` if `name` already exists.
    ///
    /// On error the state is left as it was.
    pub fn mkdir(&mut self, name: &'a str) -> (r: Result<(), DirError<'a>>)
        ensures
            has_slash(name@) ==> r == Err::<(), DirError<'a>>(DirError::SlashInName(name)),
            !has_slash(name@) ==> match old(self).dtree.resolve(names(old(self).cwd@)) {
                Err(n) => r matches Err(e) && is_invalid_child(e, n),
                Ok(t) => if t.has_child(name@) {
                    r == Err::<(), DirError<'a>>(DirError::DirExists(name))
                } else {
                    &&& r is Ok
                    &&& final(self).cwd == old(self).cwd
                    &&& final(self).dtree.resolve(names(old(self).cwd@)) matches Ok(t2)
                    &&& t.added(name@, t2)
                    &&& old(self).dtree.replaced(names(old(self).cwd@), t2, final(self).dtree)
                },
            },
            r is Err ==> *final(self) == *old(self),
            old(self).wf() ==> final(self).wf(),
            old(self).dtree.wf() ==> final(self).dtree.wf(),
    {
        if contains_slash(name) {
            return Err(DirError::SlashInName(name));
        }
        match self.dtree.with_subdir(self.cwd.as_slice()) {
            Err(e) => {
                return Err(e);
            },
            Ok(t) => {
                if t.find_child(name).is_some() {
                    return Err(DirError::DirExists(name));
                }
                proof {
                    t.lemma_find(name@);
                }
            },
        }
        let ghost c = names(self.cwd@);
        let ghost before = self.dtree;
        let h = match self.dtree.with_subdir_mut(self.cwd.as_slice()) {
            Ok(h) => h,
            Err(e) => {
                return Err(e);
            },
        };
        let ghost t = *h;
        let res = h.mkdir(name);
        proof {
            before.lemma_replaced_resolve(c, *h, self.dtree);
            if before.wf() {
                before.lemma_resolve_wf(c);
                before.lemma_replaced_wf(c, *h, self.dtree);
            }
        }
        res
    }

    /// Lists the paths from the working directory to each leaf below it, in no
    /// particular order.  Path components are prefixed by `/`.
    ///
    /// # Errors
    ///
    /// * `DirError::InvalidChild` if the working directory is invalid.
    pub fn paths(&self) -> (r: Result<Vec<String>, DirError<'a>>)
        ensures
            match self.dtree.resolve(names(self.cwd@)) {
                Ok(t) => r matches Ok(v) && strs(v@) == t.leaf_paths(),
                Err(n) => r matches Err(e) && is_invalid_child(e, n),
            },
    {
        match self.dtree.with_subdir(self.cwd.as_slice()) {
            Ok(t) => Ok(t.paths()),
            Err(e) => Err(e),
        }
    }
}

} // verus!

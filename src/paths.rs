//! Leaf enumeration: the path from a directory down to each leaf below it.
use vstd::prelude::*;
use crate::names::{joined, render, strs};
use crate::tree::{DEnt, DTree};

verus! {

impl<'a> DEnt<'a> {
    /// The paths from this entry down to each leaf below it, or to itself if its
    /// directory is empty: every name followed by `/`.
    pub open spec fn leaf_paths(self) -> Seq<Seq<char>>
        decreases self, 0int,
    {
        let pre = self.name@ + seq!['/'];
        if self.subdir.children@.len() == 0 {
            seq![pre]
        } else {
            self.subdir.entry_paths(self.subdir.children@.len() as int).map_values(
                |y: Seq<char>| pre + y,
            )
        }
    }
}

impl<'a> DTree<'a> {
    /// The leaf paths of the first `k` children, child after child.
    pub open spec fn entry_paths(self, k: int) -> Seq<Seq<char>>
        decreases self, k,
    {
        if k <= 0 || k > self.children@.len() {
            Seq::empty()
        } else {
            self.entry_paths(k - 1) + self.children@[k - 1].leaf_paths()
        }
    }

    /// The paths from this directory to each leaf below it, each with a leading `/`.
    pub open spec fn leaf_paths(self) -> Seq<Seq<char>> {
        self.entry_paths(self.children@.len() as int).map_values(|y: Seq<char>| seq!['/'] + y)
    }
}

/// Appends to `out` each string of `ys` with `prefix` put before it.
fn push_prefixed(out: &mut Vec<String>, prefix: &str, ys: &Vec<String>)
    ensures
        final(out)@.len() == old(out)@.len() + ys@.len(),
        forall|m: int| 0 <= m < old(out)@.len() ==> final(out)@[m] == old(out)@[m],
        forall|m: int|
            0 <= m < ys@.len() ==> (#[trigger] final(out)@[old(out)@.len() + m])@ == prefix@
                + ys@[m]@,
{
    let ghost start = out@;
    let mut j: usize = 0;
    while j < ys.len()
        invariant
            j <= ys@.len(),
            out@.len() == start.len() + j,
            forall|m: int| 0 <= m < start.len() ==> out@[m] == start[m],
            forall|m: int| 0 <= m < j ==> (#[trigger] out@[start.len() + m])@ == prefix@ + ys@[m]@,
        decreases ys@.len() - j,
    {
        let s = prefix.to_owned().concat(ys[j].as_str());
        out.push(s);
        j += 1;
    }
}

impl<'a> DEnt<'a> {
    /// The paths from this entry down to each leaf below it.
    fn paths(&self) -> (r: Vec<String>)
        ensures
            strs(r@) == self.leaf_paths(),
        decreases self,
    {
        proof {
            reveal_strlit("/");
        }
        let pre = self.name.to_owned().concat("/");
        assert("/"@ =~= seq!['/']);
        let mut pathvec: Vec<String> = Vec::new();
        if self.subdir.children.len() == 0 {
            pathvec.push(pre);
            assert(strs(pathvec@)[0] == pathvec@[0]@);
            assert(strs(pathvec@) =~= self.leaf_paths());
            return pathvec;
        }
        let ghost d = self.subdir;
        let mut i: usize = 0;
        while i < self.subdir.children.len()
            invariant
                d == self.subdir,
                i <= d.children@.len(),
                pre@ == self.name@ + seq!['/'],
                pathvec@.len() == d.entry_paths(i as int).len(),
                forall|m: int|
                    0 <= m < pathvec@.len() ==> (#[trigger] pathvec@[m])@ == pre@ + d.entry_paths(
                        i as int,
                    )[m],
            decreases d.children@.len() - i,
        {
            let ys = self.subdir.children[i].paths();
            let ghost before = pathvec@;
            push_prefixed(&mut pathvec, pre.as_str(), &ys);
            assert(d.entry_paths(i + 1) == d.entry_paths(i as int)
                + d.children@[i as int].leaf_paths());
            assert forall|m: int| 0 <= m < pathvec@.len() implies (#[trigger] pathvec@[m])@ == pre@
                + d.entry_paths(i + 1)[m] by {
                if m >= before.len() {
                    let q = m - before.len();
                    assert(pathvec@[before.len() + q] == pathvec@[m]);
                    assert(ys@[q]@ == strs(ys@)[q]);
                }
            }
            i += 1;
        }
        assert(strs(pathvec@) =~= self.leaf_paths());
        pathvec
    }
}

impl<'a> DTree<'a> {
    /// Lists the path to each leaf below this directory.  Path components are
    /// prefixed by `/`.  Leaves come child after child, in the order in which the
    /// children were made; callers should not rely on that order.
    pub fn paths(&self) -> (r: Vec<String>)
        ensures
            strs(r@) == self.leaf_paths(),
    {
        proof {
            reveal_strlit("/");
        }
        let mut pathvec: Vec<String> = Vec::new();
        let mut i: usize = 0;
        while i < self.children.len()
            invariant
                i <= self.children@.len(),
                "/"@ == seq!['/'],
                pathvec@.len() == self.entry_paths(i as int).len(),
                forall|m: int|
                    0 <= m < pathvec@.len() ==> (#[trigger] pathvec@[m])@ == seq!['/']
                        + self.entry_paths(i as int)[m],
            decreases self.children@.len() - i,
        {
            let ys = self.children[i].paths();
            let ghost before = pathvec@;
            push_prefixed(&mut pathvec, "/", &ys);
            assert(self.entry_paths(i + 1) == self.entry_paths(i as int)
                + self.children@[i as int].leaf_paths());
            assert forall|m: int| 0 <= m < pathvec@.len() implies (#[trigger] pathvec@[m])@
                == seq!['/'] + self.entry_paths(i + 1)[m] by {
                if m >= before.len() {
                    let q = m - before.len();
                    assert(pathvec@[before.len() + q] == pathvec@[m]);
                    assert(ys@[q]@ == strs(ys@)[q]);
                }
            }
            i += 1;
        }
        assert(strs(pathvec@) =~= self.leaf_paths());
        pathvec
    }
}

impl<'a> DEnt<'a> {
    /// The names from this entry down to each leaf below it, or to itself if its
    /// directory is empty.
    pub open spec fn leaf_names(self) -> Seq<Seq<Seq<char>>>
        decreases self, 0int,
    {
        if self.subdir.children@.len() == 0 {
            seq![seq![self.name@]]
        } else {
            self.subdir.entry_names(self.subdir.children@.len() as int).map_values(
                |q: Seq<Seq<char>>| seq![self.name@] + q,
            )
        }
    }

    /// The number of directories without children at or below this entry.
    pub open spec fn leaf_count(self) -> nat
        decreases self, 0int,
    {
        if self.subdir.children@.len() == 0 {
            1
        } else {
            self.subdir.entry_count(self.subdir.children@.len() as int)
        }
    }

    proof fn lemma_leaves(self)
        ensures
            self.leaf_paths().len() == self.leaf_names().len(),
            self.leaf_names().len() == self.leaf_count(),
            forall|m: int|
                0 <= m < self.leaf_names().len() ==> self.leaf_paths()[m] == joined(
                    #[trigger] self.leaf_names()[m],
                ),
        decreases self, 0int,
    {
        let n = self.name@;
        if self.subdir.children@.len() == 0 {
            assert(seq![n].drop_first() =~= Seq::<Seq<char>>::empty());
            assert(joined(seq![n]) == n + seq!['/']) by {
                assert(joined(seq![n].drop_first()) =~= Seq::<char>::empty());
                assert(n + seq!['/'] + Seq::<char>::empty() =~= n + seq!['/']);
            }
        } else {
            let d = self.subdir;
            let len = d.children@.len() as int;
            d.lemma_entries(len);
            assert forall|m: int| 0 <= m < self.leaf_names().len() implies self.leaf_paths()[m]
                == joined(#[trigger] self.leaf_names()[m]) by {
                let q = d.entry_names(len)[m];
                assert((seq![n] + q).drop_first() =~= q);
                assert(self.leaf_names()[m] == seq![n] + q);
                assert((seq![n] + q)[0] == n);
            }
        }
    }
}

impl<'a> DTree<'a> {
    /// The leaf names of the first `k` children, child after child.
    pub open spec fn entry_names(self, k: int) -> Seq<Seq<Seq<char>>>
        decreases self, k,
    {
        if k <= 0 || k > self.children@.len() {
            Seq::empty()
        } else {
            self.entry_names(k - 1) + self.children@[k - 1].leaf_names()
        }
    }

    /// The number of leaves below the first `k` children.
    pub open spec fn entry_count(self, k: int) -> nat
        decreases self, k,
    {
        if k <= 0 || k > self.children@.len() {
            0
        } else {
            self.entry_count(k - 1) + self.children@[k - 1].leaf_count()
        }
    }

    /// The names from this directory down to each leaf below it.
    pub open spec fn leaf_names(self) -> Seq<Seq<Seq<char>>> {
        self.entry_names(self.children@.len() as int)
    }

    /// The number of directories without children below this one.
    pub open spec fn leaf_count(self) -> nat {
        self.entry_count(self.children@.len() as int)
    }

    /// Whether `p` leads from this directory, by at least one step, to a directory
    /// without children.
    pub open spec fn leads_to_leaf(self, p: Seq<Seq<char>>) -> bool {
        &&& p.len() > 0
        &&& self.resolve(p) matches Ok(l)
        &&& l.children@.len() == 0
    }

    proof fn lemma_entries(self, k: int)
        requires
            0 <= k <= self.children@.len(),
        ensures
            self.entry_paths(k).len() == self.entry_names(k).len(),
            self.entry_names(k).len() == self.entry_count(k),
            forall|m: int|
                0 <= m < self.entry_names(k).len() ==> self.entry_paths(k)[m] == joined(
                    #[trigger] self.entry_names(k)[m],
                ),
        decreases self, k,
    {
        if k > 0 {
            self.lemma_entries(k - 1);
            self.children@[k - 1].lemma_leaves();
            let a = self.entry_names(k - 1);
            assert forall|m: int| 0 <= m < self.entry_names(k).len() implies self.entry_paths(k)[m]
                == joined(#[trigger] self.entry_names(k)[m]) by {
                if m >= a.len() {
                    assert(self.children@[k - 1].leaf_paths()[m - a.len()] == joined(
                        self.children@[k - 1].leaf_names()[m - a.len()],
                    ));
                } else {
                    assert(self.entry_paths(k - 1)[m] == joined(self.entry_names(k - 1)[m]));
                }
            }
        }
    }

    proof fn lemma_child_found(self, j: int)
        requires
            self.wf(),
            0 <= j < self.children@.len(),
        ensures
            self.find(self.children@[j].name@) == Some(j),
    {
        let n = self.children@[j].name@;
        self.lemma_find(n);
        assert(self.first_named(n, j));
        self.lemma_first_named_unique(n, j, self.find(n)->Some_0);
    }

    proof fn lemma_entries_resolve(self, k: int)
        requires
            self.wf(),
            0 <= k <= self.children@.len(),
        ensures
            forall|m: int|
                0 <= m < self.entry_names(k).len() ==> self.leads_to_leaf(
                    #[trigger] self.entry_names(k)[m],
                ),
        decreases self, k,
    {
        if k > 0 {
            self.lemma_entries_resolve(k - 1);
            let j = k - 1;
            let e = self.children@[j];
            let d = e.subdir;
            let a = self.entry_names(k - 1);
            self.lemma_child_found(j);
            assert(d.wf());
            let len = d.children@.len() as int;
            if len > 0 {
                d.lemma_entries_resolve(len);
            }
            assert forall|m: int| 0 <= m < self.entry_names(k).len() implies self.leads_to_leaf(
                #[trigger] self.entry_names(k)[m],
            ) by {
                if m >= a.len() {
                    let x = self.entry_names(k)[m];
                    assert(x == e.leaf_names()[m - a.len()]);
                    if len == 0 {
                        assert(x == seq![e.name@]);
                        assert(x.drop_first() =~= Seq::<Seq<char>>::empty());
                        assert(d.resolve(x.drop_first()) == Ok::<DTree<'a>, Seq<char>>(d));
                    } else {
                        let q = d.entry_names(len)[m - a.len()];
                        assert(x == seq![e.name@] + q);
                        assert(x.drop_first() =~= q);
                        assert(d.leads_to_leaf(q));
                    }
                    assert(x[0] == e.name@);
                    assert(self.resolve(x) == d.resolve(x.drop_first()));
                } else {
                    assert(self.leads_to_leaf(a[m]));
                }
            }
        }
    }

    proof fn lemma_entry_contains(self, k: int, j: int, x: Seq<Seq<char>>)
        requires
            0 <= j < k <= self.children@.len(),
            self.children@[j].leaf_names().contains(x),
        ensures
            self.entry_names(k).contains(x),
        decreases k,
    {
        let a = self.entry_names(k - 1);
        let b = self.children@[k - 1].leaf_names();
        if j == k - 1 {
            let m = choose|m: int| 0 <= m < b.len() && b[m] == x;
            assert(self.entry_names(k)[a.len() + m] == x);
        } else {
            self.lemma_entry_contains(k - 1, j, x);
            let m = choose|m: int| 0 <= m < a.len() && a[m] == x;
            assert(self.entry_names(k)[m] == x);
        }
    }

    proof fn lemma_leaf_listed(self, p: Seq<Seq<char>>)
        requires
            self.leads_to_leaf(p),
        ensures
            self.leaf_names().contains(p),
        decreases p.len(),
    {
        self.lemma_find(p[0]);
        let j = self.find(p[0])->Some_0;
        let e = self.children@[j];
        let d = e.subdir;
        let rest = p.drop_first();
        let len = self.children@.len() as int;
        if rest.len() == 0 {
            assert(p =~= seq![e.name@]);
            assert(e.leaf_names()[0] == p);
        } else {
            if d.children@.len() == 0 {
                d.lemma_find(rest[0]);
            }
            d.lemma_leaf_listed(rest);
            let q = choose|m: int| 0 <= m < d.leaf_names().len() && d.leaf_names()[m] == rest;
            assert(p =~= seq![e.name@] + rest);
            assert(e.leaf_names()[q] == p);
        }
        self.lemma_entry_contains(len, j, p);
    }
}

/// Leaf enumeration is complete: in a tree whose names are unique among siblings
/// and free of `/`, `paths` yields exactly one string per directory without
/// children below the tree's root. String `m` is the rendering of name sequence
/// `m`, which leads from the root to such a directory, and every path from the
/// root to such a directory is one of these sequences.
pub proof fn lemma_leaf_paths<'a>(t: DTree<'a>)
    requires
        t.wf(),
    ensures
        t.leaf_paths().len() == t.leaf_count(),
        t.leaf_names().len() == t.leaf_count(),
        forall|m: int|
            0 <= m < t.leaf_count() ==> t.leaf_paths()[m] == render(#[trigger] t.leaf_names()[m])
                && t.leads_to_leaf(t.leaf_names()[m]),
        forall|p: Seq<Seq<char>>| t.leads_to_leaf(p) ==> t.leaf_names().contains(p),
{
    let len = t.children@.len() as int;
    t.lemma_entries(len);
    t.lemma_entries_resolve(len);
    assert forall|p: Seq<Seq<char>>| t.leads_to_leaf(p) implies t.leaf_names().contains(p) by {
        t.lemma_leaf_listed(p);
    }
}

} // verus!

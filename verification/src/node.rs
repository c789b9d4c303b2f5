//! The frame tree: one node per call site (or thread), a hit count, and
//! uniquely named children. Merging two trees adds their hit counts at
//! every path.

use vstd::prelude::*;
use crate::text::str_eq;

verus! {

broadcast use vstd::std_specs::vec::group_vec_axioms, vstd::seq::group_seq_axioms;

/// One node of a flame-graph call tree: a frame (or thread) name, the
/// number of sampled occurrences of the call path that ends here, and the
/// subtrees of the frames called from here, keyed by their names.
#[derive(Debug)]
pub struct FlameGraphNode {
    pub name: String,
    pub num: u32,
    pub children: Vec<FlameGraphNode>,
}

/// Some tree of the forest bears this name.
pub open spec fn forest_has(cs: Seq<FlameGraphNode>, name: Seq<char>) -> bool {
    exists|i: int| 0 <= i < cs.len() && cs[i].name@ == name
}

/// The index of the tree with this name (meaningful where names are
/// unique).
pub open spec fn forest_idx(cs: Seq<FlameGraphNode>, name: Seq<char>) -> int {
    choose|i: int| 0 <= i < cs.len() && cs[i].name@ == name
}

/// The hit count a forest of subtrees contributes to a non-empty path.
pub open spec fn forest_count(cs: Seq<FlameGraphNode>, path: Seq<Seq<char>>) -> nat
    decreases cs, 1nat, 0nat,
{
    if path.len() == 0 {
        0
    } else if forest_has(cs, path[0]) {
        cs[forest_idx(cs, path[0])].count_at(path.skip(1))
    } else {
        0
    }
}

/// The names of the forest's trees are pairwise distinct.
pub open spec fn distinct_names(cs: Seq<FlameGraphNode>) -> bool {
    forall|i: int, j: int| 0 <= i < j < cs.len() ==> cs[i].name@ != cs[j].name@
}

impl FlameGraphNode {
    /// There is a child with this name.
    pub open spec fn has_child(self, name: Seq<char>) -> bool {
        forest_has(self.children@, name)
    }

    /// The child with this name.
    pub open spec fn the_child(self, name: Seq<char>) -> FlameGraphNode {
        self.children@[forest_idx(self.children@, name)]
    }

    /// Well-formed tree: child names are unique at every node, and every
    /// node below the root has been hit at least once.
    pub open spec fn wf(self) -> bool
        decreases self,
    {
        &&& distinct_names(self.children@)
        &&& (forall|i: int|
            0 <= i < self.children@.len() ==> (#[trigger] self.children@[i]).num >= 1
                && self.children@[i].wf())
    }

    /// The hit count found by walking the given sequence of child names
    /// down from this node: the node's own count for the empty path, the
    /// count the named subtree contributes otherwise, and zero once the
    /// path leaves the tree.
    pub open spec fn count_at(self, path: Seq<Seq<char>>) -> nat
        decreases self, 0nat, path.len(),
    {
        if path.len() == 0 {
            self.num as nat
        } else {
            forest_count(self.children@, path)
        }
    }

    /// The path denotes a node of this tree.
    pub open spec fn reaches(self, path: Seq<Seq<char>>) -> bool
        decreases self, path.len(),
    {
        path.len() == 0 || (self.has_child(path[0]) && self.the_child(path[0]).reaches(
            path.skip(1),
        ))
    }

    /// Merging `other` into `self` overflows no hit count: at every path
    /// that exists in `other`, the two counts sum to at most `u32::MAX`.
    pub open spec fn merge_fits(self, other: FlameGraphNode) -> bool {
        forall|p: Seq<Seq<char>>|
            #[trigger] other.reaches(p) ==> self.count_at(p) + other.count_at(p) <= u32::MAX
    }
}


/// While a merge loop runs, the children of `cur` named like a tree of
/// `rem` are still exactly those `orig` had: each such name is present in
/// `cur` iff it was in `orig`, with the same subtree.
pub open spec fn unmerged_children_intact(
    cur: FlameGraphNode,
    orig: FlameGraphNode,
    rem: Seq<FlameGraphNode>,
) -> bool {
    forall|k: int|
        0 <= k < rem.len() ==> #[trigger] cur.has_child(rem[k].name@) == orig.has_child(
            rem[k].name@,
        ) && (orig.has_child(rem[k].name@) ==> cur.the_child(rem[k].name@) == orig.the_child(
            rem[k].name@,
        ))
}

/// Where names are unique, any index with a matching name is the one
/// `forest_idx` picks.
pub proof fn lemma_forest_witness(cs: Seq<FlameGraphNode>, i: int)
    requires
        distinct_names(cs),
        0 <= i < cs.len(),
    ensures
        forest_has(cs, cs[i].name@),
        forest_idx(cs, cs[i].name@) == i,
{
    let n = cs[i].name@;
    assert(forest_has(cs, n));
    let j = forest_idx(cs, n);
    if i < j {
        assert(cs[i].name@ != cs[j].name@);
    } else if j < i {
        assert(cs[j].name@ != cs[i].name@);
    }
}

/// Every count in a tree is the count of a single node, so it is bounded
/// by `u32::MAX`.
pub proof fn lemma_count_le_max(t: FlameGraphNode, p: Seq<Seq<char>>)
    ensures
        t.count_at(p) <= u32::MAX,
    decreases t, 0nat, p.len(),
{
    if p.len() > 0 && forest_has(t.children@, p[0]) {
        lemma_count_le_max(t.children@[forest_idx(t.children@, p[0])], p.skip(1));
    }
}

/// A positive count lies only on a path the tree actually reaches.
pub proof fn lemma_count_reaches(t: FlameGraphNode, p: Seq<Seq<char>>)
    ensures
        t.count_at(p) > 0 ==> t.reaches(p),
    decreases t, 0nat, p.len(),
{
    if p.len() > 0 && forest_has(t.children@, p[0]) {
        lemma_count_reaches(t.children@[forest_idx(t.children@, p[0])], p.skip(1));
    }
}

/// Replacing the tree at index `j` of a uniquely named forest by one with
/// the same name changes only the counts under that name.
pub proof fn lemma_forest_update(
    cs: Seq<FlameGraphNode>,
    j: int,
    c: FlameGraphNode,
    p: Seq<Seq<char>>,
)
    requires
        distinct_names(cs),
        0 <= j < cs.len(),
        c.name@ == cs[j].name@,
    ensures
        distinct_names(cs.update(j, c)),
        forest_count(cs.update(j, c), p) == (if p.len() > 0 && p[0] == c.name@ {
            c.count_at(p.skip(1))
        } else {
            forest_count(cs, p)
        }),
        forall|m: Seq<char>| #[trigger] forest_has(cs.update(j, c), m) == forest_has(cs, m),
        forall|m: Seq<char>|
            m != c.name@ && forest_has(cs, m) ==> cs.update(j, c)[forest_idx(
                cs.update(j, c),
                m,
            )] == cs[forest_idx(cs, m)],
{
    let cs2 = cs.update(j, c);
    assert(forall|i: int| 0 <= i < cs.len() ==> cs2[i].name@ == (#[trigger] cs[i]).name@);
    assert forall|m: Seq<char>| #[trigger] forest_has(cs2, m) == forest_has(cs, m) by {
        if forest_has(cs, m) {
            let i = forest_idx(cs, m);
            assert(cs2[i].name@ == m);
            assert(forest_has(cs2, m));
        }
        if forest_has(cs2, m) {
            let i = forest_idx(cs2, m);
            assert(cs[i].name@ == m);
            assert(forest_has(cs, m));
        }
    }
    assert forall|m: Seq<char>| m != c.name@ && forest_has(cs, m) implies cs2[forest_idx(cs2, m)]
        == cs[forest_idx(cs, m)] by {
        let i2 = forest_idx(cs2, m);
        assert(cs2[i2].name@ == m);
        assert(cs[i2].name@ == m);
        lemma_forest_witness(cs, i2);
        assert(forest_idx(cs, m) == i2);
        assert(cs[j].name@ == c.name@);
        assert(i2 != j);
        assert(cs2[i2] == cs[i2]);
    }
    if p.len() > 0 {
        let n = p[0];
        if forest_has(cs, n) {
            if n == c.name@ {
                let i = forest_idx(cs, n);
                lemma_forest_witness(cs, j);
                assert(i == j);
                assert(cs2[j].name@ == n);
                lemma_forest_witness(cs2, j);
            }
        }
    }
}

/// Appending a tree whose name is new to a uniquely named forest adds
/// exactly that tree's counts; paths under the new name had count zero.
pub proof fn lemma_forest_push(cs: Seq<FlameGraphNode>, c: FlameGraphNode, p: Seq<Seq<char>>)
    requires
        distinct_names(cs),
        !forest_has(cs, c.name@),
    ensures
        distinct_names(cs.push(c)),
        forest_count(cs.push(c), p) == forest_count(cs, p) + (if p.len() > 0 && p[0] == c.name@ {
            c.count_at(p.skip(1))
        } else {
            0nat
        }),
        forest_has(cs.push(c), c.name@),
        forall|m: Seq<char>|
            m != c.name@ ==> #[trigger] forest_has(cs.push(c), m) == forest_has(cs, m),
        forall|m: Seq<char>|
            m != c.name@ && forest_has(cs, m) ==> cs.push(c)[forest_idx(cs.push(c), m)]
                == cs[forest_idx(cs, m)],
{
    let cs2 = cs.push(c);
    assert(forall|i: int| 0 <= i < cs.len() ==> cs2[i] == cs[i]);
    assert(cs2[cs.len() as int] == c);
    assert(forest_has(cs2, c.name@));
    assert forall|i: int, k: int| 0 <= i < k < cs2.len() implies cs2[i].name@ != cs2[k].name@ by {
        if k == cs.len() as int {
            assert(cs2[i] == cs[i]);
            if cs[i].name@ == c.name@ {
                assert(forest_has(cs, c.name@));
            }
        }
    }
    assert forall|m: Seq<char>| m != c.name@ implies #[trigger] forest_has(cs2, m) == forest_has(
        cs,
        m,
    ) by {
        if forest_has(cs, m) {
            let i = forest_idx(cs, m);
            assert(cs2[i].name@ == m);
            assert(forest_has(cs2, m));
        }
        if forest_has(cs2, m) {
            let i = forest_idx(cs2, m);
            assert(i != cs.len() as int);
            assert(cs[i].name@ == m);
            assert(forest_has(cs, m));
        }
    }
    assert forall|m: Seq<char>| m != c.name@ && forest_has(cs, m) implies cs2[forest_idx(cs2, m)]
        == cs[forest_idx(cs, m)] by {
        let i2 = forest_idx(cs2, m);
        assert(cs2[i2].name@ == m);
        assert(i2 != cs.len() as int);
        assert(cs[i2].name@ == m);
        lemma_forest_witness(cs, i2);
        assert(cs2[i2] == cs[i2]);
    }
    if p.len() > 0 {
        let n = p[0];
        if n == c.name@ {
            let i2 = forest_idx(cs2, n);
            assert(cs2[i2].name@ == n);
            if i2 != cs.len() as int {
                assert(cs[i2].name@ == n);
                assert(forest_has(cs, n));
            }
            assert(cs2[i2] == c);
        }
    }
}

impl FlameGraphNode {
    /// A fresh node with the given name and hit count and no children.
    pub fn new(name: &str, num: u32) -> (r: FlameGraphNode)
        ensures
            r.name@ == name@,
            r.num == num,
            r.children@.len() == 0,
            r.wf(),
            forall|p: Seq<Seq<char>>|
                #[trigger] r.count_at(p) == (if p.len() == 0 {
                    num as nat
                } else {
                    0nat
                }),
            forall|p: Seq<Seq<char>>| #[trigger] r.reaches(p) ==> p.len() == 0,
    {
        let r = FlameGraphNode { name: name.to_owned(), num, children: Vec::new() };
        proof {
            assert forall|p: Seq<Seq<char>>| #[trigger] r.reaches(p) implies p.len() == 0 by {
                if p.len() > 0 {
                    assert(!forest_has(r.children@, p[0]));
                }
            }
        }
        r
    }

    /// The index of the child with this name, if any.
    pub fn child_index(&self, name: &str) -> (r: Option<usize>)
        ensures
            match r {
                Some(i) => i < self.children@.len() && self.children@[i as int].name@ == name@,
                None => !self.has_child(name@),
            },
    {
        let n = self.children.len();
        let mut i: usize = 0;
        while i < n
            invariant
                n == self.children@.len(),
                i <= n,
                forall|j: int| 0 <= j < i ==> self.children@[j].name@ != name@,
            decreases n - i,
        {
            if str_eq(self.children[i].name.as_str(), name) {
                return Some(i);
            }
            i = i + 1;
        }
        None
    }

    /// The child with the given name, created with one hit where it was
    /// missing; the index of that child is returned.
    pub fn get_or_insert(&mut self, name: &str) -> (i: usize)
        ensures
            final(self).name == old(self).name,
            final(self).num == old(self).num,
            i < final(self).children@.len(),
            final(self).children@[i as int].name@ == name@,
            old(self).has_child(name@) ==> *final(self) == *old(self),
            !old(self).has_child(name@) ==> final(self).children@.len() == old(self).children@.len()
                + 1,
            !old(self).has_child(name@) ==> i == old(self).children@.len(),
            !old(self).has_child(name@) ==> (forall|k: int|
                0 <= k < old(self).children@.len() ==> final(self).children@[k]
                    == old(self).children@[k]),
            !old(self).has_child(name@) ==> final(self).children@[i as int].num == 1,
            !old(self).has_child(name@) ==> final(self).children@[i as int].children@.len() == 0,
    {
        match self.child_index(name) {
            Some(i) => i,
            None => {
                let i = self.children.len();
                self.children.push(FlameGraphNode::new(name, 1));
                i
            },
        }
    }

    /// Merge `other` into this tree: the hit counts of the two trees add
    /// up at every path. Same-named children are merged recursively;
    /// children whose name is new are grafted whole.
    #[verifier::rlimit(30)]
    #[verifier::loop_isolation(false)]
    pub fn merge(&mut self, other: FlameGraphNode)
        requires
            old(self).wf(),
            other.wf(),
            old(self).merge_fits(other),
        ensures
            final(self).wf(),
            final(self).name == old(self).name,
            forall|p: Seq<Seq<char>>|
                #[trigger] final(self).count_at(p) == old(self).count_at(p) + other.count_at(p),
        decreases other,
    {
        let ghost other0 = other;
        proof {
            let e = Seq::<Seq<char>>::empty();
            assert(other0.reaches(e));
            assert(old(self).count_at(e) + other0.count_at(e) <= u32::MAX);
        }
        let ghost self0 = *self;
        let FlameGraphNode { name: _other_name, num: other_num, children: other_children } = other;
        let mut rem = other_children;
        self.num = self.num + other_num;
        proof {
            assert(rem@ =~= other0.children@.take(rem@.len() as int));
        }
        while rem.len() > 0
            invariant
                self.wf(),
                other0.wf(),
                self0.wf(),
                self0.merge_fits(other0),
                self.name == self0.name,
                self.num == self0.num + other0.num,
                rem@.len() <= other0.children@.len(),
                rem@ == other0.children@.take(rem@.len() as int),
                forall|p: Seq<Seq<char>>|
                    p.len() > 0 ==> #[trigger] self.count_at(p) + forest_count(rem@, p)
                        == self0.count_at(p) + forest_count(other0.children@, p),
                unmerged_children_intact(*self, self0, rem@),
            decreases rem@.len(),
        {
            let ghost rem_old = rem@;
            let oc_opt = rem.pop();
            let oc = oc_opt.unwrap();
            let ghost k = rem@.len() as int;
            let ghost n = oc.name@;
            proof {
                assert(rem_old == other0.children@.take(k + 1));
                assert(oc == rem_old[k]);
                assert(oc == other0.children@[k]);
                assert(rem@ =~= rem_old.drop_last());
                assert(rem@ =~= other0.children@.take(k));
                assert(rem_old =~= rem@.push(oc));
                // names among the remaining children are distinct, and do not
                // include the popped one
                assert(forall|i: int|
                    0 <= i < rem@.len() ==> rem@[i] == (#[trigger] other0.children@[i]));
                assert(distinct_names(rem@));
                if forest_has(rem@, n) {
                    let i = forest_idx(rem@, n);
                    assert(other0.children@[i].name@ == n);
                    assert(other0.children@[k].name@ == n);
                }
                assert(!forest_has(rem@, n));
                assert(oc.wf());
                assert(oc.num >= 1);
                lemma_forest_witness(other0.children@, k);
                assert(other0.the_child(n) == oc);
            }
            let ghost sstart = *self;
            let j_opt = self.child_index(oc.name.as_str());
            match j_opt {
                None => {
                    let ghost sc = self.children@;
                    proof {
                        assert(!forest_has(sc, n));
                    }
                    self.children.push(oc);
                    proof {
                        assert(self.children@ == sc.push(oc));
                        assert forall|p: Seq<Seq<char>>|
                            p.len() > 0 implies #[trigger] self.count_at(p) + forest_count(rem@, p)
                            == self0.count_at(p) + forest_count(other0.children@, p) by {
                            assert(sstart.count_at(p) + forest_count(rem_old, p) == self0.count_at(
                                p,
                            ) + forest_count(other0.children@, p));
                            assert(sstart.count_at(p) == forest_count(sc, p));
                            lemma_forest_push(sc, oc, p);
                            lemma_forest_push(rem@, oc, p);
                            assert(forest_count(rem_old, p) == forest_count(rem@.push(oc), p));
                            assert(self.count_at(p) == forest_count(sc.push(oc), p));
                        }
                        assert forall|k2: int|
                            0 <= k2 < rem@.len() implies #[trigger] self.has_child(rem@[k2].name@)
                            == self0.has_child(rem@[k2].name@) && (self0.has_child(rem@[k2].name@)
                            ==> self.the_child(rem@[k2].name@) == self0.the_child(
                            rem@[k2].name@,
                        )) by {
                            let m = rem@[k2].name@;
                            assert(rem_old[k2] == rem@[k2]);
                            assert(sstart.has_child(rem_old[k2].name@) == self0.has_child(
                                rem_old[k2].name@,
                            ));
                            if self0.has_child(m) {
                                assert(sstart.the_child(rem_old[k2].name@) == self0.the_child(
                                    rem_old[k2].name@,
                                ));
                            }
                            assert(other0.children@[k2].name@ == m);
                            assert(m != n);
                            lemma_forest_push(sc, oc, Seq::<Seq<char>>::empty());
                            assert(sstart.has_child(m) == forest_has(sc, m));
                            assert(self.has_child(m) == forest_has(sc.push(oc), m));
                        }
                        assert(unmerged_children_intact(*self, self0, rem@));
                        lemma_forest_push(sc, oc, Seq::<Seq<char>>::empty());
                        assert(self.wf()) by {
                            assert(distinct_names(self.children@));
                            assert(forall|i: int|
                                0 <= i < sc.len() ==> (#[trigger] self.children@[i]) == sc[i]);
                            assert(forall|i: int|
                                0 <= i < sc.len() ==> (#[trigger] sc[i]).num >= 1 && sc[i].wf());
                        }
                    }
                },
                Some(j) => {
                    let ghost sc = self.children@;
                    proof {
                        lemma_forest_witness(sc, j as int);
                        assert(forest_has(sc, n));
                        assert(forest_idx(sc, n) == j as int);
                        // this child was never touched: it is the one the tree
                        // had at entry
                        assert(self.has_child(n) == self0.has_child(n));
                        assert(self.the_child(n) == self0.the_child(n));
                    }
                    let mut c = self.children.remove(j);
                    proof {
                        assert(c == sc[j as int]);
                        assert(c == self0.the_child(n));
                        assert(c.wf());
                        // the counts to be added fit, by the fit of the whole
                        // merge at every path below this child's name
                        assert forall|q: Seq<Seq<char>>| #[trigger] oc.reaches(q) implies c.count_at(
                            q,
                        ) + oc.count_at(q) <= u32::MAX by {
                            let p = seq![n] + q;
                            assert(p.len() > 0);
                            assert(p[0] == n);
                            assert(p.skip(1) =~= q);
                            assert(other0.reaches(p));
                            assert(self0.count_at(p) + other0.count_at(p) <= u32::MAX);
                            assert(other0.count_at(p) == oc.count_at(q));
                            if self0.has_child(n) {
                                assert(self0.count_at(p) == c.count_at(q));
                            }
                        }
                        assert(c.merge_fits(oc));
                        assert(decreases_to!(other0 => other0.children));
                        assert(decreases_to!(other0.children => other0.children@));
                        assert(decreases_to!(other0.children@ => other0.children@[k]));
                        assert(decreases_to!(other0 => oc));
                    }
                    let ghost c0 = c;
                    c.merge(oc);
                    self.children.insert(j, c);
                    proof {
                        assert(self.children@ =~= sc.update(j as int, c));
                        assert(c.name@ == n);
                        assert(c.num >= 1) by {
                            let e = Seq::<Seq<char>>::empty();
                            assert(c.count_at(e) == c0.count_at(e) + oc.count_at(e));
                        }
                        assert forall|p: Seq<Seq<char>>|
                            p.len() > 0 implies #[trigger] self.count_at(p) + forest_count(rem@, p)
                            == self0.count_at(p) + forest_count(other0.children@, p) by {
                            assert(sstart.count_at(p) + forest_count(rem_old, p) == self0.count_at(
                                p,
                            ) + forest_count(other0.children@, p));
                            assert(sstart.count_at(p) == forest_count(sc, p));
                            lemma_forest_update(sc, j as int, c, p);
                            lemma_forest_push(rem@, oc, p);
                            assert(forest_count(rem_old, p) == forest_count(rem@.push(oc), p));
                            assert(self.count_at(p) == forest_count(sc.update(j as int, c), p));
                            if p[0] == n {
                                assert(c.count_at(p.skip(1)) == c0.count_at(p.skip(1))
                                    + oc.count_at(p.skip(1)));
                                assert(forest_count(sc, p) == c0.count_at(p.skip(1))) by {
                                    lemma_forest_witness(sc, j as int);
                                }
                            }
                        }
                        assert forall|k2: int|
                            0 <= k2 < rem@.len() implies #[trigger] self.has_child(rem@[k2].name@)
                            == self0.has_child(rem@[k2].name@) && (self0.has_child(rem@[k2].name@)
                            ==> self.the_child(rem@[k2].name@) == self0.the_child(
                            rem@[k2].name@,
                        )) by {
                            let m = rem@[k2].name@;
                            assert(rem_old[k2] == rem@[k2]);
                            assert(sstart.has_child(rem_old[k2].name@) == self0.has_child(
                                rem_old[k2].name@,
                            ));
                            if self0.has_child(m) {
                                assert(sstart.the_child(rem_old[k2].name@) == self0.the_child(
                                    rem_old[k2].name@,
                                ));
                            }
                            assert(other0.children@[k2].name@ == m);
                            assert(m != n);
                            lemma_forest_update(sc, j as int, c, Seq::<Seq<char>>::empty());
                            assert(sstart.has_child(m) == forest_has(sc, m));
                            assert(self.has_child(m) == forest_has(sc.update(j as int, c), m));
                        }
                        assert(unmerged_children_intact(*self, self0, rem@));
                        lemma_forest_update(sc, j as int, c, Seq::<Seq<char>>::empty());
                        assert(self.wf()) by {
                            assert(distinct_names(self.children@));
                            assert(forall|i: int|
                                0 <= i < self.children@.len() && i != j ==> (
                                #[trigger] self.children@[i]) == sc[i]);
                        }
                    }
                },
            }
        }
        proof {
            assert(rem@.len() == 0);
            assert forall|p: Seq<Seq<char>>| #[trigger] final(self).count_at(p) == old(
                self,
            ).count_at(p) + other0.count_at(p) by {
                if p.len() == 0 {
                    assert(final(self).num == old(self).num + other0.num);
                } else {
                    assert(!forest_has(rem@, p[0]));
                    assert(forest_count(rem@, p) == 0);
                    assert(self0.count_at(p) == old(self).count_at(p));
                    assert(other0.count_at(p) == forest_count(other0.children@, p));
                }
            }
        }
    }

    /// An independently owned copy of this tree: same root name, and the
    /// same hit count at every path.
    #[verifier::loop_isolation(false)]
    pub fn copy_tree(&self) -> (r: FlameGraphNode)
        requires
            self.wf(),
        ensures
            r.wf(),
            r.name@ == self.name@,
            r.num == self.num,
            forall|p: Seq<Seq<char>>| #[trigger] r.count_at(p) == self.count_at(p),
        decreases *self,
    {
        let mut cs: Vec<FlameGraphNode> = Vec::new();
        let n = self.children.len();
        let mut i: usize = 0;
        while i < n
            invariant
                i <= n,
                cs@.len() == i,
                forall|k: int|
                    0 <= k < i ==> (#[trigger] cs@[k]).wf() && cs@[k].name@
                        == self.children@[k].name@ && cs@[k].num == self.children@[k].num,
                forall|k: int, q: Seq<Seq<char>>|
                    0 <= k < i ==> #[trigger] cs@[k].count_at(q) == self.children@[k].count_at(q),
            decreases n - i,
        {
            proof {
                assert(decreases_to!(*self => self.children));
                assert(decreases_to!(self.children => self.children@));
                assert(decreases_to!(self.children@ => self.children@[i as int]));
            }
            cs.push(self.children[i].copy_tree());
            i = i + 1;
        }
        let r = FlameGraphNode { name: self.name.clone(), num: self.num, children: cs };
        proof {
            assert(forall|k: int|
                0 <= k < n ==> (#[trigger] r.children@[k]).name@ == self.children@[k].name@);
            assert forall|k: int, j: int| 0 <= k < j < n implies r.children@[k].name@
                != r.children@[j].name@ by {
                assert(self.children@[k].name@ != self.children@[j].name@);
            }
            assert(r.wf());
            assert forall|p: Seq<Seq<char>>| #[trigger] r.count_at(p) == self.count_at(p) by {
                if p.len() > 0 {
                    let m = p[0];
                    if forest_has(self.children@, m) {
                        let k = forest_idx(self.children@, m);
                        lemma_forest_witness(self.children@, k);
                        assert(r.children@[k].name@ == m);
                        lemma_forest_witness(r.children@, k);
                        assert(forest_count(r.children@, p) == r.children@[k].count_at(p.skip(1)));
                        assert(r.children@[k].count_at(p.skip(1)) == self.children@[k].count_at(
                            p.skip(1),
                        ));
                    } else {
                        if forest_has(r.children@, m) {
                            let k = forest_idx(r.children@, m);
                            assert(self.children@[k].name@ == m);
                        }
                        assert(!forest_has(r.children@, m));
                    }
                }
            }
        }
        r
    }

    /// Whether merging `other` into this tree would keep every hit count
    /// within `u32`.
    #[verifier::rlimit(30)]
    #[verifier::loop_isolation(false)]
    pub fn can_merge(&self, other: &FlameGraphNode) -> (r: bool)
        requires
            self.wf(),
            other.wf(),
        ensures
            r == self.merge_fits(*other),
        decreases *other,
    {
        if self.num > u32::MAX - other.num {
            proof {
                let e = Seq::<Seq<char>>::empty();
                assert(other.reaches(e));
                assert(self.count_at(e) + other.count_at(e) > u32::MAX);
            }
            return false;
        }
        let n = other.children.len();
        let mut i: usize = 0;
        while i < n
            invariant
                i <= n,
                forall|k: int|
                    0 <= k < i && self.has_child((#[trigger] other.children@[k]).name@)
                        ==> self.the_child(other.children@[k].name@).merge_fits(
                        other.children@[k],
                    ),
            decreases n - i,
        {
            let oc = &other.children[i];
            let ghost m = oc.name@;
            match self.child_index(oc.name.as_str()) {
                None => {
                },
                Some(j) => {
                    proof {
                        lemma_forest_witness(self.children@, j as int);
                        assert(self.the_child(m) == self.children@[j as int]);
                        assert(decreases_to!(*other => other.children));
                        assert(decreases_to!(other.children => other.children@));
                        assert(decreases_to!(other.children@ => other.children@[i as int]));
                    }
                    if !self.children[j].can_merge(&other.children[i]) {
                        proof {
                            let c = self.children@[j as int];
                            let q = choose|q: Seq<Seq<char>>|
                                #[trigger] oc.reaches(q) && c.count_at(q) + oc.count_at(q)
                                    > u32::MAX;
                            assert(oc.reaches(q) && c.count_at(q) + oc.count_at(q) > u32::MAX);
                            let p = seq![m] + q;
                            assert(p.len() > 0);
                            assert(p[0] == m);
                            assert(p.skip(1) =~= q);
                            lemma_forest_witness(other.children@, i as int);
                            assert(other.the_child(m) == *oc);
                            assert(other.reaches(p));
                            assert(other.count_at(p) == oc.count_at(q));
                            assert(self.count_at(p) == c.count_at(q));
                            assert(!self.merge_fits(*other));
                        }
                        return false;
                    }
                },
            }
            i = i + 1;
        }
        proof {
            assert forall|p: Seq<Seq<char>>| #[trigger] other.reaches(p) implies self.count_at(p)
                + other.count_at(p) <= u32::MAX by {
                if p.len() == 0 {
                } else {
                    let m = p[0];
                    let q = p.skip(1);
                    assert(other.has_child(m));
                    let k = forest_idx(other.children@, m);
                    let oc = other.children@[k];
                    assert(other.the_child(m) == oc);
                    assert(oc.reaches(q));
                    assert(other.count_at(p) == oc.count_at(q));
                    if self.has_child(m) {
                        assert(self.the_child(m).merge_fits(oc));
                        assert(self.count_at(p) == self.the_child(m).count_at(q));
                    } else {
                        assert(self.count_at(p) == 0);
                        lemma_count_le_max(oc, q);
                    }
                }
            }
        }
        true
    }
}

/// Two trees are alike: the same hit count at the root, the same child
/// names, and alike subtrees under each name.
pub open spec fn same_tree(a: FlameGraphNode, b: FlameGraphNode) -> bool
    decreases a,
{
    &&& a.num == b.num
    &&& (forall|n: Seq<char>| #[trigger] a.has_child(n) == b.has_child(n))
    &&& (forall|n: Seq<char>|
        #[trigger] a.has_child(n) ==> same_tree(a.the_child(n), b.the_child(n)))
}

/// The hit counts at all paths pin a well-formed tree down: two
/// well-formed trees that agree on every path's count are alike, node
/// for node. A contract that fixes every count — as `merge`'s and the
/// parser's do — therefore fixes its result completely, up to the order
/// in which children are stored.
pub proof fn lemma_counts_determine_tree(a: FlameGraphNode, b: FlameGraphNode)
    requires
        a.wf(),
        b.wf(),
        forall|p: Seq<Seq<char>>| #[trigger] a.count_at(p) == b.count_at(p),
    ensures
        same_tree(a, b),
    decreases a,
{
    let e = Seq::<Seq<char>>::empty();
    assert(a.count_at(e) == b.count_at(e));
    assert forall|n: Seq<char>| #[trigger] a.has_child(n) == b.has_child(n) by {
        let p = seq![n];
        assert(p.skip(1) =~= e);
        if a.has_child(n) && !b.has_child(n) {
            let i = forest_idx(a.children@, n);
            assert(0 <= i < a.children@.len());
            assert(a.children@[i].num >= 1);
            assert(a.count_at(p) == a.the_child(n).count_at(e));
            assert(b.count_at(p) == 0);
            assert(false);
        }
        if b.has_child(n) && !a.has_child(n) {
            let i = forest_idx(b.children@, n);
            assert(0 <= i < b.children@.len());
            assert(b.children@[i].num >= 1);
            assert(b.count_at(p) == b.the_child(n).count_at(e));
            assert(a.count_at(p) == 0);
            assert(false);
        }
    }
    assert forall|n: Seq<char>| #[trigger] a.has_child(n) implies same_tree(
        a.the_child(n),
        b.the_child(n),
    ) by {
        let ca = a.the_child(n);
        let cb = b.the_child(n);
        let ia = forest_idx(a.children@, n);
        let ib = forest_idx(b.children@, n);
        assert(0 <= ia < a.children@.len());
        assert(0 <= ib < b.children@.len());
        assert(a.children@[ia].wf());
        assert(b.children@[ib].wf());
        assert forall|q: Seq<Seq<char>>| #[trigger] ca.count_at(q) == cb.count_at(q) by {
            let p = seq![n] + q;
            assert(p[0] == n);
            assert(p.skip(1) =~= q);
            assert(a.count_at(p) == ca.count_at(q));
            assert(b.count_at(p) == cb.count_at(q));
            assert(a.count_at(p) == b.count_at(p));
        }
        assert(decreases_to!(a => a.children));
        assert(decreases_to!(a.children => a.children@));
        assert(decreases_to!(a.children@ => a.children@[ia]));
        lemma_counts_determine_tree(ca, cb);
    }
}

/// Merging is associative. `ab` and then `abc` are the trees `merge`
/// builds by folding `b` and then `c` into `a`; `bc` and `a_bc` are those
/// it builds by first combining `b` with `c` and folding the combination
/// into `a`. The premises are exactly what `merge`'s contract gives for
/// each step, and the two results carry the same hit count at every
/// path.
pub proof fn lemma_merge_associative(
    a: FlameGraphNode,
    b: FlameGraphNode,
    c: FlameGraphNode,
    ab: FlameGraphNode,
    abc: FlameGraphNode,
    bc: FlameGraphNode,
    a_bc: FlameGraphNode,
    p: Seq<Seq<char>>,
)
    requires
        forall|q: Seq<Seq<char>>| #[trigger] ab.count_at(q) == a.count_at(q) + b.count_at(q),
        forall|q: Seq<Seq<char>>| #[trigger] abc.count_at(q) == ab.count_at(q) + c.count_at(q),
        forall|q: Seq<Seq<char>>| #[trigger] bc.count_at(q) == b.count_at(q) + c.count_at(q),
        forall|q: Seq<Seq<char>>| #[trigger] a_bc.count_at(q) == a.count_at(q) + bc.count_at(q),
    ensures
        abc.count_at(p) == a_bc.count_at(p),
{
    assert(abc.count_at(p) == a.count_at(p) + b.count_at(p) + c.count_at(p));
}

} // verus!

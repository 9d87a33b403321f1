//! The shape of a scene graph, apart from what its nodes carry: who is whose
//! parent, the order of each node's children, and the facts about reachability
//! that the traversals rest on.

use vstd::prelude::*;

verus! {

/// Parent links and child lists of a set of nodes numbered from zero, with a
/// rank for each node that witnesses that the links form no cycle.
pub struct Forest {
    /// The parent of each node, if it has one.
    pub parents: Seq<Option<usize>>,
    /// The children of each node, in traversal order.
    pub children: Seq<Seq<usize>>,
    /// A number for each node that is larger than its parent's.
    pub rank: Seq<nat>,
    /// A number larger than every rank.
    pub bound: nat,
}

impl Forest {
    /// Whether `n` is a node of the forest.
    pub open spec fn has(self, n: int) -> bool {
        0 <= n < self.parents.len()
    }

    /// The nodes can be numbered by machine integers, parent links and child
    /// lists agree, every node has at most one parent
    /// and occurs at most once among its parent's children, and ranks grow
    /// from parent to child, so that no node is its own ancestor.
    pub open spec fn wf(self) -> bool {
        &&& self.parents.len() <= usize::MAX
        &&& self.children.len() == self.parents.len()
        &&& self.rank.len() == self.parents.len()
        &&& forall|n: int| 0 <= n < self.parents.len() ==> #[trigger] self.rank[n] < self.bound
        &&& forall|c: int|
            0 <= c < self.parents.len() ==> ((#[trigger] self.parents[c]) matches Some(p) ==> {
                &&& p < self.parents.len()
                &&& self.rank[p as int] < self.rank[c]
                &&& self.children[p as int].contains(c as usize)
            })
        &&& forall|p: int, k: int|
            0 <= p < self.parents.len() && 0 <= k < self.children[p].len() ==> {
                &&& (#[trigger] self.children[p][k]) < self.parents.len()
                &&& self.parents[self.children[p][k] as int] == Some(p as usize)
            }
        &&& forall|p: int|
            0 <= p < self.parents.len() ==> (#[trigger] self.children[p]).no_duplicates()
    }

    /// The node without a parent at the top of `n`'s tree.
    pub open spec fn root_of(self, n: int) -> int
        decreases self.rank[n],
        when self.wf() && self.has(n)
    {
        match self.parents[n] {
            Some(p) => self.root_of(p as int),
            None => n,
        }
    }

    /// Whether `a` is `d` itself or one of its ancestors: whether `d` lies in
    /// the subtree of `a`.
    pub open spec fn reaches(self, a: int, d: int) -> bool
        decreases self.rank[d],
        when self.wf() && self.has(d)
    {
        d == a || match self.parents[d] {
            Some(p) => self.reaches(a, p as int),
            None => false,
        }
    }

    /// Whether `d` lies in the subtree of one of the first `k` children of `n`.
    pub open spec fn under_first(self, n: int, k: int, d: int) -> bool {
        exists|j: int| 0 <= j < k && j < self.children[n].len() && self.reaches(
            #[trigger] self.children[n][j] as int,
            d,
        )
    }

    /// The forest with one more node, which has neither parent nor children.
    pub open spec fn grown(self) -> Forest {
        Forest {
            parents: self.parents.push(None),
            children: self.children.push(Seq::empty()),
            rank: self.rank.push(0),
            bound: self.bound + 1,
        }
    }

    /// The forest after the parentless node `c` has become the last child of
    /// `p`: the ranks in `c`'s tree move up past `p`'s.
    pub open spec fn linked(self, p: int, c: int) -> Forest {
        Forest {
            parents: self.parents.update(c, Some(p as usize)),
            children: self.children.update(p, self.children[p].push(c as usize)),
            rank: Seq::new(
                self.rank.len(),
                |i: int|
                    if self.root_of(i) == c {
                        self.rank[i] + self.rank[p] + 1
                    } else {
                        self.rank[i]
                    },
            ),
            bound: self.bound + self.rank[p] + 1,
        }
    }

    /// The root of a node's tree is a node without a parent that reaches it.
    pub proof fn lemma_root(self, n: int)
        requires
            self.wf(),
            self.has(n),
        ensures
            self.has(self.root_of(n)),
            self.parents[self.root_of(n)] is None,
            self.reaches(self.root_of(n), n),
        decreases self.rank[n],
    {
        match self.parents[n] {
            Some(p) => {
                self.lemma_root(p as int);
            },
            None => {},
        }
    }

    /// A node without a parent reaches exactly the nodes of which it is the root.
    pub proof fn lemma_reaches_from_root(self, c: int, d: int)
        requires
            self.wf(),
            self.has(c),
            self.has(d),
            self.parents[c] is None,
        ensures
            self.reaches(c, d) <==> self.root_of(d) == c,
        decreases self.rank[d],
    {
        match self.parents[d] {
            Some(p) => {
                self.lemma_reaches_from_root(c, p as int);
            },
            None => {},
        }
    }

    /// What reaches a node is a node, and of no larger rank.
    pub proof fn lemma_reaches_rank(self, a: int, d: int)
        requires
            self.wf(),
            self.has(d),
            self.reaches(a, d),
        ensures
            self.has(a),
            self.rank[a] <= self.rank[d],
        decreases self.rank[d],
    {
        if d != a {
            self.lemma_reaches_rank(a, self.parents[d].unwrap() as int);
        }
    }

    /// Reaching is transitive.
    pub proof fn lemma_reaches_trans(self, a: int, b: int, d: int)
        requires
            self.wf(),
            self.has(b),
            self.has(d),
            self.reaches(a, b),
            self.reaches(b, d),
        ensures
            self.reaches(a, d),
        decreases self.rank[d],
    {
        if d != b {
            self.lemma_reaches_trans(a, b, self.parents[d].unwrap() as int);
        }
    }

    /// Two nodes that reach the same node lie on one path: one reaches the other.
    pub proof fn lemma_reaches_comparable(self, a: int, b: int, d: int)
        requires
            self.wf(),
            self.has(d),
            self.reaches(a, d),
            self.reaches(b, d),
        ensures
            self.reaches(a, b) || self.reaches(b, a),
        decreases self.rank[d],
    {
        self.lemma_reaches_rank(a, d);
        self.lemma_reaches_rank(b, d);
        if d != a && d != b {
            self.lemma_reaches_comparable(a, b, self.parents[d].unwrap() as int);
        }
    }

    /// A child does not reach its parent.
    pub proof fn lemma_child_below(self, n: int, k: int)
        requires
            self.wf(),
            self.has(n),
            0 <= k < self.children[n].len(),
        ensures
            self.has(self.children[n][k] as int),
            self.parents[self.children[n][k] as int] == Some(n as usize),
            !self.reaches(self.children[n][k] as int, n),
            self.reaches(n, self.children[n][k] as int),
    {
        let c = self.children[n][k] as int;
        if self.reaches(c, n) {
            self.lemma_reaches_rank(c, n);
        }
        assert(self.reaches(n, n));
    }

    /// The subtrees of two different children of a node share no node.
    pub proof fn lemma_siblings_disjoint(self, n: int, j: int, k: int, d: int)
        requires
            self.wf(),
            self.has(n),
            self.has(d),
            0 <= j < self.children[n].len(),
            0 <= k < self.children[n].len(),
            j != k,
            self.reaches(self.children[n][j] as int, d),
        ensures
            !self.reaches(self.children[n][k] as int, d),
    {
        let a = self.children[n][j] as int;
        let b = self.children[n][k] as int;
        self.lemma_child_below(n, j);
        self.lemma_child_below(n, k);
        assert(a != b);
        if self.reaches(b, d) {
            self.lemma_reaches_comparable(a, b, d);
            if self.reaches(a, b) {
                assert(self.reaches(a, n));
            } else {
                assert(self.reaches(b, n));
            }
        }
    }

    /// What a node reaches, apart from itself, lies under one of its children.
    pub proof fn lemma_descendant_under_child(self, n: int, d: int)
        requires
            self.wf(),
            self.has(n),
            self.has(d),
            self.reaches(n, d),
            d != n,
        ensures
            self.under_first(n, self.children[n].len() as int, d),
        decreases self.rank[d],
    {
        let p = self.parents[d].unwrap() as int;
        if p == n {
            let k = self.children[n].index_of(d as usize);
            assert(self.children[n][k] == d);
            assert(self.reaches(self.children[n][k] as int, d));
        } else {
            self.lemma_descendant_under_child(n, p);
            let j = choose|j: int|
                0 <= j < self.children[n].len() && self.reaches(
                    #[trigger] self.children[n][j] as int,
                    p,
                );
            assert(self.reaches(self.children[n][j] as int, d));
        }
    }

    /// What lies under a child of a node is reached by the node, and is not
    /// the node itself.
    pub proof fn lemma_under_child_is_descendant(self, n: int, k: int, d: int)
        requires
            self.wf(),
            self.has(n),
            self.has(d),
            self.under_first(n, k, d),
        ensures
            self.reaches(n, d),
            d != n,
    {
        let j = choose|j: int|
            0 <= j < k && j < self.children[n].len() && self.reaches(
                #[trigger] self.children[n][j] as int,
                d,
            );
        self.lemma_child_below(n, j);
        self.lemma_reaches_trans(n, self.children[n][j] as int, d);
    }

    /// A new node leaves the forest well formed.
    pub proof fn lemma_grown(self)
        requires
            self.wf(),
            self.parents.len() < usize::MAX,
        ensures
            self.grown().wf(),
    {
        let g = self.grown();
        assert forall|p: int, k: int|
            0 <= p < g.parents.len() && 0 <= k < g.children[p].len() implies {
            &&& (#[trigger] g.children[p][k]) < g.parents.len()
            &&& g.parents[g.children[p][k] as int] == Some(p as usize)
        } by {
            assert(g.children[p][k] == self.children[p][k]);
        }
    }

    /// Linking a parentless node under a node that it does not reach leaves
    /// the forest well formed.
    pub proof fn lemma_linked(self, p: int, c: int)
        requires
            self.wf(),
            self.has(p),
            self.has(c),
            self.parents[c] is None,
            !self.reaches(c, p),
        ensures
            self.linked(p, c).wf(),
    {
        let g = self.linked(p, c);
        let old_len = self.children[p].len() as int;
        self.lemma_reaches_from_root(c, p);
        assert(self.root_of(c) == c);
        assert(!self.children[p].contains(c as usize)) by {
            if self.children[p].contains(c as usize) {
                let k = self.children[p].index_of(c as usize);
                assert(self.parents[self.children[p][k] as int] == Some(p as usize));
            }
        }
        assert(g.children[p][old_len] == c);
        assert forall|x: int| 0 <= x < g.parents.len() implies ((#[trigger] g.parents[x]) matches Some(
            q,
        ) ==> {
            &&& q < g.parents.len()
            &&& g.rank[q as int] < g.rank[x]
            &&& g.children[q as int].contains(x as usize)
        }) by {
            if x == c {
            } else if let Some(q) = self.parents[x] {
                assert(self.root_of(x) == self.root_of(q as int));
                let i = self.children[q as int].index_of(x as usize);
                assert(g.children[q as int][i] == x);
            }
        }
        assert forall|q: int, k: int|
            0 <= q < g.parents.len() && 0 <= k < g.children[q].len() implies {
            &&& (#[trigger] g.children[q][k]) < g.parents.len()
            &&& g.parents[g.children[q][k] as int] == Some(q as usize)
        } by {
            if q == p && k == old_len {
            } else {
                assert(g.children[q][k] == self.children[q][k]);
            }
        }
        assert forall|q: int| 0 <= q < g.parents.len() implies (#[trigger] g.children[q]).no_duplicates() by {
            if q == p {
                assert forall|i: int, j: int|
                    0 <= i < g.children[p].len() && 0 <= j < g.children[p].len() && i != j implies g.children[p][i]
                    != g.children[p][j] by {
                    if i < old_len {
                        assert(self.children[p].contains(self.children[p][i]));
                    }
                    if j < old_len {
                        assert(self.children[p].contains(self.children[p][j]));
                    }
                }
            } else {
                assert(g.children[q] == self.children[q]);
            }
        }
    }
}

} // verus!

//! The rendering traversal: which nodes are drawn, in which order, and with
//! which matrix. The draw calls are handed out as values; issuing them is up
//! to the caller that owns the GPU context.

use crate::graph::{NodeModel, SceneGraph};
use crate::transform::{propagated, total, TransformStep};
use vstd::prelude::*;
use vstd::seq_lib::lemma_no_dup_in_concat;

verus! {

/// One indexed draw: bind `vao`, set the transformation uniform to
/// `transform`, draw `element_count` indices as triangles.
pub struct DrawCall<M> {
    /// The node that is drawn.
    pub node: usize,
    /// The vertex array of the node's mesh.
    pub vao: u32,
    /// The number of indices to draw; never zero.
    pub element_count: u32,
    /// The view-projection matrix times the node's world transform.
    pub transform: M,
}

/// `call` draws node `n`: it names the node and its mesh, the mesh has
/// geometry, and the transform is the product of `view_projection`, on the
/// left, and the node's world transform.
pub open spec fn is_draw_of<V, M, P: Fn(&M, &M) -> M>(
    nodes: Seq<NodeModel<V, M>>,
    call: DrawCall<M>,
    n: usize,
    view_projection: M,
    product: &P,
) -> bool {
    &&& call.node == n
    &&& call.element_count != 0
    &&& nodes[n as int].resource matches Some(mesh)
    &&& call.vao == mesh.vao
    &&& call.element_count == mesh.element_count
    &&& call_ensures(product, (&view_projection, &nodes[n as int].world), call.transform)
}

/// `calls` draws the nodes of `order`, one call per node, in that order.
pub open spec fn draws_in_order<V, M, P: Fn(&M, &M) -> M>(
    nodes: Seq<NodeModel<V, M>>,
    calls: Seq<DrawCall<M>>,
    order: Seq<usize>,
    view_projection: M,
    product: &P,
) -> bool {
    &&& calls.len() == order.len()
    &&& forall|i: int|
        0 <= i < calls.len() ==> is_draw_of(
            nodes,
            #[trigger] calls[i],
            order[i],
            view_projection,
            product,
        )
}

impl<V, M> SceneGraph<V, M> {
    /// Node `n` itself where it has geometry, else nothing.
    pub open spec fn drawn_self(&self, n: int) -> Seq<usize> {
        if self@[n].element_count() != 0 {
            seq![n as usize]
        } else {
            Seq::empty()
        }
    }

    /// The nodes of the subtree of `n` that have geometry, in pre-order: a
    /// node before its children, the children in list order.
    pub open spec fn draw_order(&self, n: int) -> Seq<usize>
        decreases self.forest().bound - self.forest().rank[n], self.forest().children[n].len() + 1,
        when self.wf() && self.has(n)
    {
        self.drawn_self(n) + self.draw_order_from(n, 0)
    }

    /// The draw order of the subtrees of the children of `n` from the `k`-th on.
    pub open spec fn draw_order_from(&self, n: int, k: int) -> Seq<usize>
        decreases self.forest().bound - self.forest().rank[n], self.forest().children[n].len() - k,
        when self.wf() && self.has(n) && 0 <= k
    {
        if k >= self.forest().children[n].len() {
            Seq::empty()
        } else {
            self.draw_order(self.forest().children[n][k] as int) + self.draw_order_from(n, k + 1)
        }
    }

    /// Every node in the draw order of `n` lies in the subtree of `n` and has
    /// geometry: a node with element count zero is never drawn.
    pub proof fn lemma_drawn_has_geometry(&self, n: int, x: usize)
        requires
            self.wf(),
            self.has(n),
            self.draw_order(n).contains(x),
        ensures
            self.has(x as int),
            self.reaches(n, x as int),
            self@[x as int].element_count() != 0,
        decreases self.forest().bound - self.forest().rank[n], self.forest().children[n].len() + 1,
    {
        let own = self.drawn_self(n);
        let rest = self.draw_order_from(n, 0);
        let i = choose|i: int| 0 <= i < (own + rest).len() && (own + rest)[i] == x;
        if i < own.len() {
            assert(own[i] == x);
            assert(self.forest().reaches(n, n));
        } else {
            assert(rest[i - own.len()] == x);
            self.lemma_drawn_from_has_geometry(n, 0, x);
        }
    }

    /// As [`Self::lemma_drawn_has_geometry`], for the children of `n` from the `k`-th on.
    pub proof fn lemma_drawn_from_has_geometry(&self, n: int, k: int, x: usize)
        requires
            self.wf(),
            self.has(n),
            0 <= k,
            self.draw_order_from(n, k).contains(x),
        ensures
            self.has(x as int),
            self.reaches(n, x as int),
            x != n,
            self@[x as int].element_count() != 0,
            exists|j: int|
                k <= j < self.forest().children[n].len() && self.forest().reaches(
                    #[trigger] self.forest().children[n][j] as int,
                    x as int,
                ),
        decreases self.forest().bound - self.forest().rank[n], self.forest().children[n].len() - k,
    {
        let f = self.forest();
        if k < f.children[n].len() {
            let c = f.children[n][k] as int;
            let first = self.draw_order(c);
            let rest = self.draw_order_from(n, k + 1);
            let i = choose|i: int| 0 <= i < (first + rest).len() && (first + rest)[i] == x;
            f.lemma_child_below(n, k);
            if i < first.len() {
                assert(first[i] == x);
                self.lemma_drawn_has_geometry(c, x);
                f.lemma_reaches_trans(n, c, x as int);
                if x == n {
                    f.lemma_reaches_rank(c, n);
                }
                assert(f.reaches(f.children[n][k] as int, x as int));
            } else {
                assert(rest[i - first.len()] == x);
                self.lemma_drawn_from_has_geometry(n, k + 1, x);
            }
        }
    }

    /// No node is drawn twice.
    pub proof fn lemma_draw_order_distinct(&self, n: int)
        requires
            self.wf(),
            self.has(n),
        ensures
            self.draw_order(n).no_duplicates(),
        decreases self.forest().bound - self.forest().rank[n], self.forest().children[n].len() + 1,
    {
        let own = self.drawn_self(n);
        let rest = self.draw_order_from(n, 0);
        self.lemma_draw_order_from_distinct(n, 0);
        assert forall|i: int, j: int| 0 <= i < own.len() && 0 <= j < rest.len() implies own[i]
            != rest[j] by {
            assert(rest.contains(rest[j]));
            self.lemma_drawn_from_has_geometry(n, 0, rest[j]);
        }
        lemma_no_dup_in_concat(own, rest);
    }

    /// As [`Self::lemma_draw_order_distinct`], for the children of `n` from the `k`-th on.
    pub proof fn lemma_draw_order_from_distinct(&self, n: int, k: int)
        requires
            self.wf(),
            self.has(n),
            0 <= k,
        ensures
            self.draw_order_from(n, k).no_duplicates(),
        decreases self.forest().bound - self.forest().rank[n], self.forest().children[n].len() - k,
    {
        let f = self.forest();
        if k < f.children[n].len() {
            let c = f.children[n][k] as int;
            let first = self.draw_order(c);
            let rest = self.draw_order_from(n, k + 1);
            f.lemma_child_below(n, k);
            self.lemma_draw_order_distinct(c);
            self.lemma_draw_order_from_distinct(n, k + 1);
            assert forall|i: int, j: int| 0 <= i < first.len() && 0 <= j < rest.len() implies first[i]
                != rest[j] by {
                assert(first.contains(first[i]));
                assert(rest.contains(rest[j]));
                self.lemma_drawn_has_geometry(c, first[i]);
                self.lemma_drawn_from_has_geometry(n, k + 1, rest[j]);
                let later = choose|later: int|
                    k + 1 <= later < f.children[n].len() && f.reaches(
                        #[trigger] f.children[n][later] as int,
                        rest[j] as int,
                    );
                f.lemma_siblings_disjoint(n, later, k, rest[j] as int);
            }
            lemma_no_dup_in_concat(first, rest);
        }
    }

    /// The draw order depends on the tree and the meshes alone: a propagation
    /// pass, which changes only world transforms, leaves it as it is.
    pub proof fn lemma_draw_order_ignores_worlds(&self, before: Self, n: int)
        requires
            before.wf(),
            before.has(n),
            self.same_but_worlds(before),
        ensures
            self.draw_order(n) == before.draw_order(n),
        decreases before.forest().bound - before.forest().rank[n], before.forest().children[n].len()
            + 1,
    {
        self.lemma_same_forest(before);
        self.lemma_draw_order_from_ignores_worlds(before, n, 0);
    }

    /// As [`Self::lemma_draw_order_ignores_worlds`], for the children of `n` from the `k`-th on.
    pub proof fn lemma_draw_order_from_ignores_worlds(&self, before: Self, n: int, k: int)
        requires
            before.wf(),
            before.has(n),
            0 <= k,
            self.same_but_worlds(before),
        ensures
            self.draw_order_from(n, k) == before.draw_order_from(n, k),
        decreases before.forest().bound - before.forest().rank[n], before.forest().children[n].len()
            - k,
    {
        self.lemma_same_forest(before);
        let f = before.forest();
        if k < f.children[n].len() {
            f.lemma_child_below(n, k);
            self.lemma_draw_order_ignores_worlds(before, f.children[n][k] as int);
            self.lemma_draw_order_from_ignores_worlds(before, n, k + 1);
        }
    }

    /// A node with geometry is drawn before everything below it.
    pub proof fn lemma_drawn_first(&self, n: int)
        requires
            self.wf(),
            self.has(n),
            self@[n].element_count() != 0,
        ensures
            self.draw_order(n).len() > 0,
            self.draw_order(n)[0] == n,
    {
    }

    /// Every node with geometry in the subtree of `n` is in the draw order of `n`.
    pub proof fn lemma_geometry_is_drawn(&self, n: int, d: int)
        requires
            self.wf(),
            self.has(n),
            self.has(d),
            self.reaches(n, d),
            self@[d].element_count() != 0,
        ensures
            self.draw_order(n).contains(d as usize),
        decreases self.forest().bound - self.forest().rank[n],
    {
        let f = self.forest();
        let own = self.drawn_self(n);
        let rest = self.draw_order_from(n, 0);
        if d == n {
            assert((own + rest)[0] == d as usize);
        } else {
            f.lemma_descendant_under_child(n, d);
            let j = choose|j: int|
                0 <= j < f.children[n].len() && j < f.children[n].len() && f.reaches(
                    #[trigger] f.children[n][j] as int,
                    d,
                );
            f.lemma_child_below(n, j);
            self.lemma_geometry_is_drawn(f.children[n][j] as int, d);
            self.lemma_drawn_from_child(n, 0, j, d as usize);
            let i = choose|i: int| 0 <= i < rest.len() && rest[i] == d as usize;
            assert((own + rest)[own.len() + i] == d as usize);
        }
    }

    proof fn lemma_drawn_from_child(&self, n: int, k: int, j: int, x: usize)
        requires
            self.wf(),
            self.has(n),
            0 <= k <= j < self.forest().children[n].len(),
            self.draw_order(self.forest().children[n][j] as int).contains(x),
        ensures
            self.draw_order_from(n, k).contains(x),
        decreases j - k,
    {
        let first = self.draw_order(self.forest().children[n][k] as int);
        let rest = self.draw_order_from(n, k + 1);
        if k == j {
            let i = choose|i: int| 0 <= i < first.len() && first[i] == x;
            assert((first + rest)[i] == x);
        } else {
            self.lemma_drawn_from_child(n, k + 1, j, x);
            let i = choose|i: int| 0 <= i < rest.len() && rest[i] == x;
            assert((first + rest)[first.len() + i] == x);
        }
    }

    /// The draw calls of a frame for the subtree of `root`: one for each node
    /// with geometry, parents before children and children in list order,
    /// each with the product of `view_projection` and the node's world
    /// transform. Nodes without geometry only group others and are skipped.
    pub fn draw_list<P: Fn(&M, &M) -> M>(&self, root: usize, view_projection: &M, product: &P) -> (calls:
        Vec<DrawCall<M>>)
        requires
            self.wf(),
            self.has(root as int),
            forall|a: &M, b: &M| call_requires(product, (a, b)),
        ensures
            draws_in_order(self@, calls@, self.draw_order(root as int), *view_projection, product),
    {
        let mut calls: Vec<DrawCall<M>> = Vec::new();
        self.collect_draws(root, view_projection, product, &mut calls, Ghost(Seq::empty()));
        assert(Seq::<usize>::empty() + self.draw_order(root as int) =~= self.draw_order(
            root as int,
        ));
        calls
    }

    /// One frame: the whole propagation pass from `root` first, then the draw
    /// calls, so that every call carries a world transform of this frame.
    pub fn render_frame<E: Fn(TransformStep, &V) -> M, P: Fn(&M, &M) -> M>(
        &mut self,
        root: usize,
        so_far: &M,
        view_projection: &M,
        make: &E,
        product: &P,
    ) -> (calls: Vec<DrawCall<M>>)
        requires
            old(self).wf(),
            old(self).has(root as int),
            total(make, product),
        ensures
            final(self).wf(),
            propagated(*old(self), *final(self), root as int, *so_far, make, product),
            draws_in_order(
                final(self)@,
                calls@,
                old(self).draw_order(root as int),
                *view_projection,
                product,
            ),
    {
        self.propagate(root, so_far, make, product);
        proof {
            self.lemma_draw_order_ignores_worlds(*old(self), root as int);
        }
        self.draw_list(root, view_projection, product)
    }

    fn collect_draws<P: Fn(&M, &M) -> M>(
        &self,
        n: usize,
        view_projection: &M,
        product: &P,
        calls: &mut Vec<DrawCall<M>>,
        Ghost(done): Ghost<Seq<usize>>,
    )
        requires
            self.wf(),
            self.has(n as int),
            forall|a: &M, b: &M| call_requires(product, (a, b)),
            draws_in_order(self@, old(calls)@, done, *view_projection, product),
        ensures
            draws_in_order(
                self@,
                final(calls)@,
                done + self.draw_order(n as int),
                *view_projection,
                product,
            ),
        decreases self.forest().bound - self.forest().rank[n as int],
    {
        let ghost mut acc = done;
        let node = self.node(n);
        match &node.resource {
            Some(mesh) => {
                if mesh.element_count != 0 {
                    let transform = product(view_projection, &node.world);
                    calls.push(
                        DrawCall {
                            node: n,
                            vao: mesh.vao,
                            element_count: mesh.element_count,
                            transform,
                        },
                    );
                    proof {
                        acc = done.push(n);
                    }
                }
            },
            None => {},
        }
        assert(acc =~= done + self.drawn_self(n as int));
        assert(acc + self.draw_order_from(n as int, 0) =~= done + self.draw_order(n as int));
        let count = self.child_count(n);
        let mut k: usize = 0;
        while k < count
            invariant
                k <= count,
                count == self.forest().children[n as int].len(),
                self.wf(),
                self.has(n as int),
                forall|a: &M, b: &M| call_requires(product, (a, b)),
                draws_in_order(self@, calls@, acc, *view_projection, product),
                acc + self.draw_order_from(n as int, k as int) == done + self.draw_order(n as int),
            decreases count - k,
        {
            let c = self.child(n, k);
            proof {
                self.forest().lemma_child_below(n as int, k as int);
            }
            self.collect_draws(c, view_projection, product, calls, Ghost(acc));
            proof {
                let next = acc + self.draw_order(c as int);
                assert(next + self.draw_order_from(n as int, k + 1) =~= acc
                    + self.draw_order_from(n as int, k as int));
                acc = next;
            }
            k += 1;
        }
        assert(acc + self.draw_order_from(n as int, k as int) =~= acc);
    }
}

} // verus!

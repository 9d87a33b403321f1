//! Transform propagation: every node's world transform is composed from its
//! local transform and the world transform of its parent, root first.
//!
//! The matrices themselves come from the caller. `make` builds the elementary
//! matrix of one step from the vector that the step reads; `product`
//! multiplies two matrices. The library fixes the order of the steps, which
//! vector each of them reads, on which side each elementary matrix is
//! multiplied, and the order in which the nodes are visited.

use crate::graph::{LocalTransform, NodeModel, SceneGraph, SceneNode};
use vstd::prelude::*;

verus! {

/// The elementary transforms that make up a node's local transform, in the
/// order in which they are applied.
#[derive(Clone, Copy, Debug, PartialEq, Eq, Structural)]
pub enum TransformStep {
    /// Translate by the negated reference point: the pivot moves to the origin.
    ToPivot,
    /// Rotate about the X axis by the first angle of the rotation.
    RotateX,
    /// Rotate about the Y axis by the second angle of the rotation.
    RotateY,
    /// Rotate about the Z axis by the third angle of the rotation.
    RotateZ,
    /// Translate by the reference point: the pivot moves back.
    FromPivot,
    /// Translate by the position.
    Translate,
}

/// The number of steps of a local transform.
pub const STEP_COUNT: usize = 6;

/// The `i`-th step of a local transform.
pub open spec fn step_at(i: int) -> TransformStep {
    if i == 0 {
        TransformStep::ToPivot
    } else if i == 1 {
        TransformStep::RotateX
    } else if i == 2 {
        TransformStep::RotateY
    } else if i == 3 {
        TransformStep::RotateZ
    } else if i == 4 {
        TransformStep::FromPivot
    } else {
        TransformStep::Translate
    }
}

/// The vector of the local transform that a step reads.
pub open spec fn step_vector<V>(local: LocalTransform<V>, step: TransformStep) -> V {
    match step {
        TransformStep::ToPivot | TransformStep::FromPivot => local.reference_point,
        TransformStep::RotateX | TransformStep::RotateY | TransformStep::RotateZ => local.rotation,
        TransformStep::Translate => local.position,
    }
}

/// `make` and `product` can be called on every argument.
pub open spec fn total<V, M, E: Fn(TransformStep, &V) -> M, P: Fn(&M, &M) -> M>(
    make: &E,
    product: &P,
) -> bool {
    &&& forall|step: TransformStep, v: &V| call_requires(make, (step, v))
    &&& forall|a: &M, b: &M| call_requires(product, (a, b))
}

/// `make` and `product` return one value for each argument.
pub open spec fn deterministic<V, M, E: Fn(TransformStep, &V) -> M, P: Fn(&M, &M) -> M>(
    make: &E,
    product: &P,
) -> bool {
    &&& forall|step: TransformStep, v: &V, e1: M, e2: M|
        call_ensures(make, (step, v), e1) && call_ensures(make, (step, v), e2) ==> e1 == e2
    &&& forall|a: &M, b: &M, m1: M, m2: M|
        call_ensures(product, (a, b), m1) && call_ensures(product, (a, b), m2) ==> m1 == m2
}

/// `to` is `from` after the `i`-th step of `local`: the product of the step's
/// elementary matrix, on the left, and `from`, on the right.
pub open spec fn stepped<V, M, E: Fn(TransformStep, &V) -> M, P: Fn(&M, &M) -> M>(
    make: &E,
    product: &P,
    local: LocalTransform<V>,
    i: int,
    from: M,
    to: M,
) -> bool {
    exists|e: M|
        call_ensures(make, (step_at(i), &step_vector(local, step_at(i))), e) && call_ensures(
            product,
            (&e, &from),
            to,
        )
}

/// `t` lists the transforms that a node with local transform `local` passes
/// through: the incoming one first, then the result of each of the six steps.
pub open spec fn is_trace<V, M, E: Fn(TransformStep, &V) -> M, P: Fn(&M, &M) -> M>(
    make: &E,
    product: &P,
    local: LocalTransform<V>,
    t: Seq<M>,
) -> bool {
    &&& t.len() == 7
    &&& stepped(make, product, local, 0, t[0], t[1])
    &&& stepped(make, product, local, 1, t[1], t[2])
    &&& stepped(make, product, local, 2, t[2], t[3])
    &&& stepped(make, product, local, 3, t[3], t[4])
    &&& stepped(make, product, local, 4, t[4], t[5])
    &&& stepped(make, product, local, 5, t[5], t[6])
}

/// `world` is the world transform of a node with local transform `local`
/// under the incoming transform `incoming`: the six steps applied to
/// `incoming` one after the other, each from the left.
pub open spec fn composed<V, M, E: Fn(TransformStep, &V) -> M, P: Fn(&M, &M) -> M>(
    make: &E,
    product: &P,
    local: LocalTransform<V>,
    incoming: M,
    world: M,
) -> bool {
    exists|t: Seq<M>| #[trigger]
        is_trace(make, product, local, t) && t[0] == incoming && t[6] == world
}

/// The world transform of node `d` is composed from its local transform and
/// its parent's world transform.
pub open spec fn settled<V, M, E: Fn(TransformStep, &V) -> M, P: Fn(&M, &M) -> M>(
    nodes: Seq<NodeModel<V, M>>,
    make: &E,
    product: &P,
    d: int,
) -> bool {
    nodes[d].parent matches Some(p) && composed(
        make,
        product,
        nodes[d].local(),
        nodes[p as int].world,
        nodes[d].world,
    )
}

/// `after` is `before` after a propagation pass from `root` with the incoming
/// transform `so_far`: the world transform of `root` is composed from
/// `so_far`, that of every node below it from its parent's, and nothing else
/// has changed.
pub open spec fn propagated<V, M, E: Fn(TransformStep, &V) -> M, P: Fn(&M, &M) -> M>(
    before: SceneGraph<V, M>,
    after: SceneGraph<V, M>,
    root: int,
    so_far: M,
    make: &E,
    product: &P,
) -> bool {
    &&& after.same_but_worlds(before)
    &&& composed(make, product, after@[root].local(), so_far, after@[root].world)
    &&& forall|d: int|
        before.has(d) && before.reaches(root, d) && d != root ==> #[trigger] settled(
            after@,
            make,
            product,
            d,
        )
    &&& forall|d: int|
        before.has(d) && !before.reaches(root, d) ==> #[trigger] after@[d] == before@[d]
}

/// The matrix of `step` for `v` is neutral: multiplied onto any matrix, it
/// leaves that matrix as it is.
pub open spec fn is_neutral<V, M, E: Fn(TransformStep, &V) -> M, P: Fn(&M, &M) -> M>(
    make: &E,
    product: &P,
    step: TransformStep,
    v: V,
) -> bool {
    forall|e: M, m: M, r: M|
        call_ensures(make, (step, &v), e) && #[trigger] call_ensures(product, (&e, &m), r) ==> r
            == m
}

/// The three rotations of `local` turn nothing, as rotations by a zero angle do.
pub open spec fn turns_nothing<V, M, E: Fn(TransformStep, &V) -> M, P: Fn(&M, &M) -> M>(
    make: &E,
    product: &P,
    local: LocalTransform<V>,
) -> bool {
    &&& is_neutral(make, product, TransformStep::RotateX, local.rotation)
    &&& is_neutral(make, product, TransformStep::RotateY, local.rotation)
    &&& is_neutral(make, product, TransformStep::RotateZ, local.rotation)
}

/// Moving the pivot of `local` to the origin and straight back leaves every
/// matrix as it was.
pub open spec fn pivot_round_trip_cancels<
    V,
    M,
    E: Fn(TransformStep, &V) -> M,
    P: Fn(&M, &M) -> M,
>(make: &E, product: &P, local: LocalTransform<V>) -> bool {
    forall|m: M, there: M, back: M|
        #[trigger] stepped(make, product, local, 0, m, there) && #[trigger] stepped(
            make,
            product,
            local,
            4,
            there,
            back,
        ) ==> back == m
}

proof fn lemma_neutral_step<V, M, E: Fn(TransformStep, &V) -> M, P: Fn(&M, &M) -> M>(
    make: &E,
    product: &P,
    local: LocalTransform<V>,
    i: int,
    from: M,
    to: M,
)
    requires
        stepped(make, product, local, i, from, to),
        is_neutral(make, product, step_at(i), step_vector(local, step_at(i))),
    ensures
        to == from,
{
    let v = step_vector(local, step_at(i));
    let e = choose|e: M|
        call_ensures(make, (step_at(i), &v), e) && call_ensures(product, (&e, &from), to);
    assert(call_ensures(product, (&e, &from), to));
}

/// A node whose rotations turn nothing and whose pivot steps are neutral, as
/// with a zero rotation and a zero reference point, is only translated: its
/// world transform is the translation by its position times the incoming
/// transform.
pub proof fn lemma_translation_only<V, M, E: Fn(TransformStep, &V) -> M, P: Fn(&M, &M) -> M>(
    make: &E,
    product: &P,
    local: LocalTransform<V>,
    incoming: M,
    world: M,
)
    requires
        composed(make, product, local, incoming, world),
        turns_nothing(make, product, local),
        is_neutral(make, product, TransformStep::ToPivot, local.reference_point),
        is_neutral(make, product, TransformStep::FromPivot, local.reference_point),
    ensures
        stepped(make, product, local, 5, incoming, world),
{
    let t = choose|t: Seq<M>| #[trigger]
        is_trace(make, product, local, t) && t[0] == incoming && t[6] == world;
    lemma_neutral_step(make, product, local, 0, t[0], t[1]);
    lemma_neutral_step(make, product, local, 1, t[1], t[2]);
    lemma_neutral_step(make, product, local, 2, t[2], t[3]);
    lemma_neutral_step(make, product, local, 3, t[3], t[4]);
    lemma_neutral_step(make, product, local, 4, t[4], t[5]);
}

/// The translation by the position of `local` commutes with `incoming`:
/// whatever their product is one way round, it is the other way round too.
pub open spec fn translation_commutes<V, M, E: Fn(TransformStep, &V) -> M, P: Fn(&M, &M) -> M>(
    make: &E,
    product: &P,
    local: LocalTransform<V>,
    incoming: M,
) -> bool {
    forall|e: M, r: M|
        call_ensures(make, (TransformStep::Translate, &local.position), e) && #[trigger] call_ensures(
            product,
            (&e, &incoming),
            r,
        ) ==> call_ensures(product, (&incoming, &e), r)
}

/// For a node that is only translated, under an incoming transform that the
/// translation commutes with (another translation, for one), the world
/// transform is also the incoming transform times the translation by the
/// position.
pub proof fn lemma_translation_after_parent<
    V,
    M,
    E: Fn(TransformStep, &V) -> M,
    P: Fn(&M, &M) -> M,
>(make: &E, product: &P, local: LocalTransform<V>, incoming: M, world: M)
    requires
        composed(make, product, local, incoming, world),
        turns_nothing(make, product, local),
        is_neutral(make, product, TransformStep::ToPivot, local.reference_point),
        is_neutral(make, product, TransformStep::FromPivot, local.reference_point),
        translation_commutes(make, product, local, incoming),
    ensures
        exists|e: M|
            call_ensures(make, (TransformStep::Translate, &local.position), e) && call_ensures(
                product,
                (&incoming, &e),
                world,
            ),
{
    lemma_translation_only(make, product, local, incoming, world);
    let e = choose|e: M|
        call_ensures(make, (TransformStep::Translate, &local.position), e) && call_ensures(
            product,
            (&e, &incoming),
            world,
        );
    assert(call_ensures(product, (&incoming, &e), world));
}

/// The pivot matters to rotation only: where the rotations turn nothing and
/// the pivot's round trip cancels, the world transform is the translation by
/// the position times the incoming transform, whatever the reference point.
pub proof fn lemma_pivot_without_rotation<
    V,
    M,
    E: Fn(TransformStep, &V) -> M,
    P: Fn(&M, &M) -> M,
>(make: &E, product: &P, local: LocalTransform<V>, incoming: M, world: M)
    requires
        composed(make, product, local, incoming, world),
        turns_nothing(make, product, local),
        pivot_round_trip_cancels(make, product, local),
    ensures
        stepped(make, product, local, 5, incoming, world),
{
    let t = choose|t: Seq<M>| #[trigger]
        is_trace(make, product, local, t) && t[0] == incoming && t[6] == world;
    lemma_neutral_step(make, product, local, 1, t[1], t[2]);
    lemma_neutral_step(make, product, local, 2, t[2], t[3]);
    lemma_neutral_step(make, product, local, 3, t[3], t[4]);
    assert(stepped(make, product, local, 4, t[1], t[5]));
}

/// Two nodes at the same position whose rotations turn nothing have the same
/// world transform under the same incoming transform, wherever their
/// reference points lie.
pub proof fn lemma_pivot_is_irrelevant_without_rotation<
    V,
    M,
    E: Fn(TransformStep, &V) -> M,
    P: Fn(&M, &M) -> M,
>(
    make: &E,
    product: &P,
    one: LocalTransform<V>,
    other: LocalTransform<V>,
    incoming: M,
    world_of_one: M,
    world_of_other: M,
)
    requires
        deterministic(make, product),
        one.position == other.position,
        composed(make, product, one, incoming, world_of_one),
        composed(make, product, other, incoming, world_of_other),
        turns_nothing(make, product, one),
        turns_nothing(make, product, other),
        pivot_round_trip_cancels(make, product, one),
        pivot_round_trip_cancels(make, product, other),
    ensures
        world_of_one == world_of_other,
{
    lemma_pivot_without_rotation(make, product, one, incoming, world_of_one);
    lemma_pivot_without_rotation(make, product, other, incoming, world_of_other);
    assert(stepped(make, product, one, 5, incoming, world_of_other));
    lemma_stepped_unique(make, product, one, 5, incoming, world_of_one, world_of_other);
}

/// With closures that return one value for each argument, a local transform
/// and an incoming transform have one world transform.
pub proof fn lemma_composed_unique<V, M, E: Fn(TransformStep, &V) -> M, P: Fn(&M, &M) -> M>(
    make: &E,
    product: &P,
    local: LocalTransform<V>,
    incoming: M,
    w1: M,
    w2: M,
)
    requires
        deterministic(make, product),
        composed(make, product, local, incoming, w1),
        composed(make, product, local, incoming, w2),
    ensures
        w1 == w2,
{
    let t = choose|t: Seq<M>| #[trigger]
        is_trace(make, product, local, t) && t[0] == incoming && t[6] == w1;
    let u = choose|u: Seq<M>| #[trigger]
        is_trace(make, product, local, u) && u[0] == incoming && u[6] == w2;
    lemma_stepped_unique(make, product, local, 0, t[0], t[1], u[1]);
    lemma_stepped_unique(make, product, local, 1, t[1], t[2], u[2]);
    lemma_stepped_unique(make, product, local, 2, t[2], t[3], u[3]);
    lemma_stepped_unique(make, product, local, 3, t[3], t[4], u[4]);
    lemma_stepped_unique(make, product, local, 4, t[4], t[5], u[5]);
    lemma_stepped_unique(make, product, local, 5, t[5], t[6], u[6]);
}

proof fn lemma_stepped_unique<V, M, E: Fn(TransformStep, &V) -> M, P: Fn(&M, &M) -> M>(
    make: &E,
    product: &P,
    local: LocalTransform<V>,
    i: int,
    from: M,
    to1: M,
    to2: M,
)
    requires
        deterministic(make, product),
        stepped(make, product, local, i, from, to1),
        stepped(make, product, local, i, from, to2),
    ensures
        to1 == to2,
{
    let v = step_vector(local, step_at(i));
    let e1 = choose|e: M|
        call_ensures(make, (step_at(i), &v), e) && call_ensures(product, (&e, &from), to1);
    let e2 = choose|e: M|
        call_ensures(make, (step_at(i), &v), e) && call_ensures(product, (&e, &from), to2);
    assert(e1 == e2);
}

/// Running the pass twice in a row changes nothing the second time: with
/// closures that return one value for each argument, the world transforms
/// are a function of the local transforms and the incoming transform.
pub proof fn lemma_propagation_is_idempotent<
    V,
    M,
    E: Fn(TransformStep, &V) -> M,
    P: Fn(&M, &M) -> M,
>(
    g0: SceneGraph<V, M>,
    g1: SceneGraph<V, M>,
    g2: SceneGraph<V, M>,
    root: int,
    so_far: M,
    make: &E,
    product: &P,
)
    requires
        g0.wf(),
        g0.has(root),
        deterministic(make, product),
        propagated(g0, g1, root, so_far, make, product),
        propagated(g1, g2, root, so_far, make, product),
    ensures
        g2@ == g1@,
{
    g1.lemma_same_forest(g0);
    assert forall|d: int| 0 <= d < g1@.len() implies g2@[d] == g1@[d] by {
        if g0.reaches(root, d) {
            lemma_same_world(g0, g1, g2, root, so_far, make, product, d);
        }
    }
    assert(g2@ =~= g1@);
}

proof fn lemma_same_world<V, M, E: Fn(TransformStep, &V) -> M, P: Fn(&M, &M) -> M>(
    g0: SceneGraph<V, M>,
    g1: SceneGraph<V, M>,
    g2: SceneGraph<V, M>,
    root: int,
    so_far: M,
    make: &E,
    product: &P,
    d: int,
)
    requires
        g0.wf(),
        g0.has(root),
        g0.has(d),
        g0.reaches(root, d),
        g1.forest() == g0.forest(),
        deterministic(make, product),
        propagated(g0, g1, root, so_far, make, product),
        propagated(g1, g2, root, so_far, make, product),
    ensures
        g2@[d] == g1@[d],
    decreases g0.forest().rank[d],
{
    if d == root {
        lemma_composed_unique(make, product, g1@[d].local(), so_far, g1@[d].world, g2@[d].world);
    } else {
        let p = g0.forest().parents[d].unwrap() as int;
        lemma_same_world(g0, g1, g2, root, so_far, make, product, p);
        assert(settled(g1@, make, product, d));
        assert(settled(g2@, make, product, d));
        lemma_composed_unique(
            make,
            product,
            g1@[d].local(),
            g1@[p].world,
            g1@[d].world,
            g2@[d].world,
        );
    }
}

/// Composes the world transform of `node` under the incoming transform:
/// pivot to the origin, rotation about X, Y and Z, pivot back, translation,
/// each multiplied onto what came before from the left.
pub fn compose_world<V, M, E: Fn(TransformStep, &V) -> M, P: Fn(&M, &M) -> M>(
    node: &SceneNode<V, M>,
    incoming: &M,
    make: &E,
    product: &P,
) -> (world: M)
    requires
        total(make, product),
    ensures
        composed(make, product, node@.local(), *incoming, world),
{
    let e0 = make(TransformStep::ToPivot, &node.reference_point);
    let w1 = product(&e0, incoming);
    let e1 = make(TransformStep::RotateX, &node.rotation);
    let w2 = product(&e1, &w1);
    let e2 = make(TransformStep::RotateY, &node.rotation);
    let w3 = product(&e2, &w2);
    let e3 = make(TransformStep::RotateZ, &node.rotation);
    let w4 = product(&e3, &w3);
    let e4 = make(TransformStep::FromPivot, &node.reference_point);
    let w5 = product(&e4, &w4);
    let e5 = make(TransformStep::Translate, &node.position);
    let w6 = product(&e5, &w5);
    proof {
        let local = node@.local();
        let t = seq![*incoming, w1, w2, w3, w4, w5, w6];
        assert(stepped(make, product, local, 0, t[0], t[1]));
        assert(stepped(make, product, local, 1, t[1], t[2]));
        assert(stepped(make, product, local, 2, t[2], t[3]));
        assert(stepped(make, product, local, 3, t[3], t[4]));
        assert(stepped(make, product, local, 4, t[4], t[5]));
        assert(stepped(make, product, local, 5, t[5], t[6]));
        assert(is_trace(make, product, local, t));
    }
    w6
}

impl<V, M> SceneGraph<V, M> {
    /// Recomputes the world transform of `root` from `so_far`, and that of
    /// every node below it from its parent's, parents before children and
    /// children in list order. Nodes outside the subtree of `root` keep
    /// their world transform.
    pub fn propagate<E: Fn(TransformStep, &V) -> M, P: Fn(&M, &M) -> M>(
        &mut self,
        root: usize,
        so_far: &M,
        make: &E,
        product: &P,
    )
        requires
            old(self).wf(),
            old(self).has(root as int),
            total(make, product),
        ensures
            final(self).wf(),
            propagated(*old(self), *final(self), root as int, *so_far, make, product),
    {
        let world = compose_world(self.node(root), so_far, make, product);
        self.set_world(root, world);
        proof {
            self.lemma_same_forest(*old(self));
        }
        let ghost mid = *self;
        self.propagate_children(root, make, product);
        proof {
            self.lemma_same_forest(mid);
            assert(self.forest().reaches(root as int, root as int));
            assert(self@[root as int] == mid@[root as int]);
            assert forall|d: int| old(self).has(d) && !old(self).reaches(root as int, d) implies #[trigger] self@[d]
                == old(self)@[d] by {
                assert(self@[d] == mid@[d]);
            }
        }
    }

    /// Recomputes the world transforms of all nodes below `n` from the world
    /// transform that `n` has now.
    fn propagate_children<E: Fn(TransformStep, &V) -> M, P: Fn(&M, &M) -> M>(
        &mut self,
        n: usize,
        make: &E,
        product: &P,
    )
        requires
            old(self).wf(),
            old(self).has(n as int),
            total(make, product),
        ensures
            final(self).same_but_worlds(*old(self)),
            forall|d: int|
                old(self).has(d) && old(self).reaches(n as int, d) && d != n ==> #[trigger] settled(
                    final(self)@,
                    make,
                    product,
                    d,
                ),
            forall|d: int|
                old(self).has(d) && !(old(self).reaches(n as int, d) && d != n)
                    ==> #[trigger] final(self)@[d] == old(self)@[d],
        decreases old(self).bound() - old(self).rank()[n as int],
    {
        let ghost forest = self.forest();
        let count = self.child_count(n);
        let mut k: usize = 0;
        while k < count
            invariant
                k <= count,
                count == forest.children[n as int].len(),
                forest == old(self).forest(),
                forest.wf(),
                forest.has(n as int),
                total(make, product),
                self.same_but_worlds(*old(self)),
                forall|d: int|
                    forest.has(d) && forest.under_first(n as int, k as int, d) ==> #[trigger] settled(
                        self@,
                        make,
                        product,
                        d,
                    ),
                forall|d: int|
                    forest.has(d) && !forest.under_first(n as int, k as int, d)
                        ==> #[trigger] self@[d] == old(self)@[d],
            decreases count - k,
        {
            proof {
                self.lemma_same_forest(*old(self));
                forest.lemma_child_below(n as int, k as int);
            }
            let c = self.child(n, k);
            let world = compose_world(self.node(c), self.world(n), make, product);
            let ghost start = *self;
            self.set_world(c, world);
            let ghost mid = *self;
            proof {
                mid.lemma_same_forest(start);
            }
            self.propagate_children(c, make, product);
            proof {
                self.lemma_same_forest(mid);
                assert(forest.reaches(c as int, c as int));
                assert forall|d: int| forest.has(d) implies (forest.under_first(
                    n as int,
                    k + 1,
                    d,
                ) <==> forest.under_first(n as int, k as int, d) || forest.reaches(c as int, d)) by {
                    if forest.under_first(n as int, k + 1, d) {
                        let j = choose|j: int|
                            0 <= j < k + 1 && j < forest.children[n as int].len() && forest.reaches(
                                #[trigger] forest.children[n as int][j] as int,
                                d,
                            );
                        if j < k {
                            assert(forest.under_first(n as int, k as int, d));
                        }
                    }
                    if forest.reaches(c as int, d) {
                        assert(forest.reaches(forest.children[n as int][k as int] as int, d));
                    }
                    if forest.under_first(n as int, k as int, d) {
                        let j = choose|j: int|
                            0 <= j < k && j < forest.children[n as int].len() && forest.reaches(
                                #[trigger] forest.children[n as int][j] as int,
                                d,
                            );
                        assert(forest.reaches(forest.children[n as int][j] as int, d));
                    }
                }
                assert forall|d: int|
                    forest.has(d) && forest.under_first(n as int, k + 1, d) implies #[trigger] settled(
                    self@,
                    make,
                    product,
                    d,
                ) by {
                    if forest.reaches(c as int, d) {
                        if d == c {
                            assert(self@[d] == mid@[d]);
                            assert(self@[n as int] == mid@[n as int]);
                            assert(mid@[n as int] == start@[n as int]);
                        }
                    } else {
                        assert(settled(start@, make, product, d));
                        let p = forest.parents[d].unwrap() as int;
                        assert(!forest.reaches(c as int, p));
                        assert(self@[d] == mid@[d]);
                        assert(self@[p] == mid@[p]);
                        assert(mid@[d] == start@[d]);
                        assert(mid@[p] == start@[p]);
                    }
                }
                assert forall|d: int|
                    forest.has(d) && !forest.under_first(n as int, k + 1, d) implies #[trigger] self@[d]
                    == old(self)@[d] by {
                    assert(self@[d] == mid@[d]);
                    assert(mid@[d] == start@[d]);
                }
            }
            k += 1;
        }
        proof {
            self.lemma_same_forest(*old(self));
            assert forall|d: int|
                old(self).has(d) && old(self).reaches(n as int, d) && d != n implies #[trigger] settled(
                self@,
                make,
                product,
                d,
            ) by {
                forest.lemma_descendant_under_child(n as int, d);
            }
            assert forall|d: int|
                old(self).has(d) && !(old(self).reaches(n as int, d) && d != n) implies #[trigger] self@[d]
                == old(self)@[d] by {
                if forest.under_first(n as int, k as int, d) {
                    forest.lemma_under_child_is_descendant(n as int, k as int, d);
                }
            }
        }
    }
}

} // verus!

//! The scene graph: an arena of nodes that refer to each other by index.
//! Each node carries its local transform (position, rotation about a pivot),
//! an optional mesh to draw, and the world transform that the last
//! propagation pass computed for it.

use crate::forest::Forest;
use crate::mesh::MeshResource;
use vstd::prelude::*;

verus! {

/// A node of the scene graph. `V` is the vector type of the local transform,
/// `M` the matrix type of the world transform.
pub struct SceneNode<V, M> {
    /// Translation relative to the parent.
    pub position: V,
    /// Euler angles in radians, applied about the X, then the Y, then the Z axis.
    pub rotation: V,
    /// The point that the rotation turns about.
    pub reference_point: V,
    /// The mesh that is drawn for this node, if any.
    pub resource: Option<MeshResource>,
    /// The world transform as of the last propagation pass.
    pub world: M,
    /// The children, in the order in which they are visited and drawn.
    pub children: Vec<usize>,
    /// The parent, unless this node is the top of its tree.
    pub parent: Option<usize>,
}

/// What a node holds, as a mathematical value.
pub struct NodeModel<V, M> {
    pub position: V,
    pub rotation: V,
    pub reference_point: V,
    pub resource: Option<MeshResource>,
    pub world: M,
    pub children: Seq<usize>,
    pub parent: Option<usize>,
}

/// The local transform of a node: what its world transform is computed from,
/// together with the transform that comes in from its parent.
pub struct LocalTransform<V> {
    pub position: V,
    pub rotation: V,
    pub reference_point: V,
}

impl<V, M> NodeModel<V, M> {
    /// The node's local transform.
    pub open spec fn local(self) -> LocalTransform<V> {
        LocalTransform {
            position: self.position,
            rotation: self.rotation,
            reference_point: self.reference_point,
        }
    }

    /// How many indices a draw of this node takes: zero for a node that only
    /// groups others.
    pub open spec fn element_count(self) -> u32 {
        match self.resource {
            Some(mesh) => mesh.element_count,
            None => 0,
        }
    }
}

impl<V, M> View for SceneNode<V, M> {
    type V = NodeModel<V, M>;

    open spec fn view(&self) -> NodeModel<V, M> {
        NodeModel {
            position: self.position,
            rotation: self.rotation,
            reference_point: self.reference_point,
            resource: self.resource,
            world: self.world,
            children: self.children@,
            parent: self.parent,
        }
    }
}

impl<V, M> SceneNode<V, M> {
    /// How many indices a draw of this node takes.
    pub fn element_count(&self) -> (count: u32)
        ensures
            count == self@.element_count(),
    {
        match &self.resource {
            Some(mesh) => mesh.element_count,
            None => 0,
        }
    }
}

/// Why a node cannot be made a child of another.
#[derive(Clone, Copy, Debug, PartialEq, Eq, Structural)]
pub enum GraphError {
    /// One of the two indices names no node.
    NoSuchNode,
    /// The child already has a parent.
    AlreadyAttached,
    /// The child is the parent itself or one of its ancestors.
    Cycle,
}

/// The arena that owns all nodes of a scene. Nodes are created in it, named by
/// their index, and never removed.
pub struct SceneGraph<V, M> {
    nodes: Vec<SceneNode<V, M>>,
    rank: Ghost<Seq<nat>>,
    bound: Ghost<nat>,
}

impl<V, M> View for SceneGraph<V, M> {
    type V = Seq<NodeModel<V, M>>;

    closed spec fn view(&self) -> Seq<NodeModel<V, M>> {
        self.nodes@.map_values(|node: SceneNode<V, M>| node@)
    }
}

impl<V, M> SceneGraph<V, M> {
    /// The ranks that witness that the graph has no cycle.
    pub closed spec fn rank(&self) -> Seq<nat> {
        self.rank@
    }

    /// A number above all ranks.
    pub closed spec fn bound(&self) -> nat {
        self.bound@
    }

    /// The parent links and child lists of the graph.
    pub open spec fn forest(&self) -> Forest {
        Forest {
            parents: self@.map_values(|node: NodeModel<V, M>| node.parent),
            children: self@.map_values(|node: NodeModel<V, M>| node.children),
            rank: self.rank(),
            bound: self.bound(),
        }
    }

    /// Whether `n` names a node.
    pub open spec fn has(&self, n: int) -> bool {
        0 <= n < self@.len()
    }

    /// The nodes form a forest: see [`Forest::wf`].
    pub open spec fn wf(&self) -> bool {
        self.forest().wf()
    }

    /// Whether `a` is `d` or an ancestor of `d`.
    pub open spec fn reaches(&self, a: int, d: int) -> bool {
        self.forest().reaches(a, d)
    }

    /// The graph differs from `before` at most in the world transforms.
    pub open spec fn same_but_worlds(&self, before: Self) -> bool {
        &&& self@.len() == before@.len()
        &&& self.rank() == before.rank()
        &&& self.bound() == before.bound()
        &&& forall|n: int|
            0 <= n < self@.len() ==> #[trigger] self@[n] == (NodeModel {
                world: self@[n].world,
                ..before@[n]
            })
    }

    /// What an attempt to make `child` the last child of `parent` comes to.
    pub open spec fn link_outcome(&self, parent: usize, child: usize) -> Result<(), GraphError> {
        if !self.has(parent as int) || !self.has(child as int) {
            Err(GraphError::NoSuchNode)
        } else if self@[child as int].parent is Some {
            Err(GraphError::AlreadyAttached)
        } else if self.reaches(child as int, parent as int) {
            Err(GraphError::Cycle)
        } else {
            Ok(())
        }
    }

    /// The nodes of the graph after `child` has become the last child of `parent`.
    pub open spec fn linked_nodes(&self, parent: usize, child: usize) -> Seq<NodeModel<V, M>> {
        self@.update(
            parent as int,
            NodeModel {
                children: self@[parent as int].children.push(child),
                ..self@[parent as int]
            },
        ).update(child as int, NodeModel { parent: Some(parent), ..self@[child as int] })
    }

    /// A graph that differs only in world transforms has the same shape.
    pub proof fn lemma_same_forest(&self, before: Self)
        requires
            self.same_but_worlds(before),
        ensures
            self.forest() == before.forest(),
    {
        assert(self.forest().parents =~= before.forest().parents);
        assert(self.forest().children =~= before.forest().children);
    }

    /// A graph without nodes.
    pub fn new() -> (graph: Self)
        ensures
            graph.wf(),
            graph@ == Seq::<NodeModel<V, M>>::empty(),
    {
        let graph = SceneGraph { nodes: Vec::new(), rank: Ghost(Seq::empty()), bound: Ghost(0) };
        assert(graph@ =~= Seq::<NodeModel<V, M>>::empty());
        graph
    }

    /// The number of nodes.
    pub fn len(&self) -> (count: usize)
        ensures
            count == self@.len(),
    {
        self.nodes.len()
    }

    /// The node with index `n`.
    pub fn node(&self, n: usize) -> (node: &SceneNode<V, M>)
        requires
            self.has(n as int),
        ensures
            node@ == self@[n as int],
    {
        &self.nodes[n]
    }

    /// The world transform of node `n` as of the last propagation pass.
    pub fn world(&self, n: usize) -> (world: &M)
        requires
            self.has(n as int),
        ensures
            *world == self@[n as int].world,
    {
        &self.nodes[n].world
    }

    /// The parent of node `n`, if it has one.
    pub fn parent(&self, n: usize) -> (parent: Option<usize>)
        requires
            self.has(n as int),
        ensures
            parent == self@[n as int].parent,
    {
        self.nodes[n].parent
    }

    /// The number of children of node `n`.
    pub fn child_count(&self, n: usize) -> (count: usize)
        requires
            self.has(n as int),
        ensures
            count == self@[n as int].children.len(),
    {
        self.nodes[n].children.len()
    }

    /// The `k`-th child of node `n`.
    pub fn child(&self, n: usize, k: usize) -> (child: usize)
        requires
            self.has(n as int),
            k < self@[n as int].children.len(),
        ensures
            child == self@[n as int].children[k as int],
    {
        self.nodes[n].children[k]
    }

    /// How many indices a draw of node `n` takes.
    pub fn element_count(&self, n: usize) -> (count: u32)
        requires
            self.has(n as int),
        ensures
            count == self@[n as int].element_count(),
    {
        self.nodes[n].element_count()
    }

    /// The top of the tree that node `n` belongs to.
    pub fn root(&self, n: usize) -> (top: usize)
        requires
            self.wf(),
            self.has(n as int),
        ensures
            top == self.forest().root_of(n as int),
            self.has(top as int),
            self@[top as int].parent is None,
            self.reaches(top as int, n as int),
    {
        let mut cur: usize = n;
        proof {
            self.forest().lemma_root(n as int);
        }
        loop
            invariant
                self.wf(),
                self.has(cur as int),
                self.forest().root_of(cur as int) == self.forest().root_of(n as int),
                self.forest().reaches(self.forest().root_of(n as int), n as int),
            decreases self.forest().rank[cur as int],
        {
            match self.nodes[cur].parent {
                Some(p) => {
                    cur = p;
                },
                None => {
                    return cur;
                },
            }
        }
    }

    fn push_node(&mut self, node: SceneNode<V, M>) -> (id: usize)
        requires
            old(self).wf(),
            node.children@.len() == 0,
            node.parent is None,
        ensures
            final(self).wf(),
            id == old(self)@.len(),
            final(self)@ == old(self)@.push(node@),
    {
        let id = self.nodes.len();
        self.nodes.push(node);
        self.rank = Ghost(self.rank@.push(0));
        self.bound = Ghost(self.bound@ + 1);
        proof {
            assert(self@ =~= old(self)@.push(node@));
            let grown = old(self).forest().grown();
            assert(self.nodes.len() == old(self).nodes.len() + 1);
            assert(self.forest().parents =~= grown.parents);
            assert(self.forest().children =~~= grown.children);
            old(self).forest().lemma_grown();
        }
        id
    }

    /// Replaces the position of node `n`.
    pub fn set_position(&mut self, n: usize, position: V)
        requires
            old(self).wf(),
            old(self).has(n as int),
        ensures
            final(self).wf(),
            final(self)@ == old(self)@.update(
                n as int,
                NodeModel { position, ..old(self)@[n as int] },
            ),
    {
        self.nodes[n].position = position;
        proof {
            assert(self@ =~= old(self)@.update(
                n as int,
                NodeModel { position, ..old(self)@[n as int] },
            ));
            assert(self.forest().parents =~= old(self).forest().parents);
            assert(self.forest().children =~= old(self).forest().children);
        }
    }

    /// Replaces the rotation of node `n`.
    pub fn set_rotation(&mut self, n: usize, rotation: V)
        requires
            old(self).wf(),
            old(self).has(n as int),
        ensures
            final(self).wf(),
            final(self)@ == old(self)@.update(
                n as int,
                NodeModel { rotation, ..old(self)@[n as int] },
            ),
    {
        self.nodes[n].rotation = rotation;
        proof {
            assert(self@ =~= old(self)@.update(
                n as int,
                NodeModel { rotation, ..old(self)@[n as int] },
            ));
            assert(self.forest().parents =~= old(self).forest().parents);
            assert(self.forest().children =~= old(self).forest().children);
        }
    }

    /// Replaces the point that node `n` rotates about.
    pub fn set_reference_point(&mut self, n: usize, reference_point: V)
        requires
            old(self).wf(),
            old(self).has(n as int),
        ensures
            final(self).wf(),
            final(self)@ == old(self)@.update(
                n as int,
                NodeModel { reference_point, ..old(self)@[n as int] },
            ),
    {
        self.nodes[n].reference_point = reference_point;
        proof {
            assert(self@ =~= old(self)@.update(
                n as int,
                NodeModel { reference_point, ..old(self)@[n as int] },
            ));
            assert(self.forest().parents =~= old(self).forest().parents);
            assert(self.forest().children =~= old(self).forest().children);
        }
    }

    /// Stores the world transform of node `n`.
    pub(crate) fn set_world(&mut self, n: usize, world: M)
        requires
            old(self).has(n as int),
        ensures
            final(self).same_but_worlds(*old(self)),
            final(self)@ == old(self)@.update(n as int, NodeModel { world, ..old(self)@[n as int] }),
    {
        self.nodes[n].world = world;
        proof {
            assert(self@ =~= old(self)@.update(
                n as int,
                NodeModel { world, ..old(self)@[n as int] },
            ));
        }
    }

    /// Makes `child` the last child of `parent`. The link is refused where it
    /// would give a node two parents or close a cycle; the graph is then
    /// left as it was.
    pub fn add_child(&mut self, parent: usize, child: usize) -> (linked: Result<(), GraphError>)
        requires
            old(self).wf(),
        ensures
            final(self).wf(),
            linked == old(self).link_outcome(parent, child),
            linked is Ok ==> final(self)@ == old(self).linked_nodes(parent, child),
            linked is Err ==> final(self)@ == old(self)@ && final(self).forest() == old(
                self,
            ).forest(),
    {
        if parent >= self.nodes.len() || child >= self.nodes.len() {
            return Err(GraphError::NoSuchNode);
        }
        if self.nodes[child].parent.is_some() {
            return Err(GraphError::AlreadyAttached);
        }
        let top = self.root(parent);
        proof {
            self.forest().lemma_reaches_from_root(child as int, parent as int);
        }
        if top == child {
            return Err(GraphError::Cycle);
        }
        let ghost linked = self.forest().linked(parent as int, child as int);
        self.nodes[parent].children.push(child);
        self.nodes[child].parent = Some(parent);
        self.rank = Ghost(linked.rank);
        self.bound = Ghost(linked.bound);
        proof {
            assert(self@ =~= old(self).linked_nodes(parent, child));
            assert(self.forest().parents =~= linked.parents);
            assert(self.forest().children =~= linked.children);
            old(self).forest().lemma_linked(parent as int, child as int);
        }
        Ok(())
    }
}

impl<V: Copy, M> SceneGraph<V, M> {
    /// Adds a node without a mesh: all three vectors of its local transform
    /// are `origin`, its world transform is `identity`, and it has neither
    /// parent nor children. Returns the new node's index.
    pub fn create_empty(&mut self, origin: V, identity: M) -> (id: usize)
        requires
            old(self).wf(),
        ensures
            final(self).wf(),
            id == old(self)@.len(),
            final(self)@ == old(self)@.push(
                NodeModel {
                    position: origin,
                    rotation: origin,
                    reference_point: origin,
                    resource: None,
                    world: identity,
                    children: Seq::empty(),
                    parent: None,
                },
            ),
    {
        self.push_node(
            SceneNode {
                position: origin,
                rotation: origin,
                reference_point: origin,
                resource: None,
                world: identity,
                children: Vec::new(),
                parent: None,
            },
        )
    }

    /// Adds a node that draws `resource`; otherwise as [`Self::create_empty`].
    pub fn create_with_resource(&mut self, origin: V, identity: M, resource: MeshResource) -> (id:
        usize)
        requires
            old(self).wf(),
        ensures
            final(self).wf(),
            id == old(self)@.len(),
            final(self)@ == old(self)@.push(
                NodeModel {
                    position: origin,
                    rotation: origin,
                    reference_point: origin,
                    resource: Some(resource),
                    world: identity,
                    children: Seq::empty(),
                    parent: None,
                },
            ),
    {
        self.push_node(
            SceneNode {
                position: origin,
                rotation: origin,
                reference_point: origin,
                resource: Some(resource),
                world: identity,
                children: Vec::new(),
                parent: None,
            },
        )
    }
}

} // verus!

//! A retained-mode scene graph: mesh upload layout, a node arena with
//! hierarchical transform propagation, draw-list generation and the input
//! state shared between an event loop and a render loop.
//!
//! The library never touches the GPU or the window system itself and is
//! agnostic of the scalar type: vectors and matrices are type parameters,
//! and the elementary matrix operations are supplied by the caller as
//! closures. What the library owns is the structure around them: which
//! buffers are uploaded in which layout, how the node tree is kept acyclic,
//! in which order transforms are composed and nodes are drawn, and how key
//! and mouse events change the shared input state.

pub mod forest;
pub mod graph;
pub mod input;
pub mod mesh;
pub mod render;
pub mod transform;

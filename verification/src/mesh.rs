//! Layout of a mesh in GPU memory: validation of the four parallel arrays,
//! the fixed vertex-attribute layout and the handle that a scene node keeps.

use vstd::prelude::*;

verus! {

/// Scalars per vertex position.
pub const POSITION_COMPONENTS: usize = 3;

/// Scalars per vertex colour (red, green, blue, alpha).
pub const COLOR_COMPONENTS: usize = 4;

/// Scalars per vertex normal.
pub const NORMAL_COMPONENTS: usize = 3;

/// Attribute slot that the shader reads positions from.
pub const POSITION_SLOT: u32 = 0;

/// Attribute slot that the shader reads colours from.
pub const COLOR_SLOT: u32 = 1;

/// Attribute slot that the shader reads normals from. The gap after the
/// colour slot is part of the shader's binding convention.
pub const NORMAL_SLOT: u32 = 5;

/// Bytes per scalar: attributes are 32-bit floats, indices 32-bit unsigned.
pub const SCALAR_BYTES: usize = 4;

/// Largest index count that one draw call can take.
pub const MAX_ELEMENTS: usize = 0x7fff_ffff;

/// Why a set of mesh arrays cannot be uploaded.
#[derive(Clone, Copy, Debug, PartialEq, Eq, Structural)]
pub enum MeshError {
    /// The position array is not a whole number of 3-component vertices.
    PositionLength,
    /// The colour array does not hold 4 components for each vertex.
    ColorLength,
    /// The normal array does not hold 3 components for each vertex.
    NormalLength,
    /// Some index does not name a vertex.
    IndexOutOfRange,
    /// A buffer's byte size or the index count exceeds what the GPU interface can take.
    TooLarge,
}

/// Vertex and index counts of a validated mesh.
#[derive(Clone, Copy, Debug, PartialEq, Eq, Structural)]
pub struct MeshShape {
    pub vertex_count: usize,
    pub index_count: usize,
}

/// One of the four arrays that make up a mesh.
#[derive(Clone, Copy, Debug, PartialEq, Eq, Structural)]
pub enum MeshArray {
    Positions,
    Indices,
    Colors,
    Normals,
}

/// The binding point a buffer is uploaded through.
#[derive(Clone, Copy, Debug, PartialEq, Eq, Structural)]
pub enum BufferTarget {
    /// Per-vertex attribute data.
    Array,
    /// Element indices.
    ElementArray,
}

/// One action of a mesh upload, in the order in which it has to be issued
/// while the mesh's vertex array is bound.
#[derive(Clone, Copy, Debug, PartialEq, Eq, Structural)]
pub enum UploadStep {
    /// Create a buffer, bind it to `target` and copy all of `source` into it.
    Buffer { source: MeshArray, target: BufferTarget, byte_len: isize },
    /// Describe the currently bound attribute buffer as tightly packed
    /// groups of `components` floats, `stride` bytes apart, and enable `slot`.
    Attribute { slot: u32, components: i32, stride: i32 },
}

/// Handle of an uploaded mesh: the vertex array and how many indices to draw.
/// An element count of zero means that there is nothing to draw.
#[derive(Clone, Copy, Debug, PartialEq, Eq, Structural)]
pub struct MeshResource {
    pub vao: u32,
    pub element_count: u32,
}

/// The vertex count that a position array of the given length stands for.
pub open spec fn vertex_count_of(positions_len: usize) -> int {
    positions_len as int / 3
}

/// All indices name one of `vertex_count` vertices.
pub open spec fn indices_in_range(indices: Seq<u32>, vertex_count: int) -> bool {
    forall|i: int| 0 <= i < indices.len() ==> (#[trigger] indices[i]) < vertex_count
}

/// Every buffer of such a mesh fits the byte sizes and counts of the GPU interface.
pub open spec fn shape_fits(vertex_count: int, index_count: int) -> bool {
    &&& 16 * vertex_count <= isize::MAX
    &&& 4 * index_count <= isize::MAX
    &&& index_count <= 0x7fff_ffff
}

/// What the arrays' lengths and the indices say about the mesh: its shape,
/// or the first rule that they break.
pub open spec fn classify_mesh(
    positions_len: usize,
    colors_len: usize,
    normals_len: usize,
    indices: Seq<u32>,
) -> Result<MeshShape, MeshError> {
    let n = vertex_count_of(positions_len);
    if positions_len as int % 3 != 0 {
        Err(MeshError::PositionLength)
    } else if colors_len != 4 * n {
        Err(MeshError::ColorLength)
    } else if normals_len != 3 * n {
        Err(MeshError::NormalLength)
    } else if !indices_in_range(indices, n) {
        Err(MeshError::IndexOutOfRange)
    } else if !shape_fits(n, indices.len() as int) {
        Err(MeshError::TooLarge)
    } else {
        Ok(MeshShape { vertex_count: n as usize, index_count: indices.len() as usize })
    }
}

/// The upload script of a mesh of the given shape.
pub open spec fn upload_plan_of(shape: MeshShape) -> Seq<UploadStep> {
    seq![
        UploadStep::Buffer {
            source: MeshArray::Positions,
            target: BufferTarget::Array,
            byte_len: (12 * shape.vertex_count) as isize,
        },
        UploadStep::Buffer {
            source: MeshArray::Indices,
            target: BufferTarget::ElementArray,
            byte_len: (4 * shape.index_count) as isize,
        },
        UploadStep::Attribute { slot: 0, components: 3, stride: 12 },
        UploadStep::Buffer {
            source: MeshArray::Colors,
            target: BufferTarget::Array,
            byte_len: (16 * shape.vertex_count) as isize,
        },
        UploadStep::Attribute { slot: 1, components: 4, stride: 16 },
        UploadStep::Buffer {
            source: MeshArray::Normals,
            target: BufferTarget::Array,
            byte_len: (12 * shape.vertex_count) as isize,
        },
        UploadStep::Attribute { slot: 5, components: 3, stride: 12 },
    ]
}

/// Size in bytes of an array of `len` 32-bit scalars.
pub fn byte_size_of_array(len: usize) -> (bytes: isize)
    requires
        4 * len <= isize::MAX,
    ensures
        bytes == 4 * len,
{
    (len * 4) as isize
}

/// Distance in bytes between two consecutive groups of `components` tightly
/// packed 32-bit scalars.
pub fn stride_of(components: usize) -> (stride: i32)
    requires
        4 * components <= i32::MAX,
    ensures
        stride == 4 * components,
{
    (components * 4) as i32
}

/// Whether every index names one of `vertex_count` vertices.
pub fn all_indices_in_range(indices: &Vec<u32>, vertex_count: usize) -> (ok: bool)
    ensures
        ok == indices_in_range(indices@, vertex_count as int),
{
    let mut i: usize = 0;
    while i < indices.len()
        invariant
            i <= indices.len(),
            indices_in_range(indices@.take(i as int), vertex_count as int),
        decreases indices.len() - i,
    {
        if indices[i] as usize >= vertex_count {
            return false;
        }
        assert forall|j: int| 0 <= j < i + 1 implies (#[trigger] indices@.take(i + 1)[j])
            < vertex_count by {
            if j < i {
                assert(indices@.take(i as int)[j] == indices@[j]);
            }
        }
        i += 1;
    }
    assert(indices@.take(i as int) =~= indices@);
    true
}

/// Checks the lengths of the three attribute arrays against each other, the
/// indices against the vertex count, and the sizes against the GPU interface.
/// Only the lengths of the attribute arrays matter, so those are what is taken.
pub fn check_mesh_arrays(
    positions_len: usize,
    colors_len: usize,
    normals_len: usize,
    indices: &Vec<u32>,
) -> (checked: Result<MeshShape, MeshError>)
    ensures
        checked == classify_mesh(positions_len, colors_len, normals_len, indices@),
        checked matches Ok(shape) ==> shape_fits(
            shape.vertex_count as int,
            shape.index_count as int,
        ),
{
    let n: usize = positions_len / POSITION_COMPONENTS;
    if positions_len % POSITION_COMPONENTS != 0 {
        return Err(MeshError::PositionLength);
    }
    if colors_len % COLOR_COMPONENTS != 0 || colors_len / COLOR_COMPONENTS != n {
        return Err(MeshError::ColorLength);
    }
    if normals_len != positions_len {
        return Err(MeshError::NormalLength);
    }
    if !all_indices_in_range(indices, n) {
        return Err(MeshError::IndexOutOfRange);
    }
    let max_bytes: usize = isize::MAX as usize;
    if n > max_bytes / 16 || indices.len() > max_bytes / 4 || indices.len() > MAX_ELEMENTS {
        return Err(MeshError::TooLarge);
    }
    Ok(MeshShape { vertex_count: n, index_count: indices.len() })
}

/// The actions that upload a mesh of the given shape, in order: positions,
/// indices, colours, normals, each attribute described right after its buffer.
pub fn upload_plan(shape: &MeshShape) -> (plan: Vec<UploadStep>)
    requires
        shape_fits(shape.vertex_count as int, shape.index_count as int),
    ensures
        plan@ == upload_plan_of(*shape),
{
    let attr3: isize = byte_size_of_array(shape.vertex_count * 3);
    let attr4: isize = byte_size_of_array(shape.vertex_count * 4);
    let plan = vec![
        UploadStep::Buffer {
            source: MeshArray::Positions,
            target: BufferTarget::Array,
            byte_len: attr3,
        },
        UploadStep::Buffer {
            source: MeshArray::Indices,
            target: BufferTarget::ElementArray,
            byte_len: byte_size_of_array(shape.index_count),
        },
        UploadStep::Attribute {
            slot: POSITION_SLOT,
            components: 3,
            stride: stride_of(POSITION_COMPONENTS),
        },
        UploadStep::Buffer {
            source: MeshArray::Colors,
            target: BufferTarget::Array,
            byte_len: attr4,
        },
        UploadStep::Attribute {
            slot: COLOR_SLOT,
            components: 4,
            stride: stride_of(COLOR_COMPONENTS),
        },
        UploadStep::Buffer {
            source: MeshArray::Normals,
            target: BufferTarget::Array,
            byte_len: attr3,
        },
        UploadStep::Attribute {
            slot: NORMAL_SLOT,
            components: 3,
            stride: stride_of(NORMAL_COMPONENTS),
        },
    ];
    assert(plan@ =~= upload_plan_of(*shape));
    plan
}

impl MeshResource {
    /// The handle of a mesh uploaded under vertex array `vao`; its element
    /// count is the mesh's index count.
    pub fn new(vao: u32, shape: &MeshShape) -> (resource: MeshResource)
        requires
            shape.index_count <= 0x7fff_ffff,
        ensures
            resource.vao == vao,
            resource.element_count == shape.index_count,
    {
        MeshResource { vao, element_count: shape.index_count as u32 }
    }

    /// Whether there is anything to draw.
    pub fn has_geometry(&self) -> (drawable: bool)
        ensures
            drawable == (self.element_count != 0),
    {
        self.element_count != 0
    }
}

} // verus!

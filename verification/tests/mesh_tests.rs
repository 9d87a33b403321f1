use scene_engine::mesh::{
    all_indices_in_range, byte_size_of_array, check_mesh_arrays, stride_of, upload_plan,
    BufferTarget, MeshArray, MeshError, MeshResource, MeshShape, UploadStep, COLOR_COMPONENTS,
    COLOR_SLOT, NORMAL_COMPONENTS, NORMAL_SLOT, POSITION_COMPONENTS, POSITION_SLOT, SCALAR_BYTES,
};

#[test]
fn three_triangles_are_a_valid_mesh() {
    let indices: Vec<u32> = vec![0, 1, 2, 3, 4, 5, 6, 7, 8];
    let shape = check_mesh_arrays(27, 36, 27, &indices);
    assert_eq!(shape, Ok(MeshShape { vertex_count: 9, index_count: 9 }));
}

#[test]
fn empty_mesh_is_valid_and_has_no_geometry() {
    let indices: Vec<u32> = Vec::new();
    let shape = check_mesh_arrays(0, 0, 0, &indices).unwrap();
    assert_eq!(shape, MeshShape { vertex_count: 0, index_count: 0 });
    let resource = MeshResource::new(4, &shape);
    assert_eq!(resource.element_count, 0);
    assert!(!resource.has_geometry());
}

#[test]
fn position_length_must_be_a_multiple_of_three() {
    let indices: Vec<u32> = vec![0];
    assert_eq!(check_mesh_arrays(10, 12, 9, &indices), Err(MeshError::PositionLength));
    // The first broken rule is the one reported.
    assert_eq!(check_mesh_arrays(10, 1, 1, &indices), Err(MeshError::PositionLength));
}

#[test]
fn color_length_must_be_four_per_vertex() {
    let indices: Vec<u32> = vec![0, 1, 2];
    assert_eq!(check_mesh_arrays(9, 9, 9, &indices), Err(MeshError::ColorLength));
    assert_eq!(check_mesh_arrays(9, 11, 9, &indices), Err(MeshError::ColorLength));
    assert_eq!(check_mesh_arrays(9, 16, 9, &indices), Err(MeshError::ColorLength));
}

#[test]
fn normal_length_must_be_three_per_vertex() {
    let indices: Vec<u32> = vec![0, 1, 2];
    assert_eq!(check_mesh_arrays(9, 12, 12, &indices), Err(MeshError::NormalLength));
    assert_eq!(check_mesh_arrays(9, 12, 0, &indices), Err(MeshError::NormalLength));
}

#[test]
fn indices_must_name_vertices() {
    let indices: Vec<u32> = vec![0, 1, 3];
    assert_eq!(check_mesh_arrays(9, 12, 9, &indices), Err(MeshError::IndexOutOfRange));
    let last_valid: Vec<u32> = vec![2, 2, 2];
    assert!(check_mesh_arrays(9, 12, 9, &last_valid).is_ok());
    let none: Vec<u32> = vec![0];
    assert_eq!(check_mesh_arrays(0, 0, 0, &none), Err(MeshError::IndexOutOfRange));
}

#[test]
fn oversized_mesh_is_refused() {
    let indices: Vec<u32> = Vec::new();
    // Four colour components for this many vertices do not fit a usize, so
    // no colour length can match.
    let positions = (usize::MAX / 3) * 3;
    assert_eq!(
        check_mesh_arrays(positions, usize::MAX, positions, &indices),
        Err(MeshError::ColorLength)
    );
    let many = (isize::MAX as usize) / 16 + 1;
    assert_eq!(
        check_mesh_arrays(many * 3, many * 4, many * 3, &indices),
        Err(MeshError::TooLarge)
    );
    let most = (isize::MAX as usize) / 16;
    assert_eq!(
        check_mesh_arrays(most * 3, most * 4, most * 3, &indices),
        Ok(MeshShape { vertex_count: most, index_count: 0 })
    );
}

#[test]
fn index_range_check_reports_the_first_bad_index() {
    assert!(all_indices_in_range(&vec![0, 4, 2], 5));
    assert!(!all_indices_in_range(&vec![0, 5, 2], 5));
    assert!(all_indices_in_range(&Vec::new(), 0));
    assert!(!all_indices_in_range(&vec![0], 0));
}

#[test]
fn byte_sizes_and_strides_are_four_bytes_per_scalar() {
    assert_eq!(SCALAR_BYTES, 4);
    assert_eq!(byte_size_of_array(0), 0);
    assert_eq!(byte_size_of_array(27), 108);
    assert_eq!(stride_of(POSITION_COMPONENTS), 12);
    assert_eq!(stride_of(COLOR_COMPONENTS), 16);
    assert_eq!(stride_of(NORMAL_COMPONENTS), 12);
}

#[test]
fn attribute_slots_follow_the_shader_convention() {
    assert_eq!(POSITION_SLOT, 0);
    assert_eq!(COLOR_SLOT, 1);
    assert_eq!(NORMAL_SLOT, 5);
}

#[test]
fn upload_plan_lists_buffers_and_attributes_in_order() {
    let shape = MeshShape { vertex_count: 9, index_count: 12 };
    let plan = upload_plan(&shape);
    let expected = vec![
        UploadStep::Buffer {
            source: MeshArray::Positions,
            target: BufferTarget::Array,
            byte_len: 108,
        },
        UploadStep::Buffer {
            source: MeshArray::Indices,
            target: BufferTarget::ElementArray,
            byte_len: 48,
        },
        UploadStep::Attribute { slot: 0, components: 3, stride: 12 },
        UploadStep::Buffer { source: MeshArray::Colors, target: BufferTarget::Array, byte_len: 144 },
        UploadStep::Attribute { slot: 1, components: 4, stride: 16 },
        UploadStep::Buffer {
            source: MeshArray::Normals,
            target: BufferTarget::Array,
            byte_len: 108,
        },
        UploadStep::Attribute { slot: 5, components: 3, stride: 12 },
    ];
    assert_eq!(plan, expected);
}

#[test]
fn resource_element_count_is_the_index_count() {
    let indices: Vec<u32> = vec![0, 1, 2, 2, 1, 0];
    let shape = check_mesh_arrays(9, 12, 9, &indices).unwrap();
    let resource = MeshResource::new(17, &shape);
    assert_eq!(resource.vao, 17);
    assert_eq!(resource.element_count, 6);
    assert!(resource.has_geometry());
}

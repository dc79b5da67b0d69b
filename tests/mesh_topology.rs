use physics_engine::MeshTopology;

#[test]
fn create_mesh_topology() {
    let mut mesh = MeshTopology::new();
    assert_eq!(mesh.is_valid(), false);
    assert_eq!(mesh.face_count(), 0);
    assert_eq!(mesh.edge_count(), 0);
    assert_eq!(mesh.vertex_count(), 0);

    for expected in 0..3 {
        assert_eq!(mesh.add_vertex(), expected);
    }
    mesh.add_face(vec![0, 1, 2]);
    assert_eq!(mesh.is_valid(), true);
    assert_eq!(mesh.face_count(), 1);
    assert_eq!(mesh.edge_count(), 3);
    assert_eq!(mesh.vertex_count(), 3);

    // A triangle that shares a single vertex.
    let a = mesh.add_vertex();
    let b = mesh.add_vertex();
    mesh.add_face(vec![a, 1, b]);
    assert_eq!(mesh.face_count(), 2);
    assert_eq!(mesh.edge_count(), 6);
    assert_eq!(mesh.vertex_count(), 5);

    // A triangle that shares an edge.
    let c = mesh.add_vertex();
    mesh.add_face(vec![c, 1, 2]);
    assert_eq!(mesh.face_count(), 3);
    assert_eq!(mesh.edge_count(), 8);
    assert_eq!(mesh.vertex_count(), 6);

    // A triangle that shares two edges.
    mesh.add_face(vec![0, 1, a]);
    assert_eq!(mesh.is_valid(), true);
    assert_eq!(mesh.face_count(), 4);
    assert_eq!(mesh.edge_count(), 9);
    assert_eq!(mesh.vertex_count(), 6);
}

#[test]
fn edges_keep_lower_index_first() {
    let mut mesh = MeshTopology::new();
    for _ in 0..4 {
        mesh.add_vertex();
    }
    mesh.add_edge(3, 1);
    assert_eq!(mesh.edge(0), (1, 3));
    mesh.add_edge(1, 3);
    assert_eq!(mesh.edge_count(), 1);
    mesh.add_face(vec![2, 1, 0]);
    assert_eq!(mesh.edge_count(), 4);
    assert_eq!(mesh.edge(1), (1, 2));
    assert_eq!(mesh.edge(2), (0, 1));
    assert_eq!(mesh.edge(3), (0, 2));
    assert_eq!(mesh.face(0), vec![2, 1, 0]);
}

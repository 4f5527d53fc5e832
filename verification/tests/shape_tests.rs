use lottify::shape::{get_shapes, MeshShape, PathCmd, Shape};

#[test]
fn closed_outlines_split_at_close() {
    let s = Shape::new(vec![
        PathCmd::MoveTo([1, 2]),
        PathCmd::LineTo([3, 4]),
        PathCmd::LineTo([5, 6]),
        PathCmd::ClosePath,
        PathCmd::MoveTo([7, 8]),
        PathCmd::LineTo([9, 10]),
        PathCmd::ClosePath,
        PathCmd::MoveTo([11, 12]),
    ]);
    let runs = s.closed_outlines();
    assert_eq!(runs, vec![vec![[1, 2], [3, 4], [5, 6]], vec![[7, 8], [9, 10]]]);
}

#[test]
fn closed_outlines_of_empty_shape() {
    assert!(Shape::new(vec![]).closed_outlines().is_empty());
    assert_eq!(Shape::new(vec![PathCmd::ClosePath]).closed_outlines(), vec![Vec::<[u32; 2]>::new()]);
}

#[test]
fn mesh_shape_new_has_no_name() {
    let m = MeshShape::new(Shape::new(vec![PathCmd::ClosePath]), 5u8, "id");
    assert_eq!(m.color, 5);
    assert_eq!(m.mesh_id, "id");
    assert!(m.name.is_none());
    assert_eq!(m.shape.paths.len(), 1);
}

#[test]
fn get_shapes_follows_the_ordering() {
    let mut a = MeshShape::new(Shape::new(vec![PathCmd::MoveTo([1, 1])]), 'a', 0u8);
    a.name = Some("first".to_string());
    let b = MeshShape::new(Shape::new(vec![]), 'b', 1u8);
    let shapes = vec![a, b];
    let out = get_shapes(&shapes, &vec![1, 0, 1]);
    let colors: Vec<char> = out.iter().map(|m| m.color).collect();
    assert_eq!(colors, vec!['b', 'a', 'b']);
    assert_eq!(out[1].name.as_deref(), Some("first"));
    assert_eq!(out[1].shape.paths.len(), 1);
    assert!(out[0].shape.paths.is_empty());
}

#[test]
fn duplicate_copies_every_element() {
    let s = Shape::new(vec![PathCmd::MoveTo([1, 1]), PathCmd::ClosePath]);
    assert_eq!(s.duplicate().paths.len(), 2);
}

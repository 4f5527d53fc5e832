use lottify::mapping::{hash_pos, process_face, Face, ProcessResult, VertexMap};
use lottify::shape::PathCmd;
use lottify::vectorize::{
    chunk_faces, generate_collection, generate_shape, generate_shapes, MeshFaces, MeshInput,
};

const ONE: u32 = 0x3F80_0000;
const TWO: u32 = 0x4000_0000;

fn bits(p: [f32; 3]) -> [u32; 3] {
    [p[0].to_bits(), p[1].to_bits(), p[2].to_bits()]
}

fn left_of(v: [f32; 3], n1: [f32; 3], n2: [f32; 3]) -> bool {
    let edge = [n1[0] - v[0], n1[1] - v[1]];
    let to_side = [n2[0] - v[0], n2[1] - v[1]];
    edge[0] * to_side[1] - edge[1] * to_side[0] > 0.0
}

fn face(indices: [usize; 3], pos: &[[f32; 3]]) -> Face {
    let [a, b, c] = indices;
    let steps = [(c, a, b), (b, c, a), (a, b, c)];
    let mut turns = [false; 6];
    for (k, (v, n1, n2)) in steps.iter().enumerate() {
        turns[2 * k] = left_of(pos[*v], pos[*n1], pos[*n2]);
        turns[2 * k + 1] = left_of(pos[*v], pos[*n2], pos[*n1]);
    }
    let u = [pos[b][0] - pos[a][0], pos[b][1] - pos[a][1]];
    let w = [pos[c][0] - pos[a][0], pos[c][1] - pos[a][1]];
    let z = u[0] * w[1] - u[1] * w[0];
    Face { indices, turns, visible: z > 0.0 }
}

fn cmds(c: &[PathCmd]) -> Vec<String> {
    c.iter()
        .map(|p| match p {
            PathCmd::MoveTo([x, y]) => format!("M{},{}", x, y),
            PathCmd::LineTo([x, y]) => format!("L{},{}", x, y),
            PathCmd::ClosePath => "Z".to_string(),
        })
        .collect()
}

fn triangle() -> (Vec<Face>, Vec<[u32; 3]>) {
    let pos = [[0.0, 0.0, 0.0], [1.0, 0.0, 0.0], [0.0, 1.0, 0.0]];
    (vec![face([0, 1, 2], &pos)], pos.iter().map(|p| bits(*p)).collect())
}

fn square() -> (Vec<Face>, Vec<[u32; 3]>) {
    let pos = [[0.0, 0.0, 0.0], [1.0, 0.0, 0.0], [1.0, 1.0, 0.0], [0.0, 1.0, 0.0]];
    (
        vec![face([0, 1, 2], &pos), face([0, 2, 3], &pos)],
        pos.iter().map(|p| bits(*p)).collect(),
    )
}

fn stuck() -> (Vec<Face>, Vec<[u32; 3]>) {
    let pos = [[0.0f32, 0.0, 0.0], [1.0, 1.0, 0.0], [2.0, 1.0, 0.0]];
    let faces = vec![
        Face { indices: [2, 1, 0], turns: [true, false, true, true, true, false], visible: true },
        Face { indices: [0, 1, 2], turns: [false, true, true, false, true, true], visible: true },
        Face { indices: [0, 1, 2], turns: [false, false, false, true, true, false], visible: true },
        Face { indices: [1, 2, 0], turns: [false, true, true, false, false, true], visible: true },
    ];
    (faces, pos.iter().map(|p| bits(*p)).collect())
}

#[test]
fn hash_pos_weights_the_bit_patterns() {
    assert_eq!(hash_pos([0, 0, 0]), 0);
    assert_eq!(hash_pos(bits([1.0, 0.0, 0.0])), 33025949696);
    assert_eq!(hash_pos(bits([0.0, 1.0, 0.0])), 7457472512);
    assert_eq!(hash_pos(bits([1.0, 2.0, 3.0])), 41620078592);
}

#[test]
fn triangle_outline() {
    let (faces, pos) = triangle();
    let shape = generate_shape(&faces, &pos, "red", 7u32).ok().expect("closed outline");
    assert_eq!(cmds(&shape.shape.paths), vec![format!("M0,{}", ONE), "L0,0".to_string(), format!("L{},0", ONE), "Z".to_string()]);
    assert_eq!(shape.color, "red");
    assert_eq!(shape.mesh_id, 7);
    assert!(shape.name.is_none());
}

#[test]
fn square_of_two_triangles_is_one_outline() {
    let (faces, pos) = square();
    let shape = generate_shape(&faces, &pos, (), ()).ok().expect("closed outline");
    assert_eq!(
        cmds(&shape.shape.paths),
        vec![
            format!("M{},{}", ONE, ONE),
            format!("L0,{}", ONE),
            "L0,0".to_string(),
            format!("L{},0", ONE),
            "Z".to_string()
        ]
    );
}

#[test]
fn overlapping_triangles_make_two_outlines() {
    let p = [[2.0, 2.0, 0.0], [1.0, 2.0, 0.0], [2.0, 1.0, 0.0], [2.0, 0.0, 0.0]];
    let faces = vec![face([1, 3, 0], &p), face([3, 2, 1], &p)];
    let pos: Vec<[u32; 3]> = p.iter().map(|q| bits(*q)).collect();
    let shape = generate_shape(&faces, &pos, (), ()).ok().expect("closed outline");
    assert_eq!(
        cmds(&shape.shape.paths),
        vec![
            format!("M{},{}", TWO, TWO),
            format!("L{},{}", ONE, TWO),
            format!("L{},0", TWO),
            "Z".to_string(),
            format!("M{},{}", ONE, TWO),
            format!("L{},0", TWO),
            format!("L{},{}", TWO, ONE),
            "Z".to_string()
        ]
    );
    assert_eq!(shape.shape.closed_outlines().len(), 2);
}

#[test]
fn back_facing_triangle_draws_nothing() {
    let pos = [[0.0, 0.0, 0.0], [1.0, 0.0, 0.0], [0.0, 1.0, 0.0]];
    let faces = vec![face([0, 2, 1], &pos)];
    assert!(!faces[0].visible);
    let b: Vec<[u32; 3]> = pos.iter().map(|p| bits(*p)).collect();
    let shape = generate_shape(&faces, &b, (), ()).ok().expect("empty outline");
    assert!(shape.shape.paths.is_empty());
}

#[test]
fn no_faces_draw_nothing() {
    let shape = generate_shape(&vec![], &vec![], (), ()).ok().expect("empty outline");
    assert!(shape.shape.paths.is_empty());
}

#[test]
fn stuck_walk_returns_partial_outline() {
    let (faces, pos) = stuck();
    match generate_shape(&faces, &pos, (), ()) {
        Ok(_) => panic!("the walk should get stuck"),
        Err(part) => assert_eq!(cmds(&part.paths), vec!["M0,0".to_string(), format!("L{},{}", TWO, ONE)]),
    }
}

#[test]
fn process_face_outlines_then_waits_on_overlap() {
    let (faces, pos) = triangle();
    let mut map = VertexMap::new();
    assert_eq!(process_face(&faces[0], &pos, &mut map), ProcessResult::Outlined);
    let keys: Vec<usize> = map.entries.iter().map(|e| e.0).collect();
    assert_eq!(keys, vec![7457472512, 33025949696, 0]);
    assert_eq!(map.entries[0].1.position, [0, ONE]);
    assert_eq!(map.entries[0].1.paths.len(), 1);
    let before: Vec<usize> = map.entries.iter().map(|e| e.1.paths.len()).collect();
    assert_eq!(process_face(&faces[0], &pos, &mut map), ProcessResult::Skip);
    let after: Vec<usize> = map.entries.iter().map(|e| e.1.paths.len()).collect();
    assert_eq!(before, after);
    assert_eq!(map.entries.len(), 3);
}

#[test]
fn vertex_map_insert_and_get() {
    let mut map = VertexMap::new();
    assert!(map.get(5).is_none());
    map.insert(5, lottify::mapping::Vertex::new(vec![], [1, 2]));
    map.insert(9, lottify::mapping::Vertex::new(vec![], [3, 4]));
    map.insert(5, lottify::mapping::Vertex::new(vec![], [5, 6]));
    assert_eq!(map.entries.len(), 2);
    assert_eq!(map.find(5), Some(0));
    assert_eq!(map.get(5).map(|v| v.position), Some([5, 6]));
    assert_eq!(map.get(9).map(|v| v.position), Some([3, 4]));
}

#[test]
fn generate_shapes_keeps_closed_outlines_in_order() {
    let (f1, p1) = triangle();
    let (f2, p2) = stuck();
    let (f3, p3) = square();
    let meshes = vec![
        MeshInput { faces: f1, positions: p1, color: 'a', id: 1u8 },
        MeshInput { faces: f2, positions: p2, color: 'b', id: 2u8 },
        MeshInput { faces: f3, positions: p3, color: 'c', id: 3u8 },
    ];
    let out = generate_shapes(meshes);
    assert_eq!(out.len(), 2);
    assert_eq!(out[0].color, 'a');
    assert_eq!(out[0].mesh_id, 1);
    assert_eq!(out[1].color, 'c');
    assert_eq!(out[1].mesh_id, 3);
    assert_eq!(out[1].shape.paths.len(), 5);
}

#[test]
fn chunk_faces_groups_by_three() {
    assert_eq!(chunk_faces(&vec![0, 1, 2, 2, 3, 0, 9]), vec![[0, 1, 2], [2, 3, 0]]);
    assert_eq!(chunk_faces(&vec![4, 5]), Vec::<[usize; 3]>::new());
    assert_eq!(chunk_faces(&vec![]), Vec::<[usize; 3]>::new());
}

#[test]
fn generate_collection_pairs_meshes_with_colours() {
    let (f1, p1) = triangle();
    let (f2, p2) = stuck();
    let (f3, p3) = square();
    let meshes = vec![
        MeshFaces { faces: f1, positions: p1 },
        MeshFaces { faces: f2, positions: p2 },
        MeshFaces { faces: f3, positions: p3 },
    ];
    let out = generate_collection(meshes, vec!["one", "two", "three"]);
    let colors: Vec<&str> = out.iter().map(|m| m.color).collect();
    assert_eq!(colors, vec!["one", "three"]);

    let (f1, p1) = triangle();
    let (f3, p3) = square();
    let short = generate_collection(
        vec![MeshFaces { faces: f1, positions: p1 }, MeshFaces { faces: f3, positions: p3 }],
        vec![9u8],
    );
    assert_eq!(short.len(), 1);
    assert_eq!(short[0].color, 9);
    assert_eq!(short[0].shape.paths.len(), 4);
}

fn is_closed_form(c: &[PathCmd]) -> bool {
    if let Some(last) = c.last() {
        if !matches!(last, PathCmd::ClosePath) {
            return false;
        }
    }
    for i in 0..c.len() {
        let after_close = i == 0 || matches!(c[i - 1], PathCmd::ClosePath);
        if matches!(c[i], PathCmd::MoveTo(_)) != after_close {
            return false;
        }
        if matches!(c[i], PathCmd::ClosePath) && (i < 2 || !matches!(c[i - 1], PathCmd::LineTo(_))) {
            return false;
        }
    }
    true
}

fn points_are_positions(c: &[PathCmd], pos: &[[u32; 3]]) -> bool {
    c.iter().all(|p| match p {
        PathCmd::MoveTo(q) | PathCmd::LineTo(q) => pos.iter().any(|r| [r[0], r[1]] == *q),
        PathCmd::ClosePath => true,
    })
}

#[test]
fn outlines_are_closed_runs_through_mesh_points() {
    let p = [[2.0, 2.0, 0.0], [1.0, 2.0, 0.0], [2.0, 1.0, 0.0], [2.0, 0.0, 0.0]];
    let overlap = (
        vec![face([1, 3, 0], &p), face([3, 2, 1], &p)],
        p.iter().map(|q| bits(*q)).collect::<Vec<_>>(),
    );
    for (faces, pos) in [triangle(), square(), overlap] {
        let shape = generate_shape(&faces, &pos, (), ()).ok().expect("closed outline");
        assert!(is_closed_form(&shape.shape.paths));
        assert!(points_are_positions(&shape.shape.paths, &pos));
    }
    let (faces, pos) = stuck();
    let part = generate_shape(&faces, &pos, (), ()).err().expect("stuck outline");
    assert!(points_are_positions(&part.paths, &pos));
}

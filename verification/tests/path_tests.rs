use lottify::path::{Edge, JointLevel, Path};

fn edge(h: usize, r: bool) -> Edge {
    Edge::new(h, r)
}

fn sorted(mut v: Vec<Edge>) -> Vec<(usize, bool)> {
    let mut out: Vec<(usize, bool)> = v.drain(..).map(|e| (e.vertex_hash, e.rotation)).collect();
    out.sort();
    out
}

#[test]
fn edge_new_keeps_fields() {
    let e = Edge::new(7, true);
    assert_eq!(e.vertex_hash, 7);
    assert!(e.rotation);
}

#[test]
fn path_new_drops_repeated_edges() {
    let p = Path::new(vec![edge(1, true), edge(2, false), edge(1, true)]);
    assert_eq!(p.edges, vec![edge(1, true), edge(2, false)]);
    let q = Path::new(vec![edge(3, true), edge(3, true)]);
    assert_eq!(q.edges.len(), 1);
}

#[test]
fn path_is_empty() {
    assert!(Path::new(vec![]).is_empty());
    assert!(!Path::new(vec![edge(1, true)]).is_empty());
}

#[test]
fn path_contains_by_neighbour() {
    let p = Path::new(vec![edge(1, true), edge(2, false)]);
    assert!(p.contains(1));
    assert!(p.contains(2));
    assert!(!p.contains(3));
}

#[test]
fn joint_level_shared_vertex() {
    let a = Path::new(vec![edge(1, true), edge(2, false)]);
    let b = Path::new(vec![edge(3, true), edge(4, false)]);
    assert_eq!(a.joint_level(&b), JointLevel::SharedVertex);
    assert_eq!(b.joint_level(&a), JointLevel::SharedVertex);
}

#[test]
fn joint_level_shared_edge() {
    let a = Path::new(vec![edge(1, true), edge(2, false)]);
    let b = Path::new(vec![edge(2, false), edge(5, true)]);
    assert_eq!(a.joint_level(&b), JointLevel::SharedEdge);
}

#[test]
fn joint_level_merge_edge() {
    let a = Path::new(vec![edge(1, true), edge(2, false)]);
    let b = Path::new(vec![edge(2, true), edge(5, true)]);
    assert_eq!(a.joint_level(&b), JointLevel::MergeEdge);
}

#[test]
fn joint_level_first_pair_decides() {
    // The first edge of `a` meets an opposite edge before the second meets an equal one.
    let a = Path::new(vec![edge(1, true), edge(2, false)]);
    let b = Path::new(vec![edge(2, false), edge(1, false)]);
    assert_eq!(a.joint_level(&b), JointLevel::MergeEdge);
}

#[test]
fn difference_drops_opposed_edges() {
    let a = Path::new(vec![edge(1, true), edge(2, false)]);
    let b = Path::new(vec![edge(2, true), edge(5, true)]);
    assert_eq!(a.difference(&b), vec![edge(1, true)]);
    assert_eq!(b.difference(&a), vec![edge(5, true)]);
}

#[test]
fn difference_keeps_equal_edges() {
    let a = Path::new(vec![edge(1, true)]);
    let b = Path::new(vec![edge(1, true)]);
    assert_eq!(a.difference(&b), vec![edge(1, true)]);
}

#[test]
fn symmetric_difference_unites_once() {
    let a = Path::new(vec![edge(1, true), edge(2, false)]);
    let b = Path::new(vec![edge(2, true), edge(1, true)]);
    assert_eq!(a.symmetric_difference(&b), vec![edge(1, true)]);
}

#[test]
fn merge_joins_two_corners() {
    let a = Path::new(vec![edge(1, true), edge(2, false)]);
    let b = Path::new(vec![edge(2, true), edge(5, true)]);
    let m = a.merge(b);
    assert_eq!(m.edges, vec![edge(1, true), edge(5, true)]);
}

#[test]
fn merge_commutes_as_sets() {
    let a = Path::new(vec![edge(1, true), edge(2, false), edge(7, true)]);
    let b = Path::new(vec![edge(2, true), edge(5, true), edge(7, true)]);
    let a2 = Path::new(vec![edge(1, true), edge(2, false), edge(7, true)]);
    let b2 = Path::new(vec![edge(2, true), edge(5, true), edge(7, true)]);
    let ab = a.merge(b);
    let ba = b2.merge(a2);
    assert!(ab.same_edges(&ba));
    assert_eq!(sorted(ab.edges.clone()), sorted(ba.edges.clone()));
}

#[test]
fn merge_with_empty_keeps_edges() {
    let a = Path::new(vec![edge(1, true), edge(2, false)]);
    let m = a.merge(Path::new(vec![]));
    assert_eq!(m.edges, vec![edge(1, true), edge(2, false)]);
}

#[test]
fn merge_of_fully_opposed_paths_is_empty() {
    let a = Path::new(vec![edge(1, true), edge(2, false)]);
    let b = Path::new(vec![edge(1, false), edge(2, true)]);
    assert!(a.merge(b).is_empty());
}

#[test]
fn same_edges_ignores_order() {
    let a = Path::new(vec![edge(1, true), edge(2, false)]);
    let b = Path::new(vec![edge(2, false), edge(1, true)]);
    let c = Path::new(vec![edge(2, false)]);
    assert!(a.same_edges(&b));
    assert!(!a.same_edges(&c));
    assert!(!c.same_edges(&a));
}

#[test]
fn duplicate_copies_in_order() {
    let a = Path::new(vec![edge(4, false), edge(1, true)]);
    assert_eq!(a.duplicate().edges, vec![edge(4, false), edge(1, true)]);
}

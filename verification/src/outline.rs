use vstd::prelude::*;

use crate::mapping::{
    face_in_range, has_key, lemma_insert_entry, lookup, map_wf, path_ok, paths_ok,
    process_face_spec, Face, VertexModel,
};
use crate::path::Edge;
use crate::shape::PathCmd;
use crate::vectorize::{
    build_map, faces_in_range, first_edge_avoiding, first_path_reaching, first_unused,
    lemma_build_map, outline_of, pick_edge, run_batches, trace_map, trace_vertex, used_contains,
    walk, walk_fuel, TraceState, Walk,
};

verus! {

/// A run of closed sub-paths: each starts with `MoveTo`, goes on with at least one
/// `LineTo` and ends with `ClosePath`.
pub open spec fn closed_form(c: Seq<PathCmd>) -> bool {
    &&& (c.len() == 0 || c.last() is ClosePath)
    &&& forall|i: int|
        0 <= i < c.len() ==> ((#[trigger] c[i] is MoveTo) <==> (i == 0 || c[i - 1] is ClosePath))
    &&& forall|i: int| 0 <= i < c.len() && #[trigger] c[i] is ClosePath ==> i >= 2 && c[i - 1] is LineTo
}

/// Nothing but `LineTo` elements.
pub open spec fn all_lines(ls: Seq<PathCmd>) -> bool {
    forall|i: int| 0 <= i < ls.len() ==> #[trigger] ls[i] is LineTo
}

/// A walk draws only lines, and a closed one draws at least one.
proof fn lemma_walk_lines(m: Seq<(usize, VertexModel)>, start: usize, curr: usize, next: Edge, fuel: nat)
    ensures
        match walk(m, start, curr, next, fuel) {
            Walk::Closed(ls, _) => ls.len() > 0 && all_lines(ls),
            Walk::Broken(ls) => all_lines(ls),
        },
    decreases fuel,
{
    if fuel > 0 {
        let nv = lookup(m, next.vertex_hash).unwrap();
        let line = PathCmd::LineTo(nv.position);
        match first_path_reaching(nv.paths, curr) {
            Some(p) => match first_edge_avoiding(nv.paths[p], curr) {
                None => {},
                Some(e) => {
                    if e.vertex_hash != start {
                        lemma_walk_lines(m, start, next.vertex_hash, e, (fuel - 1) as nat);
                        match walk(m, start, next.vertex_hash, e, (fuel - 1) as nat) {
                            Walk::Closed(ls, _) => {
                                assert(all_lines(seq![line] + ls)) by {
                                    assert forall|i: int| 0 <= i < (seq![line] + ls).len() implies #[trigger] (seq![line] + ls)[i] is LineTo by {
                                        if i > 0 {
                                            assert((seq![line] + ls)[i] == ls[i - 1]);
                                        }
                                    }
                                }
                            },
                            Walk::Broken(ls) => {
                                assert(all_lines(seq![line] + ls)) by {
                                    assert forall|i: int| 0 <= i < (seq![line] + ls).len() implies #[trigger] (seq![line] + ls)[i] is LineTo by {
                                        if i > 0 {
                                            assert((seq![line] + ls)[i] == ls[i - 1]);
                                        }
                                    }
                                }
                            },
                        }
                    }
                },
            },
            None => {},
        }
    }
}

/// One closed sub-path appended to a run of closed sub-paths gives a run of closed
/// sub-paths.
proof fn lemma_append_subpath(out: Seq<PathCmd>, pt: [u32; 2], ls: Seq<PathCmd>)
    requires
        closed_form(out),
        ls.len() > 0,
        all_lines(ls),
    ensures
        closed_form(out + (seq![PathCmd::MoveTo(pt)] + ls).push(PathCmd::ClosePath)),
{
    let piece = (seq![PathCmd::MoveTo(pt)] + ls).push(PathCmd::ClosePath);
    let c = out + piece;
    let n = out.len() as int;
    assert forall|i: int| 0 <= i < c.len() implies ((#[trigger] c[i] is MoveTo) <==> (i == 0 || c[i - 1] is ClosePath)) by {
        if i < n {
            assert(c[i] == out[i]);
            if i > 0 {
                assert(c[i - 1] == out[i - 1]);
            }
        } else if i == n {
            assert(c[i] == PathCmd::MoveTo(pt));
            if i > 0 {
                assert(c[i - 1] == out[n - 1]);
            }
        } else if i <= n + ls.len() {
            assert(c[i] == ls[i - n - 1]);
            if i - 1 == n {
                assert(c[i - 1] == PathCmd::MoveTo(pt));
            } else {
                assert(c[i - 1] == ls[i - n - 2]);
            }
        } else {
            assert(c[i] == PathCmd::ClosePath);
            assert(c[i - 1] == ls[ls.len() - 1]);
        }
    }
    assert forall|i: int| 0 <= i < c.len() && #[trigger] c[i] is ClosePath implies i >= 2 && c[i - 1] is LineTo by {
        if i < n {
            assert(c[i] == out[i]);
            assert(c[i - 1] == out[i - 1]);
        } else if i == n {
            assert(c[i] == PathCmd::MoveTo(pt));
        } else if i <= n + ls.len() {
            assert(c[i] == ls[i - n - 1]);
        } else {
            assert(c[i - 1] == ls[ls.len() - 1]);
        }
    }
    assert(c.last() == PathCmd::ClosePath);
}

/// Tracing keeps the drawn outline a run of closed sub-paths.
proof fn lemma_trace_closed_form(m: Seq<(usize, VertexModel)>, n: int, st: TraceState)
    requires
        closed_form(st.out),
    ensures
        trace_map(m, n, st) matches Ok(st2) ==> closed_form(st2.out),
    decreases n,
{
    if n > 0 {
        lemma_trace_closed_form(m, n - 1, st);
        match trace_map(m, n - 1, st) {
            Err(_) => {},
            Ok(st1) => {
                let v = m[n - 1].1;
                let hash = m[n - 1].0;
                if v.paths.len() > 0 {
                    match first_unused(v.paths, st1.used) {
                        None => {},
                        Some(p) => {
                            let (next, rot) = pick_edge(v.paths[p], v.paths[0][0], st1.rotation);
                            lemma_walk_lines(m, hash, hash, next, walk_fuel(m.len()));
                            match walk(m, hash, hash, next, walk_fuel(m.len())) {
                                Walk::Closed(ls, us) => {
                                    lemma_append_subpath(st1.out, v.position, ls);
                                },
                                Walk::Broken(_) => {},
                            }
                        },
                    }
                }
            },
        }
    }
}

proof fn lemma_run_batches_closed_form(faces: Seq<Face>, positions: Seq<[u32; 3]>, rotation: Option<bool>, out: Seq<PathCmd>)
    requires
        closed_form(out),
    ensures
        run_batches(faces, positions, rotation, out) matches Ok(c) ==> closed_form(c),
    decreases faces.len(),
{
    let (m, sk) = build_map(faces, positions);
    let st0 = TraceState { used: Seq::empty(), rotation, out };
    lemma_trace_closed_form(m, m.len() as int, st0);
    match trace_map(m, m.len() as int, st0) {
        Err(_) => {},
        Ok(st) => {
            if sk.len() > 0 && sk.len() < faces.len() {
                lemma_run_batches_closed_form(sk, positions, st.rotation, st.out);
            }
        },
    }
}

/// Every outline of a mesh is a run of closed sub-paths: each starts with `MoveTo`,
/// goes on with at least one `LineTo` and ends with `ClosePath`.
pub proof fn lemma_outline_closed(faces: Seq<Face>, positions: Seq<[u32; 3]>)
    ensures
        outline_of(faces, positions) matches Ok(c) ==> closed_form(c),
{
    lemma_run_batches_closed_form(faces, positions, None, Seq::empty());
}

/// `pt` is the drawing-plane point of one of the mesh's positions.
pub open spec fn mesh_point(pt: [u32; 2], positions: Seq<[u32; 3]>) -> bool {
    exists|i: int| 0 <= i < positions.len() && pt == [positions[i][0], positions[i][1]]
}

/// Every point of the outline elements is a point of the mesh.
pub open spec fn points_from(cmds: Seq<PathCmd>, positions: Seq<[u32; 3]>) -> bool {
    forall|i: int|
        0 <= i < cmds.len() ==> match #[trigger] cmds[i] {
            PathCmd::MoveTo(p) => mesh_point(p, positions),
            PathCmd::LineTo(p) => mesh_point(p, positions),
            PathCmd::ClosePath => true,
        }
}

/// Every vertex of the map lies at a point of the mesh.
pub open spec fn map_points_from(m: Seq<(usize, VertexModel)>, positions: Seq<[u32; 3]>) -> bool {
    forall|i: int| 0 <= i < m.len() ==> mesh_point(#[trigger] m[i].1.position, positions)
}

proof fn lemma_lookup_point(m: Seq<(usize, VertexModel)>, positions: Seq<[u32; 3]>, k: usize)
    requires
        map_points_from(m, positions),
        has_key(m, k),
    ensures
        mesh_point(lookup(m, k).unwrap().position, positions),
{
    let i = crate::mapping::key_index(m, k);
    assert(mesh_point(m[i].1.position, positions));
}

proof fn lemma_process_face_points(f: Face, positions: Seq<[u32; 3]>, m: Seq<(usize, VertexModel)>)
    requires
        map_points_from(m, positions),
        face_in_range(f, positions.len() as int),
    ensures
        map_points_from(process_face_spec(f, positions, m).1, positions),
{
    if process_face_spec(f, positions, m).0 {
        assert forall|k: int| 0 <= k < 3 implies mesh_point(
            #[trigger] crate::mapping::step_result(f, positions, m, k).unwrap().1.position,
            positions,
        ) by {
            let c = crate::mapping::corner(f, k);
            assert(c == f.indices[2 - k]);
            assert(c < positions.len());
            let pos = positions[c as int];
            let h = crate::mapping::position_hash(pos);
            match lookup(m, h) {
                Some(v) => {
                    lemma_lookup_point(m, positions, h);
                },
                None => {
                    assert([pos[0], pos[1]] == [positions[c as int][0], positions[c as int][1]]);
                },
            }
        }
        let r0 = crate::mapping::step_result(f, positions, m, 0).unwrap();
        let r1 = crate::mapping::step_result(f, positions, m, 1).unwrap();
        let r2 = crate::mapping::step_result(f, positions, m, 2).unwrap();
        let m1 = crate::mapping::insert_entry(m, r0.0, r0.1);
        let m2 = crate::mapping::insert_entry(m1, r1.0, r1.1);
        let m3 = crate::mapping::insert_entry(m2, r2.0, r2.1);
        lemma_insert_points(m, r0.0, r0.1, positions);
        lemma_insert_points(m1, r1.0, r1.1, positions);
        lemma_insert_points(m2, r2.0, r2.1, positions);
    }
}

proof fn lemma_insert_points(m: Seq<(usize, VertexModel)>, k: usize, v: VertexModel, positions: Seq<[u32; 3]>)
    requires
        map_points_from(m, positions),
        mesh_point(v.position, positions),
    ensures
        map_points_from(crate::mapping::insert_entry(m, k, v), positions),
{
    lemma_insert_entry(m, k, v);
    let r = crate::mapping::insert_entry(m, k, v);
    assert forall|i: int| 0 <= i < r.len() implies mesh_point(#[trigger] r[i].1.position, positions) by {
        if r[i] != (k, v) {
            assert(r[i] == m[i]);
        }
    }
}

proof fn lemma_build_map_points(faces: Seq<Face>, positions: Seq<[u32; 3]>)
    requires
        faces_in_range(faces, positions.len() as int),
    ensures
        map_points_from(build_map(faces, positions).0, positions),
    decreases faces.len(),
{
    if faces.len() > 0 {
        assert forall|i: int| 0 <= i < faces.drop_last().len() implies face_in_range(
            #[trigger] faces.drop_last()[i],
            positions.len() as int,
        ) by {
            assert(faces.drop_last()[i] == faces[i]);
        }
        lemma_build_map_points(faces.drop_last(), positions);
        let (m, sk) = build_map(faces.drop_last(), positions);
        let f = faces.last();
        assert(face_in_range(f, positions.len() as int)) by {
            assert(faces[faces.len() - 1] == f);
        }
        if f.visible {
            lemma_process_face_points(f, positions, m);
        }
    }
}

/// The lines of a walk go to vertices of the map.
proof fn lemma_walk_points(m: Seq<(usize, VertexModel)>, positions: Seq<[u32; 3]>, start: usize, curr: usize, next: Edge, fuel: nat)
    requires
        map_wf(m),
        map_points_from(m, positions),
        has_key(m, next.vertex_hash),
    ensures
        match walk(m, start, curr, next, fuel) {
            Walk::Closed(ls, _) => points_from(ls, positions),
            Walk::Broken(ls) => points_from(ls, positions),
        },
    decreases fuel,
{
    if fuel > 0 {
        let nv = lookup(m, next.vertex_hash).unwrap();
        let line = PathCmd::LineTo(nv.position);
        lemma_lookup_point(m, positions, next.vertex_hash);
        assert(points_from(seq![line], positions));
        match first_path_reaching(nv.paths, curr) {
            Some(p) => match first_edge_avoiding(nv.paths[p], curr) {
                None => {},
                Some(e) => {
                    if e.vertex_hash != start {
                        lemma_first_path_reaching_range(nv.paths, curr);
                        lemma_first_edge_avoiding_in(nv.paths[p], curr);
                        let i = crate::mapping::key_index(m, next.vertex_hash);
                        assert(paths_ok(m, m[i].1.paths));
                        assert(path_ok(m, nv.paths[p]));
                        let t = choose|t: int| 0 <= t < nv.paths[p].len() && nv.paths[p][t] == e;
                        assert(has_key(m, nv.paths[p][t].vertex_hash));
                        lemma_walk_points(m, positions, start, next.vertex_hash, e, (fuel - 1) as nat);
                        let rest = walk(m, start, next.vertex_hash, e, (fuel - 1) as nat);
                        let ls = match rest {
                            Walk::Closed(ls, _) => ls,
                            Walk::Broken(ls) => ls,
                        };
                        assert(points_from(seq![line] + ls, positions)) by {
                            assert forall|j: int| 0 <= j < (seq![line] + ls).len() implies match #[trigger] (seq![line] + ls)[j] {
                                PathCmd::MoveTo(q) => mesh_point(q, positions),
                                PathCmd::LineTo(q) => mesh_point(q, positions),
                                PathCmd::ClosePath => true,
                            } by {
                                if j > 0 {
                                    assert((seq![line] + ls)[j] == ls[j - 1]);
                                }
                            }
                        }
                    }
                },
            },
            None => {},
        }
    }
}

proof fn lemma_first_path_reaching_range(paths: Seq<Seq<Edge>>, h: usize)
    ensures
        first_path_reaching(paths, h) matches Some(p) ==> 0 <= p < paths.len(),
    decreases paths.len(),
{
    if paths.len() > 0 {
        lemma_first_path_reaching_range(paths.drop_first(), h);
    }
}

proof fn lemma_first_edge_avoiding_in(path: Seq<Edge>, h: usize)
    ensures
        first_edge_avoiding(path, h) matches Some(e) ==> path.contains(e),
    decreases path.len(),
{
    if path.len() > 0 {
        lemma_first_edge_avoiding_in(path.drop_first(), h);
        if path[0].vertex_hash == h {
            if let Some(e) = first_edge_avoiding(path.drop_first(), h) {
                let k = choose|k: int| 0 <= k < path.drop_first().len() && path.drop_first()[k] == e;
                assert(path[k + 1] == e);
            }
        } else {
            assert(path[0] == path[0]);
            assert(path.contains(path[0]));
        }
    }
}

proof fn lemma_first_unused_range(paths: Seq<Seq<Edge>>, used: Seq<Seq<Edge>>)
    ensures
        first_unused(paths, used) matches Some(p) ==> 0 <= p < paths.len(),
    decreases paths.len(),
{
    if paths.len() > 0 {
        lemma_first_unused_range(paths.drop_first(), used);
    }
}

proof fn lemma_pick_edge_in(path: Seq<Edge>, next: Edge, rotation: Option<bool>)
    ensures
        pick_edge(path, next, rotation).0 == next || path.contains(pick_edge(path, next, rotation).0),
    decreases path.len(),
{
    if path.len() > 0 {
        lemma_pick_edge_in(path.drop_last(), next, rotation);
        let (n, r) = pick_edge(path.drop_last(), next, rotation);
        if n != next {
            let k = choose|k: int| 0 <= k < path.drop_last().len() && path.drop_last()[k] == n;
            assert(path[k] == n);
        }
        assert(path[path.len() - 1] == path.last());
    }
}

proof fn lemma_trace_points(m: Seq<(usize, VertexModel)>, positions: Seq<[u32; 3]>, n: int, st: TraceState)
    requires
        map_wf(m),
        map_points_from(m, positions),
        n <= m.len(),
        points_from(st.out, positions),
    ensures
        trace_map(m, n, st) matches Ok(st2) ==> points_from(st2.out, positions),
        trace_map(m, n, st) matches Err(part) ==> points_from(part, positions),
    decreases n,
{
    if n > 0 {
        lemma_trace_points(m, positions, n - 1, st);
        match trace_map(m, n - 1, st) {
            Err(_) => {},
            Ok(st1) => {
                let v = m[n - 1].1;
                let hash = m[n - 1].0;
                assert(mesh_point(v.position, positions));
                if v.paths.len() > 0 {
                    match first_unused(v.paths, st1.used) {
                        None => {},
                        Some(p) => {
                            lemma_first_unused_range(v.paths, st1.used);
                            let (next, rot) = pick_edge(v.paths[p], v.paths[0][0], st1.rotation);
                            lemma_pick_edge_in(v.paths[p], v.paths[0][0], st1.rotation);
                            assert(paths_ok(m, v.paths));
                            assert(path_ok(m, v.paths[0]));
                            assert(path_ok(m, v.paths[p]));
                            assert(has_key(m, v.paths[0][0].vertex_hash));
                            if next != v.paths[0][0] {
                                let t = choose|t: int| 0 <= t < v.paths[p].len() && v.paths[p][t] == next;
                                assert(has_key(m, v.paths[p][t].vertex_hash));
                            }
                            lemma_walk_points(m, positions, hash, hash, next, walk_fuel(m.len()));
                            let mv = PathCmd::MoveTo(v.position);
                            match walk(m, hash, hash, next, walk_fuel(m.len())) {
                                Walk::Closed(ls, us) => {
                                    let c = st1.out + (seq![mv] + ls).push(PathCmd::ClosePath);
                                    assert forall|j: int| 0 <= j < c.len() implies match #[trigger] c[j] {
                                        PathCmd::MoveTo(q) => mesh_point(q, positions),
                                        PathCmd::LineTo(q) => mesh_point(q, positions),
                                        PathCmd::ClosePath => true,
                                    } by {
                                        let k = st1.out.len() as int;
                                        if j < k {
                                            assert(c[j] == st1.out[j]);
                                        } else if j == k {
                                            assert(c[j] == mv);
                                        } else if j <= k + ls.len() {
                                            assert(c[j] == ls[j - k - 1]);
                                        } else {
                                            assert(c[j] == PathCmd::ClosePath);
                                        }
                                    }
                                },
                                Walk::Broken(ls) => {
                                    let c = seq![mv] + ls;
                                    assert forall|j: int| 0 <= j < c.len() implies match #[trigger] c[j] {
                                        PathCmd::MoveTo(q) => mesh_point(q, positions),
                                        PathCmd::LineTo(q) => mesh_point(q, positions),
                                        PathCmd::ClosePath => true,
                                    } by {
                                        if j > 0 {
                                            assert(c[j] == ls[j - 1]);
                                        }
                                    }
                                },
                            }
                        },
                    }
                }
            },
        }
    }
}

proof fn lemma_run_batches_points(faces: Seq<Face>, positions: Seq<[u32; 3]>, rotation: Option<bool>, out: Seq<PathCmd>)
    requires
        faces_in_range(faces, positions.len() as int),
        points_from(out, positions),
    ensures
        match run_batches(faces, positions, rotation, out) {
            Ok(c) => points_from(c, positions),
            Err(part) => points_from(part, positions),
        },
    decreases faces.len(),
{
    let (m, sk) = build_map(faces, positions);
    lemma_build_map(faces, positions);
    lemma_build_map_points(faces, positions);
    let st0 = TraceState { used: Seq::empty(), rotation, out };
    lemma_trace_points(m, positions, m.len() as int, st0);
    match trace_map(m, m.len() as int, st0) {
        Err(_) => {},
        Ok(st) => {
            if sk.len() > 0 && sk.len() < faces.len() {
                lemma_run_batches_points(sk, positions, st.rotation, st.out);
            }
        },
    }
}

/// An outline only goes through the mesh's own vertices: every point it moves or
/// draws a line to is the drawing-plane point of one of the given positions, whether
/// the outline closed or got stuck.
pub proof fn lemma_outline_points(faces: Seq<Face>, positions: Seq<[u32; 3]>)
    requires
        faces_in_range(faces, positions.len() as int),
    ensures
        match outline_of(faces, positions) {
            Ok(c) => points_from(c, positions),
            Err(part) => points_from(part, positions),
        },
{
    lemma_run_batches_points(faces, positions, None, Seq::empty());
}

/// What one step of a walk does: it gets stuck, closes, or goes on from a new pair of
/// the vertex it left and the edge it takes.
pub enum Step {
    Stuck,
    Close,
    Go(usize, Edge),
}

/// One step of a walk (see `walk`).
pub open spec fn step_of(m: Seq<(usize, VertexModel)>, start: usize, curr: usize, next: Edge) -> Step {
    let nv = lookup(m, next.vertex_hash).unwrap();
    match first_path_reaching(nv.paths, curr) {
        Some(p) => match first_edge_avoiding(nv.paths[p], curr) {
            None => Step::Stuck,
            Some(e) => if e.vertex_hash == start {
                Step::Close
            } else {
                Step::Go(next.vertex_hash, e)
            },
        },
        None => if next.vertex_hash == start {
            Step::Close
        } else {
            Step::Stuck
        },
    }
}

/// The walk ends (closes or gets stuck) after exactly `k` steps that go on.
pub open spec fn ends_after(m: Seq<(usize, VertexModel)>, start: usize, curr: usize, next: Edge, k: nat) -> bool
    decreases k,
{
    match step_of(m, start, curr, next) {
        Step::Go(c2, e2) => k > 0 && ends_after(m, start, c2, e2, (k - 1) as nat),
        _ => k == 0,
    }
}

/// Where the walk stands after `i` steps that go on.
pub open spec fn state_after(m: Seq<(usize, VertexModel)>, start: usize, curr: usize, next: Edge, i: nat) -> (usize, Edge)
    decreases i,
{
    if i == 0 {
        (curr, next)
    } else {
        match step_of(m, start, curr, next) {
            Step::Go(c2, e2) => state_after(m, start, c2, e2, (i - 1) as nat),
            _ => (curr, next),
        }
    }
}

/// A walk that ends after `k` steps gives the same result with any fuel beyond `k`.
proof fn lemma_walk_fuel_beyond(m: Seq<(usize, VertexModel)>, start: usize, curr: usize, next: Edge, k: nat, f: nat)
    requires
        ends_after(m, start, curr, next, k),
        f > k,
    ensures
        walk(m, start, curr, next, f) == walk(m, start, curr, next, k + 1),
    decreases k,
{
    match step_of(m, start, curr, next) {
        Step::Go(c2, e2) => {
            lemma_walk_fuel_beyond(m, start, c2, e2, (k - 1) as nat, (f - 1) as nat);
            assert(c2 == next.vertex_hash);
        },
        _ => {},
    }
}

proof fn lemma_ends_after_unique(m: Seq<(usize, VertexModel)>, start: usize, curr: usize, next: Edge, k1: nat, k2: nat)
    requires
        ends_after(m, start, curr, next, k1),
        ends_after(m, start, curr, next, k2),
    ensures
        k1 == k2,
    decreases k1,
{
    match step_of(m, start, curr, next) {
        Step::Go(c2, e2) => {
            lemma_ends_after_unique(m, start, c2, e2, (k1 - 1) as nat, (k2 - 1) as nat);
        },
        _ => {},
    }
}

proof fn lemma_ends_after_suffix(m: Seq<(usize, VertexModel)>, start: usize, curr: usize, next: Edge, k: nat, i: nat)
    requires
        ends_after(m, start, curr, next, k),
        i <= k,
    ensures
        ends_after(
            m,
            start,
            state_after(m, start, curr, next, i).0,
            state_after(m, start, curr, next, i).1,
            (k - i) as nat,
        ),
    decreases i,
{
    if i > 0 {
        match step_of(m, start, curr, next) {
            Step::Go(c2, e2) => {
                lemma_ends_after_suffix(m, start, c2, e2, (k - 1) as nat, (i - 1) as nat);
            },
            _ => {},
        }
    }
}

/// The states of a walk that ends are all different: a repeated state would repeat
/// forever.
proof fn lemma_states_distinct(m: Seq<(usize, VertexModel)>, start: usize, curr: usize, next: Edge, k: nat, i: nat, j: nat)
    requires
        ends_after(m, start, curr, next, k),
        i < j <= k,
    ensures
        state_after(m, start, curr, next, i) != state_after(m, start, curr, next, j),
{
    lemma_ends_after_suffix(m, start, curr, next, k, i);
    lemma_ends_after_suffix(m, start, curr, next, k, j);
    if state_after(m, start, curr, next, i) == state_after(m, start, curr, next, j) {
        let s = state_after(m, start, curr, next, i);
        lemma_ends_after_unique(m, start, s.0, s.1, (k - i) as nat, (k - j) as nat);
    }
}

/// A walk only stands at vertices of the map, taking edges to vertices of the map.
proof fn lemma_states_valid(m: Seq<(usize, VertexModel)>, start: usize, curr: usize, next: Edge, i: nat)
    requires
        map_wf(m),
        has_key(m, curr),
        has_key(m, next.vertex_hash),
    ensures
        has_key(m, state_after(m, start, curr, next, i).0),
        has_key(m, state_after(m, start, curr, next, i).1.vertex_hash),
    decreases i,
{
    if i > 0 {
        match step_of(m, start, curr, next) {
            Step::Go(c2, e2) => {
                let nv = lookup(m, next.vertex_hash).unwrap();
                let p = first_path_reaching(nv.paths, curr).unwrap();
                lemma_first_path_reaching_range(nv.paths, curr);
                lemma_first_edge_avoiding_in(nv.paths[p], curr);
                let ki = crate::mapping::key_index(m, next.vertex_hash);
                assert(paths_ok(m, m[ki].1.paths));
                assert(path_ok(m, nv.paths[p]));
                let t = choose|t: int| 0 <= t < nv.paths[p].len() && nv.paths[p][t] == e2;
                assert(has_key(m, nv.paths[p][t].vertex_hash));
                lemma_states_valid(m, start, c2, e2, (i - 1) as nat);
            },
            _ => {},
        }
    }
}

/// A number for each state of a walk over `m`: distinct states of the map get
/// distinct numbers below `2 * n * n`.
pub open spec fn state_code(m: Seq<(usize, VertexModel)>, s: (usize, Edge)) -> int {
    crate::mapping::key_index(m, s.0) * (2 * m.len()) + 2 * crate::mapping::key_index(m, s.1.vertex_hash)
        + if s.1.rotation {
        1int
    } else {
        0int
    }
}

proof fn lemma_state_code(m: Seq<(usize, VertexModel)>, s: (usize, Edge), t: (usize, Edge))
    requires
        map_wf(m),
        has_key(m, s.0),
        has_key(m, s.1.vertex_hash),
        has_key(m, t.0),
        has_key(m, t.1.vertex_hash),
    ensures
        0 <= state_code(m, s) < 2 * m.len() * m.len(),
        state_code(m, s) == state_code(m, t) ==> s == t,
{
    let n = m.len() as int;
    let a = crate::mapping::key_index(m, s.0);
    let b = crate::mapping::key_index(m, s.1.vertex_hash);
    let c = crate::mapping::key_index(m, t.0);
    let d = crate::mapping::key_index(m, t.1.vertex_hash);
    let r: int = if s.1.rotation { 1 } else { 0 };
    let q: int = if t.1.rotation { 1 } else { 0 };
    assert(0 <= a < n && 0 <= b < n && 0 <= c < n && 0 <= d < n);
    assert(0 <= a * (2 * n) + 2 * b + r < 2 * n * n) by (nonlinear_arith)
        requires
            0 <= a < n,
            0 <= b < n,
            0 <= r <= 1,
    ;
    if state_code(m, s) == state_code(m, t) {
        assert(a == c && 2 * b + r == 2 * d + q) by (nonlinear_arith)
            requires
                0 <= a < n,
                0 <= c < n,
                0 <= 2 * b + r < 2 * n,
                0 <= 2 * d + q < 2 * n,
                a * (2 * n) + 2 * b + r == c * (2 * n) + 2 * d + q,
        ;
        assert(b == d && r == q);
        assert(m[a].0 == s.0 && m[c].0 == t.0);
        assert(m[b].0 == s.1.vertex_hash && m[d].0 == t.1.vertex_hash);
        assert(s.1.rotation == t.1.rotation);
        assert(s.1 == t.1);
    }
}

/// A walk that ends takes fewer steps than there are states of the map.
proof fn lemma_ends_within_states(m: Seq<(usize, VertexModel)>, start: usize, curr: usize, next: Edge, k: nat)
    requires
        map_wf(m),
        has_key(m, curr),
        has_key(m, next.vertex_hash),
        ends_after(m, start, curr, next, k),
    ensures
        k + 1 <= 2 * m.len() * m.len(),
{
    let codes = Seq::new(k + 1, |i: int| state_code(m, state_after(m, start, curr, next, i as nat)));
    assert forall|i: int| 0 <= i < codes.len() implies 0 <= #[trigger] codes[i] < 2 * m.len() * m.len() by {
        lemma_states_valid(m, start, curr, next, i as nat);
        let s = state_after(m, start, curr, next, i as nat);
        lemma_state_code(m, s, s);
    }
    assert(codes.no_duplicates()) by {
        assert forall|i: int, j: int| 0 <= i < codes.len() && 0 <= j < codes.len() && i != j implies codes[i] != codes[j] by {
            let (lo, hi) = if i < j { (i, j) } else { (j, i) };
            lemma_states_distinct(m, start, curr, next, k, lo as nat, hi as nat);
            lemma_states_valid(m, start, curr, next, i as nat);
            lemma_states_valid(m, start, curr, next, j as nat);
            lemma_state_code(
                m,
                state_after(m, start, curr, next, i as nat),
                state_after(m, start, curr, next, j as nat),
            );
        }
    }
    codes.unique_seq_to_set();
    let bound: int = (2 * m.len() * m.len()) as int;
    vstd::set_lib::lemma_int_range(0, bound);
    assert(codes.to_set().subset_of(vstd::set_lib::set_int_range(0, bound))) by {
        assert forall|x: int| codes.to_set().contains(x) implies vstd::set_lib::set_int_range(0, bound).contains(x) by {
            let i = choose|i: int| 0 <= i < codes.len() && codes[i] == x;
            assert(0 <= codes[i] < bound);
        }
    }
    vstd::set_lib::lemma_len_subset(codes.to_set(), vstd::set_lib::set_int_range(0, bound));
}

/// A walk that closes, or gets stuck before its fuel runs out, has ended after fewer
/// steps than its fuel.
proof fn lemma_walk_ends(m: Seq<(usize, VertexModel)>, start: usize, curr: usize, next: Edge, f: nat)
    requires
        walk(m, start, curr, next, f) is Closed || (walk(m, start, curr, next, f) matches Walk::Broken(ls)
            && ls.len() < f),
    ensures
        exists|k: nat| k < f && ends_after(m, start, curr, next, k),
    decreases f,
{
    if f > 0 {
        match step_of(m, start, curr, next) {
            Step::Go(c2, e2) => {
                assert(c2 == next.vertex_hash);
                let rest = walk(m, start, c2, e2, (f - 1) as nat);
                match rest {
                    Walk::Closed(_, _) => {},
                    Walk::Broken(ls) => {
                        assert(walk(m, start, curr, next, f) is Broken);
                        let nv = lookup(m, next.vertex_hash).unwrap();
                        let line = PathCmd::LineTo(nv.position);
                        assert(walk(m, start, curr, next, f) == Walk::Broken(seq![line] + ls));
                    },
                }
                lemma_walk_ends(m, start, c2, e2, (f - 1) as nat);
                let k = choose|k: nat| k < f - 1 && ends_after(m, start, c2, e2, k);
                assert(ends_after(m, start, curr, next, k + 1));
            },
            _ => {
                assert(ends_after(m, start, curr, next, 0));
            },
        }
    }
}

/// Bounding a walk changes no result that an unbounded walk reaches: whenever a walk
/// with some fuel closes, or gets stuck before its fuel runs out, the walk bounded by
/// `walk_fuel` (one more than the number of states a walk over the map can be in)
/// gives the same result. Where the bound cuts a walk short, the walk was going round
/// a cycle that never returns to its start.
pub proof fn lemma_walk_bound_suffices(m: Seq<(usize, VertexModel)>, start: usize, curr: usize, next: Edge, f: nat)
    requires
        map_wf(m),
        m.len() < 0x8000_0000,
        has_key(m, curr),
        has_key(m, next.vertex_hash),
        walk(m, start, curr, next, f) is Closed || (walk(m, start, curr, next, f) matches Walk::Broken(ls)
            && ls.len() < f),
    ensures
        walk(m, start, curr, next, walk_fuel(m.len())) == walk(m, start, curr, next, f),
{
    lemma_walk_ends(m, start, curr, next, f);
    let k = choose|k: nat| k < f && ends_after(m, start, curr, next, k);
    lemma_ends_within_states(m, start, curr, next, k);
    lemma_walk_fuel_beyond(m, start, curr, next, k, f);
    lemma_walk_fuel_beyond(m, start, curr, next, k, walk_fuel(m.len()));
}

/// Where no outline of `paths` is left unwalked, every one of them has been walked.
proof fn lemma_first_unused_none(paths: Seq<Seq<Edge>>, used: Seq<Seq<Edge>>)
    ensures
        first_unused(paths, used) is None ==> forall|p: int|
            0 <= p < paths.len() ==> used_contains(used, #[trigger] paths[p]),
    decreases paths.len(),
{
    if paths.len() > 0 {
        lemma_first_unused_none(paths.drop_first(), used);
        if first_unused(paths, used) is None {
            assert forall|p: int| 0 <= p < paths.len() implies used_contains(used, #[trigger] paths[p]) by {
                if p > 0 {
                    assert(paths[p] == paths.drop_first()[p - 1]);
                }
            }
        }
    }
}

/// What a traced vertex keeps of the state: the walked outlines and the drawing so far.
pub open spec fn trace_extends(st: TraceState, st2: TraceState) -> bool {
    &&& forall|q: Seq<Edge>| used_contains(st.used, q) ==> #[trigger] used_contains(st2.used, q)
    &&& st.out.len() <= st2.out.len()
    &&& st2.out.subrange(0, st.out.len() as int) == st.out
}

proof fn lemma_trace_vertex_covers(m: Seq<(usize, VertexModel)>, hash: usize, v: VertexModel, st: TraceState)
    ensures
        trace_vertex(m, hash, v, st) matches Ok(st2) ==> {
            &&& trace_extends(st, st2)
            &&& v.paths.len() > 0 ==> exists|p: int|
                0 <= p < v.paths.len() && used_contains(st2.used, #[trigger] v.paths[p])
        },
{
    lemma_first_unused_range(v.paths, st.used);
    lemma_first_unused_none(v.paths, st.used);
    if let Ok(st2) = trace_vertex(m, hash, v, st) {
        if v.paths.len() > 0 {
            if let Some(p) = first_unused(v.paths, st.used) {
                let (next, rot) = pick_edge(v.paths[p], v.paths[0][0], st.rotation);
                let mv = PathCmd::MoveTo(v.position);
                if let Walk::Closed(ls, us) = walk(m, hash, hash, next, walk_fuel(m.len())) {
                    let base = st.used.push(v.paths[p]);
                    assert(st2.used == base + us);
                    assert forall|q: Seq<Edge>| used_contains(st.used, q) implies #[trigger] used_contains(st2.used, q) by {
                        let i = choose|i: int| 0 <= i < st.used.len() && #[trigger] st.used[i].to_set() == q.to_set();
                        assert(st2.used[i] == st.used[i]);
                    }
                    assert(st2.used[st.used.len() as int] == v.paths[p]);
                    assert(st2.used[st.used.len() as int].to_set() == v.paths[p].to_set());
                    assert(used_contains(st2.used, v.paths[p]));
                    assert(st2.out.subrange(0, st.out.len() as int) =~= st.out);
                } else {
                    assert(false);
                }
            } else {
                assert(st2 == st);
                assert(used_contains(st2.used, v.paths[0]));
            }
        }
        if v.paths.len() == 0 || first_unused(v.paths, st.used) is None {
            assert(st2 == st);
            assert(st2.out.subrange(0, st.out.len() as int) =~= st.out);
        }
    }
}

/// A successful trace over the first `n` vertices of the map walks at least one
/// outline of each of them that has any, so that no separate outline of the batch is
/// left undrawn; it keeps what was walked and drawn before.
pub proof fn lemma_trace_covers_vertices(m: Seq<(usize, VertexModel)>, n: int, st: TraceState)
    requires
        0 <= n <= m.len(),
    ensures
        trace_map(m, n, st) matches Ok(st2) ==> {
            &&& trace_extends(st, st2)
            &&& forall|i: int|
                0 <= i < n && (#[trigger] m[i]).1.paths.len() > 0 ==> exists|p: int|
                    0 <= p < m[i].1.paths.len() && used_contains(st2.used, #[trigger] m[i].1.paths[p])
        },
    decreases n,
{
    if n > 0 {
        lemma_trace_covers_vertices(m, n - 1, st);
        if let Ok(st1) = trace_map(m, n - 1, st) {
            lemma_trace_vertex_covers(m, m[n - 1].0, m[n - 1].1, st1);
            if let Ok(st2) = trace_map(m, n, st) {
                assert(trace_vertex(m, m[n - 1].0, m[n - 1].1, st1) == Ok::<TraceState, Seq<PathCmd>>(st2));
                assert(st2.out.subrange(0, st.out.len() as int) =~= st2.out.subrange(0, st1.out.len() as int).subrange(0, st.out.len() as int));
                assert forall|i: int|
                    0 <= i < n && (#[trigger] m[i]).1.paths.len() > 0 implies exists|p: int|
                        0 <= p < m[i].1.paths.len() && used_contains(st2.used, #[trigger] m[i].1.paths[p]) by {
                    if i < n - 1 {
                        let p = choose|p: int|
                            0 <= p < m[i].1.paths.len() && used_contains(st1.used, #[trigger] m[i].1.paths[p]);
                        assert(used_contains(st2.used, m[i].1.paths[p]));
                    } else {
                        assert(m[i] == m[n - 1]);
                    }
                }
                assert forall|q: Seq<Edge>| used_contains(st.used, q) implies #[trigger] used_contains(st2.used, q) by {
                    assert(used_contains(st1.used, q));
                }
                assert(trace_extends(st, st2));
            }
        }
    } else {
        if let Ok(st2) = trace_map(m, n, st) {
            assert(st2.out.subrange(0, st.out.len() as int) =~= st.out);
        }
    }
}

proof fn lemma_first_unused_some(paths: Seq<Seq<Edge>>, used: Seq<Seq<Edge>>)
    ensures
        first_unused(paths, used) matches Some(p) ==> !used_contains(used, paths[p]),
    decreases paths.len(),
{
    if paths.len() > 0 {
        lemma_first_unused_some(paths.drop_first(), used);
        lemma_first_unused_range(paths, used);
        lemma_first_unused_range(paths.drop_first(), used);
        if let Some(p) = first_unused(paths, used) {
            if p > 0 {
                assert(first_unused(paths.drop_first(), used) == Some(p - 1));
                assert(paths[p] == paths.drop_first()[p - 1]);
            }
        }
    }
}

/// Tracing a vertex that has an outline not walked yet draws one closed sub-path from
/// that vertex: `MoveTo` its position, lines only, then `ClosePath`, after what was
/// drawn before. A vertex whose outlines have all been walked changes nothing.
pub proof fn lemma_trace_vertex_draws(m: Seq<(usize, VertexModel)>, hash: usize, v: VertexModel, st: TraceState)
    ensures
        trace_vertex(m, hash, v, st) matches Ok(st2) ==> if exists|p: int|
            0 <= p < v.paths.len() && !used_contains(st.used, #[trigger] v.paths[p]) {
            &&& st2.out.len() >= st.out.len() + 3
            &&& st2.out.subrange(0, st.out.len() as int) == st.out
            &&& st2.out[st.out.len() as int] == PathCmd::MoveTo(v.position)
            &&& st2.out.last() is ClosePath
            &&& forall|i: int| st.out.len() < i < st2.out.len() - 1 ==> #[trigger] st2.out[i] is LineTo
        } else {
            st2 == st
        },
{
    lemma_first_unused_range(v.paths, st.used);
    lemma_first_unused_none(v.paths, st.used);
    lemma_first_unused_some(v.paths, st.used);
    if let Ok(st2) = trace_vertex(m, hash, v, st) {
        if let Some(p) = first_unused(v.paths, st.used) {
            if v.paths.len() > 0 {
                let (next, rot) = pick_edge(v.paths[p], v.paths[0][0], st.rotation);
                let mv = PathCmd::MoveTo(v.position);
                lemma_walk_lines(m, hash, hash, next, walk_fuel(m.len()));
                if let Walk::Closed(ls, us) = walk(m, hash, hash, next, walk_fuel(m.len())) {
                    let piece = (seq![mv] + ls).push(PathCmd::ClosePath);
                    assert(st2.out == st.out + piece);
                    assert(st2.out.subrange(0, st.out.len() as int) =~= st.out);
                    assert(st2.out[st.out.len() as int] == piece[0]);
                    assert forall|i: int| st.out.len() < i < st2.out.len() - 1 implies #[trigger] st2.out[i] is LineTo by {
                        assert(st2.out[i] == piece[i - st.out.len()]);
                        assert(piece[i - st.out.len()] == ls[i - st.out.len() - 1]);
                    }
                } else {
                    assert(false);
                }
            }
        } else if v.paths.len() > 0 {
            assert(!exists|p: int| 0 <= p < v.paths.len() && !used_contains(st.used, #[trigger] v.paths[p]));
        }
    }
}

} // verus!

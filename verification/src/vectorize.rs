use vstd::prelude::*;

use crate::mapping::{
    face_in_range, has_key, lemma_insert_entry, lemma_process_face_empty, lemma_process_face_wf,
    lookup, map_wf, path_ok, path_seqs, paths_ok, process_face, process_face_spec, Face,
    ProcessResult, VertexMap, VertexModel,
};
use crate::path::{reaches, Edge, Path};
use crate::outline::{
    closed_form, lemma_outline_closed, lemma_outline_points, points_from,
};
use crate::shape::{MeshShape, PathCmd, Shape};

verus! {

/// The index of the first outline that reaches the vertex `h`.
pub open spec fn first_path_reaching(paths: Seq<Seq<Edge>>, h: usize) -> Option<int>
    decreases paths.len(),
{
    if paths.len() == 0 {
        None
    } else if reaches(paths[0], h) {
        Some(0)
    } else {
        match first_path_reaching(paths.drop_first(), h) {
            Some(i) => Some(i + 1),
            None => None,
        }
    }
}

/// The first edge of `path` that leads to a vertex other than `h`.
pub open spec fn first_edge_avoiding(path: Seq<Edge>, h: usize) -> Option<Edge>
    decreases path.len(),
{
    if path.len() == 0 {
        None
    } else if path[0].vertex_hash != h {
        Some(path[0])
    } else {
        first_edge_avoiding(path.drop_first(), h)
    }
}

/// How a walk around an outline ends: back at its start, with the lines drawn and the
/// outlines it went through; or stuck, with the lines drawn before it stopped.
pub enum Walk {
    Closed(Seq<PathCmd>, Seq<Seq<Edge>>),
    Broken(Seq<PathCmd>),
}

/// `w` with `lines` and `used` in front.
pub open spec fn prepend(lines: Seq<PathCmd>, used: Seq<Seq<Edge>>, w: Walk) -> Walk {
    match w {
        Walk::Closed(ls, us) => Walk::Closed(lines + ls, used + us),
        Walk::Broken(ls) => Walk::Broken(lines + ls),
    }
}

/// Walks from `curr` to the vertex that `next` leads to, draws a line to it and goes
/// on through the first outline there that reaches `curr`, leaving it by its first
/// edge to another vertex; the walk is closed when it gets back to `start`.
///
/// `fuel` bounds the number of steps: a walk is determined by where it comes from
/// and the edge it takes, so one that has not closed after more steps than there
/// are such pairs never closes.
pub open spec fn walk(m: Seq<(usize, VertexModel)>, start: usize, curr: usize, next: Edge, fuel: nat) -> Walk
    decreases fuel,
{
    if fuel == 0 {
        Walk::Broken(Seq::empty())
    } else {
        let nv = lookup(m, next.vertex_hash).unwrap();
        let line = PathCmd::LineTo(nv.position);
        match first_path_reaching(nv.paths, curr) {
            Some(p) => match first_edge_avoiding(nv.paths[p], curr) {
                None => Walk::Broken(seq![line]),
                Some(e) => if e.vertex_hash == start {
                    Walk::Closed(seq![line], seq![nv.paths[p]])
                } else {
                    prepend(
                        seq![line],
                        seq![nv.paths[p]],
                        walk(m, start, next.vertex_hash, e, (fuel - 1) as nat),
                    )
                },
            },
            None => if next.vertex_hash == start {
                Walk::Closed(seq![line], Seq::empty())
            } else {
                Walk::Broken(seq![line])
            },
        }
    }
}

/// An upper bound on the number of (vertex, edge) pairs a walk can be in over a map
/// of `n` vertices, plus one.
pub open spec fn walk_fuel(n: nat) -> nat {
    if n < 0x8000_0000 {
        2 * n * n + 1
    } else {
        0xFFFF_FFFF_FFFF_FFFF
    }
}

/// The outlines walked so far, the side chosen for the whole mesh, and what has been
/// drawn.
pub struct TraceState {
    pub used: Seq<Seq<Edge>>,
    pub rotation: Option<bool>,
    pub out: Seq<PathCmd>,
}

/// Some outline walked so far has the same edges as `p`.
pub open spec fn used_contains(used: Seq<Seq<Edge>>, p: Seq<Edge>) -> bool {
    exists|i: int| 0 <= i < used.len() && #[trigger] used[i].to_set() == p.to_set()
}

/// The index of the first outline not walked yet.
pub open spec fn first_unused(paths: Seq<Seq<Edge>>, used: Seq<Seq<Edge>>) -> Option<int>
    decreases paths.len(),
{
    if paths.len() == 0 {
        None
    } else if !used_contains(used, paths[0]) {
        Some(0)
    } else {
        match first_unused(paths.drop_first(), used) {
            Some(i) => Some(i + 1),
            None => None,
        }
    }
}

/// The edge a walk starts along: once a side has been chosen, the last edge of the
/// outline on that side (or `next` where there is none); otherwise `next`, whose side
/// becomes the chosen one.
pub open spec fn pick_edge(path: Seq<Edge>, next: Edge, rotation: Option<bool>) -> (Edge, Option<bool>)
    decreases path.len(),
{
    if path.len() == 0 {
        (next, rotation)
    } else {
        let (n, r) = pick_edge(path.drop_last(), next, rotation);
        match r {
            Some(rot) => (
                if path.last().rotation == rot {
                    path.last()
                } else {
                    n
                },
                r,
            ),
            None => (n, Some(n.rotation)),
        }
    }
}

/// Draws the outline that starts at the vertex `hash`, if it has one not walked yet:
/// `MoveTo` the vertex, a line per step of the walk, `ClosePath`. A walk that gets
/// stuck ends the whole outline with what it drew.
pub open spec fn trace_vertex(m: Seq<(usize, VertexModel)>, hash: usize, v: VertexModel, st: TraceState) -> Result<
    TraceState,
    Seq<PathCmd>,
> {
    if v.paths.len() == 0 {
        Ok(st)
    } else {
        match first_unused(v.paths, st.used) {
            None => Ok(st),
            Some(p) => {
                let (next, rot) = pick_edge(v.paths[p], v.paths[0][0], st.rotation);
                let mv = PathCmd::MoveTo(v.position);
                match walk(m, hash, hash, next, walk_fuel(m.len())) {
                    Walk::Closed(ls, us) => Ok(
                        TraceState {
                            used: st.used.push(v.paths[p]) + us,
                            rotation: rot,
                            out: st.out + (seq![mv] + ls).push(PathCmd::ClosePath),
                        },
                    ),
                    Walk::Broken(ls) => Err(seq![mv] + ls),
                }
            },
        }
    }
}

/// Traces the first `n` vertices of the map in order.
pub open spec fn trace_map(m: Seq<(usize, VertexModel)>, n: int, st: TraceState) -> Result<
    TraceState,
    Seq<PathCmd>,
>
    decreases n,
{
    if n <= 0 {
        Ok(st)
    } else {
        match trace_map(m, n - 1, st) {
            Err(p) => Err(p),
            Ok(st1) => trace_vertex(m, m[n - 1].0, m[n - 1].1, st1),
        }
    }
}

/// Processes the visible faces of a batch in order: the vertex map they build and the
/// faces that have to wait for the next batch.
pub open spec fn build_map(faces: Seq<Face>, positions: Seq<[u32; 3]>) -> (
    Seq<(usize, VertexModel)>,
    Seq<Face>,
)
    decreases faces.len(),
{
    if faces.len() == 0 {
        (Seq::empty(), Seq::empty())
    } else {
        let (m, sk) = build_map(faces.drop_last(), positions);
        let f = faces.last();
        if !f.visible {
            (m, sk)
        } else {
            let (ok, m2) = process_face_spec(f, positions, m);
            if ok {
                (m2, sk)
            } else {
                (m, sk.push(f))
            }
        }
    }
}

/// Outlines batch after batch until no face waits: `Ok` with every outline drawn, or
/// `Err` with the part of the outline that got stuck.
pub open spec fn run_batches(faces: Seq<Face>, positions: Seq<[u32; 3]>, rotation: Option<bool>, out: Seq<PathCmd>) -> Result<
    Seq<PathCmd>,
    Seq<PathCmd>,
>
    decreases faces.len(),
{
    let (m, sk) = build_map(faces, positions);
    match trace_map(m, m.len() as int, TraceState { used: Seq::empty(), rotation, out }) {
        Err(p) => Err(p),
        Ok(st) => if sk.len() == 0 {
            Ok(st.out)
        } else if sk.len() < faces.len() {
            run_batches(sk, positions, st.rotation, st.out)
        } else {
            Ok(st.out)
        },
    }
}

/// The outline of a mesh whose faces are given in drawing order.
pub open spec fn outline_of(faces: Seq<Face>, positions: Seq<[u32; 3]>) -> Result<
    Seq<PathCmd>,
    Seq<PathCmd>,
> {
    run_batches(faces, positions, None, Seq::empty())
}

/// Every face names positions that exist.
pub open spec fn faces_in_range(faces: Seq<Face>, n: int) -> bool {
    forall|i: int| 0 <= i < faces.len() ==> face_in_range(#[trigger] faces[i], n)
}

/// A batch builds a walkable map; the faces that wait are fewer than the batch.
pub proof fn lemma_build_map(faces: Seq<Face>, positions: Seq<[u32; 3]>)
    requires
        faces_in_range(faces, positions.len() as int),
    ensures
        map_wf(build_map(faces, positions).0),
        build_map(faces, positions).0.len() == 0 ==> build_map(faces, positions).1.len() == 0,
        build_map(faces, positions).0.len() > 0 ==> build_map(faces, positions).1.len() < faces.len(),
        faces_in_range(build_map(faces, positions).1, positions.len() as int),
    decreases faces.len(),
{
    if faces.len() == 0 {
        let m = Seq::<(usize, VertexModel)>::empty();
        assert(map_wf(m));
    } else {
        assert forall|i: int| 0 <= i < faces.drop_last().len() implies face_in_range(
            #[trigger] faces.drop_last()[i],
            positions.len() as int,
        ) by {
            assert(faces.drop_last()[i] == faces[i]);
        }
        lemma_build_map(faces.drop_last(), positions);
        let (m, sk) = build_map(faces.drop_last(), positions);
        let f = faces.last();
        assert(face_in_range(f, positions.len() as int)) by {
            assert(faces[faces.len() - 1] == f);
        }
        if f.visible {
            lemma_process_face_wf(f, positions, m);
            let (ok, m2) = process_face_spec(f, positions, m);
            if m.len() == 0 {
                assert(m == Seq::<(usize, VertexModel)>::empty());
                lemma_process_face_empty(f, positions);
            }
            if ok {
                lemma_process_face_nonempty(f, positions, m);
            } else {
                assert forall|i: int| 0 <= i < sk.push(f).len() implies face_in_range(
                    #[trigger] sk.push(f)[i],
                    positions.len() as int,
                ) by {
                    if i < sk.len() {
                        assert(sk.push(f)[i] == sk[i]);
                    }
                }
            }
        }
    }
}

proof fn lemma_process_face_nonempty(f: Face, positions: Seq<[u32; 3]>, m: Seq<(usize, VertexModel)>)
    requires
        process_face_spec(f, positions, m).0,
    ensures
        process_face_spec(f, positions, m).1.len() > 0,
{
    let r0 = crate::mapping::step_result(f, positions, m, 0).unwrap();
    let r1 = crate::mapping::step_result(f, positions, m, 1).unwrap();
    let r2 = crate::mapping::step_result(f, positions, m, 2).unwrap();
    let m1 = crate::mapping::insert_entry(m, r0.0, r0.1);
    let m2 = crate::mapping::insert_entry(m1, r1.0, r1.1);
    lemma_insert_entry(m2, r2.0, r2.1);
    assert(has_key(crate::mapping::insert_entry(m2, r2.0, r2.1), r2.0));
}

/// An index found in a suffix that starts at `i`, as an index of the whole.
pub open spec fn shift(o: Option<int>, i: int) -> Option<int> {
    match o {
        Some(j) => Some(j + i),
        None => None,
    }
}

/// The index of the first outline that reaches `h`.
fn find_path_reaching(paths: &Vec<Path>, h: usize) -> (r: Option<usize>)
    ensures
        r matches Some(i) ==> first_path_reaching(path_seqs(paths@), h) == Some(i as int) && i
            < paths@.len(),
        r is None ==> first_path_reaching(path_seqs(paths@), h) is None,
{
    let mut i: usize = 0;
    assert(path_seqs(paths@).skip(0) =~= path_seqs(paths@));
    while i < paths.len()
        invariant
            i <= paths.len(),
            first_path_reaching(path_seqs(paths@), h) == shift(
                first_path_reaching(path_seqs(paths@).skip(i as int), h),
                i as int,
            ),
        decreases paths.len() - i,
    {
        let ghost s = path_seqs(paths@).skip(i as int);
        assert(s[0] == paths@[i as int]@);
        if paths[i].contains(h) {
            assert(first_path_reaching(s, h) == Some(0int));
            return Some(i);
        }
        assert(s.drop_first() =~= path_seqs(paths@).skip(i as int + 1));
        i += 1;
    }
    assert(path_seqs(paths@).skip(i as int) =~= Seq::<Seq<Edge>>::empty());
    assert(first_path_reaching(path_seqs(paths@).skip(i as int), h) == None::<int>);
    None
}

/// The first edge of `path` that leads to a vertex other than `h`.
fn find_edge_avoiding(path: &Path, h: usize) -> (r: Option<Edge>)
    ensures
        r == first_edge_avoiding(path@, h),
        r matches Some(e) ==> path@.contains(e),
{
    let mut i: usize = 0;
    assert(path@.skip(0) =~= path@);
    while i < path.edges.len()
        invariant
            i <= path.edges.len(),
            first_edge_avoiding(path@, h) == first_edge_avoiding(path@.skip(i as int), h),
        decreases path.edges.len() - i,
    {
        let e = path.edges[i];
        assert(path@.skip(i as int)[0] == e);
        if e.vertex_hash != h {
            assert(path@.contains(path@[i as int]));
            return Some(e);
        }
        assert(path@.skip(i as int).drop_first() =~= path@.skip(i as int + 1));
        i += 1;
    }
    assert(path@.skip(i as int) =~= Seq::<Edge>::empty());
    None
}

/// Whether an outline with the same edges as `p` has been walked.
fn is_used(used: &Vec<Path>, p: &Path) -> (r: bool)
    ensures
        r == used_contains(path_seqs(used@), p@),
{
    let mut i: usize = 0;
    while i < used.len()
        invariant
            i <= used.len(),
            forall|k: int| 0 <= k < i ==> used@[k]@.to_set() != p@.to_set(),
        decreases used.len() - i,
    {
        if used[i].same_edges(p) {
            assert(path_seqs(used@)[i as int] == used@[i as int]@);
            return true;
        }
        i += 1;
    }
    proof {
        if used_contains(path_seqs(used@), p@) {
            let k = choose|k: int|
                0 <= k < path_seqs(used@).len() && #[trigger] path_seqs(used@)[k].to_set()
                    == p@.to_set();
            assert(path_seqs(used@)[k] == used@[k]@);
        }
    }
    false
}

/// The index of the first outline not walked yet.
fn find_unused(paths: &Vec<Path>, used: &Vec<Path>) -> (r: Option<usize>)
    ensures
        r matches Some(i) ==> first_unused(path_seqs(paths@), path_seqs(used@)) == Some(i as int)
            && i < paths@.len(),
        r is None ==> first_unused(path_seqs(paths@), path_seqs(used@)) is None,
{
    let ghost u = path_seqs(used@);
    let mut i: usize = 0;
    assert(path_seqs(paths@).skip(0) =~= path_seqs(paths@));
    while i < paths.len()
        invariant
            i <= paths.len(),
            u == path_seqs(used@),
            first_unused(path_seqs(paths@), u) == shift(
                first_unused(path_seqs(paths@).skip(i as int), u),
                i as int,
            ),
        decreases paths.len() - i,
    {
        let ghost s = path_seqs(paths@).skip(i as int);
        assert(s[0] == paths@[i as int]@);
        if !is_used(used, &paths[i]) {
            assert(first_unused(s, u) == Some(0int));
            return Some(i);
        }
        assert(s.drop_first() =~= path_seqs(paths@).skip(i as int + 1));
        i += 1;
    }
    assert(path_seqs(paths@).skip(i as int) =~= Seq::<Seq<Edge>>::empty());
    assert(first_unused(path_seqs(paths@).skip(i as int), u) == None::<int>);
    None
}

/// The edge a walk starts along, and the side chosen for the mesh (see `pick_edge`).
fn pick_start_edge(path: &Path, next: Edge, rotation: Option<bool>) -> (r: (Edge, Option<bool>))
    ensures
        r == pick_edge(path@, next, rotation),
        r.0 == next || path@.contains(r.0),
{
    let mut n = next;
    let mut rot = rotation;
    let mut i: usize = 0;
    assert(path@.take(0) =~= Seq::<Edge>::empty());
    while i < path.edges.len()
        invariant
            i <= path.edges.len(),
            (n, rot) == pick_edge(path@.take(i as int), next, rotation),
            n == next || path@.contains(n),
        decreases path.edges.len() - i,
    {
        let e = path.edges[i];
        assert(path@.take(i as int + 1).drop_last() =~= path@.take(i as int));
        assert(path@.take(i as int + 1).last() == e);
        match rot {
            Some(r) => {
                if e.rotation == r {
                    n = e;
                    assert(path@.contains(path@[i as int]));
                }
            },
            None => {
                rot = Some(n.rotation);
            },
        }
        i += 1;
    }
    assert(path@.take(path.edges.len() as int) =~= path@);
    (n, rot)
}

/// An upper bound on the steps of a walk over a map of `n` vertices (see `walk_fuel`).
fn walk_bound(n: usize) -> (f: u64)
    ensures
        f == walk_fuel(n as nat),
{
    if n < 0x8000_0000 {
        let k: u64 = n as u64;
        assert(k * k < 0x4000_0000_0000_0000) by (nonlinear_arith)
            requires
                k < 0x8000_0000,
        ;
        let kk: u64 = k * k;
        assert(2 * kk + 1 == 2 * (n as nat) * (n as nat) + 1) by (nonlinear_arith)
            requires
                kk == k * k,
                k == n,
        ;
        2 * kk + 1
    } else {
        0xFFFF_FFFF_FFFF_FFFF
    }
}

proof fn lemma_prepend_assoc(l1: Seq<PathCmd>, u1: Seq<Seq<Edge>>, l2: Seq<PathCmd>, u2: Seq<Seq<Edge>>, w: Walk)
    ensures
        prepend(l1, u1, prepend(l2, u2, w)) == prepend(l1 + l2, u1 + u2, w),
{
    match w {
        Walk::Closed(ls, us) => {
            assert(l1 + (l2 + ls) =~= (l1 + l2) + ls);
            assert(u1 + (u2 + us) =~= (u1 + u2) + us);
        },
        Walk::Broken(ls) => {
            assert(l1 + (l2 + ls) =~= (l1 + l2) + ls);
        },
    }
}

/// Walks the outline from `start` (see `walk`), appending the lines to `shape` and
/// the outlines walked through to `used`. Returns whether the walk closed.
fn walk_outline(
    mapping: &VertexMap,
    start: usize,
    curr: usize,
    next: Edge,
    fuel: u64,
    shape: &mut Vec<PathCmd>,
    used: &mut Vec<Path>,
) -> (closed: bool)
    requires
        map_wf(mapping@),
        has_key(mapping@, next.vertex_hash),
    ensures
        match walk(mapping@, start, curr, next, fuel as nat) {
            Walk::Closed(ls, us) => closed && final(shape)@ == old(shape)@ + ls && path_seqs(
                final(used)@,
            ) == path_seqs(old(used)@) + us,
            Walk::Broken(ls) => !closed && final(shape)@ == old(shape)@ + ls,
        },
{
    let ghost m = mapping@;
    let ghost w0 = walk(m, start, curr, next, fuel as nat);
    let ghost shape0 = shape@;
    let ghost used0 = path_seqs(used@);
    let mut cur = curr;
    let mut nxt = next;
    let mut left = fuel;
    assert(shape@ =~= shape0 + Seq::<PathCmd>::empty());
    assert(path_seqs(used@) =~= used0 + Seq::<Seq<Edge>>::empty());
    assert(prepend(Seq::empty(), Seq::empty(), w0) == w0) by {
        match w0 {
            Walk::Closed(ls, us) => {
                assert(Seq::<PathCmd>::empty() + ls =~= ls);
                assert(Seq::<Seq<Edge>>::empty() + us =~= us);
            },
            Walk::Broken(ls) => {
                assert(Seq::<PathCmd>::empty() + ls =~= ls);
            },
        }
    }
    loop
        invariant
            m == mapping@,
            w0 == walk(m, start, curr, next, fuel as nat),
            shape0 == old(shape)@,
            used0 == path_seqs(old(used)@),
            map_wf(m),
            has_key(m, nxt.vertex_hash),
            shape@.len() >= shape0.len(),
            shape@ == shape0 + shape@.skip(shape0.len() as int),
            path_seqs(used@).len() >= used0.len(),
            path_seqs(used@) == used0 + path_seqs(used@).skip(used0.len() as int),
            w0 == prepend(
                shape@.skip(shape0.len() as int),
                path_seqs(used@).skip(used0.len() as int),
                walk(m, start, cur, nxt, left as nat),
            ),
        decreases left,
    {
        let ghost lines = shape@.skip(shape0.len() as int);
        let ghost us = path_seqs(used@).skip(used0.len() as int);
        if left == 0 {
            proof {
                assert(walk(m, start, cur, nxt, 0) == Walk::Broken(Seq::<PathCmd>::empty()));
                assert(lines + Seq::<PathCmd>::empty() =~= lines);
                assert(shape@ =~= shape0 + lines);

            }
            return false;
        }
        let nv = match mapping.get(nxt.vertex_hash) {
            Some(v) => v,
            None => {
                return false;
            },
        };
        let ghost nvm = lookup(m, nxt.vertex_hash).unwrap();
        assert(nv@ == nvm);
        let line = PathCmd::LineTo(nv.position);
        let ghost before_line = shape@;
        shape.push(line);
        assert(shape@ =~= shape0 + (lines + seq![line])) by {
            assert(before_line =~= shape0 + lines);
        }
        assert(shape@.skip(shape0.len() as int) =~= lines + seq![line]);
        match find_path_reaching(&nv.paths, cur) {
            Some(p) => {
                match find_edge_avoiding(&nv.paths[p], cur) {
                    None => {
                        proof {
                            assert(path_seqs(nv.paths@)[p as int] == nv.paths@[p as int]@);
                            assert(walk(m, start, cur, nxt, left as nat) == Walk::Broken(seq![line]));
                            assert(w0 == Walk::Broken(lines + seq![line]));
                        }
                        return false;
                    },
                    Some(e) => {
                        proof {
                            assert(path_seqs(nv.paths@)[p as int] == nv.paths@[p as int]@);
                            let i = crate::mapping::key_index(m, nxt.vertex_hash);
                            assert(paths_ok(m, m[i].1.paths));
                            assert(path_ok(m, nvm.paths[p as int]));
                            let t = choose|t: int| 0 <= t < nvm.paths[p as int].len() && nvm.paths[p as int][t] == e;
                            assert(has_key(m, nvm.paths[p as int][t].vertex_hash));
                        }
                        let ghost before_used = path_seqs(used@);
                        used.push(nv.paths[p].duplicate());
                        assert(path_seqs(used@) =~= before_used.push(nvm.paths[p as int]));
                        assert(path_seqs(used@) =~= used0 + (us + seq![nvm.paths[p as int]])) by {
                            assert(before_used =~= used0 + us);
                        }
                        assert(path_seqs(used@).skip(used0.len() as int) =~= us + seq![nvm.paths[p as int]]);
                        let hop = nxt.vertex_hash;
                        let ghost old_next = nxt;
                        let ghost old_curr = cur;
                        let ghost old_fuel = left;
                        cur = hop;
                        nxt = e;
                        if nxt.vertex_hash == start {
                            proof {
                                assert(walk(m, start, old_curr, old_next, old_fuel as nat) == Walk::Closed(
                                    seq![line],
                                    seq![nvm.paths[p as int]],
                                ));
                                assert(shape@ =~= shape0 + (lines + seq![line]));
                                assert(w0 == Walk::Closed(lines + seq![line], us + seq![nvm.paths[p as int]]));
                            }
                            return true;
                        }
                        proof {
                            assert(walk(m, start, old_curr, old_next, old_fuel as nat) == prepend(
                                seq![line],
                                seq![nvm.paths[p as int]],
                                walk(m, start, cur, nxt, (old_fuel - 1) as nat),
                            ));
                            lemma_prepend_assoc(
                                lines,
                                us,
                                seq![line],
                                seq![nvm.paths[p as int]],
                                walk(m, start, cur, nxt, (old_fuel - 1) as nat),
                            );
                        }
                    },
                }
            },
            None => {
                if nxt.vertex_hash == start {
                    proof {
                        assert(walk(m, start, cur, nxt, left as nat) == Walk::Closed(
                            seq![line],
                            Seq::<Seq<Edge>>::empty(),
                        ));
                        assert(us + Seq::<Seq<Edge>>::empty() =~= us);
                        assert(path_seqs(used@) =~= used0 + us);
                        assert(w0 == Walk::Closed(lines + seq![line], us + Seq::<Seq<Edge>>::empty()));
                    }
                    return true;
                }
                proof {
                    assert(walk(m, start, cur, nxt, left as nat) == Walk::Broken(seq![line]));
                    assert(w0 == Walk::Broken(lines + seq![line]));
                }
                return false;
            },
        }
        left = left - 1;
    }
}

/// Traces every vertex of the map in order (see `trace_map`), appending the drawn
/// outlines to `out`. `Err` carries the part of the outline where a walk got stuck.
fn trace_all(mapping: &VertexMap, rotation: &mut Option<bool>, out: &mut Vec<PathCmd>) -> (r: Result<(), Vec<PathCmd>>)
    requires
        map_wf(mapping@),
    ensures
        match trace_map(
            mapping@,
            mapping@.len() as int,
            TraceState { used: Seq::empty(), rotation: *old(rotation), out: old(out)@ },
        ) {
            Ok(st) => r is Ok && *final(rotation) == st.rotation && final(out)@ == st.out,
            Err(p) => r matches Err(v) && v@ == p,
        },
{
    let ghost m = mapping@;
    let ghost st0 = TraceState { used: Seq::empty(), rotation: *rotation, out: out@ };
    let fuel = walk_bound(mapping.entries.len());
    let mut used: Vec<Path> = Vec::new();
    let mut i: usize = 0;
    assert(path_seqs(used@) =~= Seq::<Seq<Edge>>::empty());
    while i < mapping.entries.len()
        invariant
            m == mapping@,
            st0 == (TraceState { used: Seq::empty(), rotation: *old(rotation), out: old(out)@ }),
            map_wf(m),
            i <= m.len(),
            fuel == walk_fuel(m.len()),
            trace_map(m, i as int, st0) == Ok::<TraceState, Seq<PathCmd>>(
                TraceState { used: path_seqs(used@), rotation: *rotation, out: out@ },
            ),
        decreases m.len() - i,
    {
        let hash = mapping.entries[i].0;
        let vertex = &mapping.entries[i].1;
        let ghost st = TraceState { used: path_seqs(used@), rotation: *rotation, out: out@ };
        let ghost v = m[i as int].1;
        assert(m[i as int].0 == hash);
        assert(v == vertex@);
        assert(paths_ok(m, v.paths));
        if vertex.paths.len() == 0 {
            i += 1;
            continue;
        }
        assert(path_ok(m, v.paths[0]));
        assert(v.paths[0] == vertex.paths@[0]@);
        let next0 = vertex.paths[0].edges[0];
        assert(has_key(m, v.paths[0][0].vertex_hash));
        match find_unused(&vertex.paths, &used) {
            None => {
                i += 1;
            },
            Some(p) => {
                assert(v.paths[p as int] == vertex.paths@[p as int]@);
                assert(path_ok(m, v.paths[p as int]));
                let (next, rot) = pick_start_edge(&vertex.paths[p], next0, *rotation);
                proof {
                    if next != next0 {
                        let t = choose|t: int| 0 <= t < v.paths[p as int].len() && v.paths[p as int][t] == next;
                        assert(has_key(m, v.paths[p as int][t].vertex_hash));
                    }
                }
                let ghost before_used = path_seqs(used@);
                used.push(vertex.paths[p].duplicate());
                assert(path_seqs(used@) =~= before_used.push(v.paths[p as int]));
                let mut shape: Vec<PathCmd> = Vec::new();
                shape.push(PathCmd::MoveTo(vertex.position));
                let ghost shape_start = shape@;
                assert(shape_start =~= seq![PathCmd::MoveTo(v.position)]);
                let closed = walk_outline(mapping, hash, hash, next, fuel, &mut shape, &mut used);
                if !closed {
                    proof {
                        assert(v.paths.len() > 0);
                        assert(first_unused(v.paths, st.used) == Some(p as int));
                        assert(v.paths[0][0] == next0);
                        assert(pick_edge(v.paths[p as int], v.paths[0][0], st.rotation) == (next, rot));
                        assert(walk(m, hash, hash, next, walk_fuel(m.len())) is Broken);
                        assert(trace_vertex(m, hash, v, st) == Err::<TraceState, Seq<PathCmd>>(shape@));
                        assert(trace_map(m, i as int + 1, st0) == trace_vertex(m, hash, v, st));
                        lemma_trace_err_extends(m, i as int + 1, m.len() as int, st0);
                    }
                    return Err(shape);
                }
                shape.push(PathCmd::ClosePath);
                let ghost before_out = out@;
                out.append(&mut shape);
                *rotation = rot;
                proof {
                    assert(st.used.push(v.paths[p as int]) == before_used.push(v.paths[p as int]));
                }
                i += 1;
            },
        }
    }
    Ok(())
}

/// Once tracing has got stuck on a prefix of the map, it stays stuck with the same
/// part.
proof fn lemma_trace_err_extends(m: Seq<(usize, VertexModel)>, k: int, n: int, st: TraceState)
    requires
        0 <= k <= n,
        trace_map(m, k, st) is Err,
    ensures
        trace_map(m, n, st) == trace_map(m, k, st),
    decreases n - k,
{
    if k < n {
        lemma_trace_err_extends(m, k, n - 1, st);
    }
}

/// Copies the faces.
fn copy_faces(faces: &Vec<Face>) -> (r: Vec<Face>)
    ensures
        r@ == faces@,
{
    let mut r: Vec<Face> = Vec::new();
    let mut i: usize = 0;
    while i < faces.len()
        invariant
            i <= faces.len(),
            r@ == faces@.take(i as int),
        decreases faces.len() - i,
    {
        r.push(faces[i]);
        assert(faces@.take(i as int + 1) =~= faces@.take(i as int).push(faces@[i as int]));
        i += 1;
    }
    assert(faces@.take(faces.len() as int) =~= faces@);
    r
}

/// The vectorised outline of one mesh.
///
/// `faces` are the triangles in drawing order (back to front) and `positions` the
/// bit patterns of the vertex coordinates. Batch after batch, the visible faces are
/// outlined into a vertex map; the faces that overlap an outline already there wait
/// for the next batch. After each batch every vertex with an outline not walked yet
/// starts a closed sub-path that follows the outlines around. `Err` carries the
/// sub-path that could not be closed: a walk that reaches a vertex without a way
/// on gets stuck, and so does one that has taken more steps than there are
/// (vertex, edge) pairs, since it is then going round a cycle that never returns
/// to its start.
pub fn generate_shape<C, I>(faces: &Vec<Face>, positions: &Vec<[u32; 3]>, color: C, id: I) -> (r:
    Result<MeshShape<C, I>, Shape>)
    requires
        faces_in_range(faces@, positions.len() as int),
    ensures
        match outline_of(faces@, positions@) {
            Ok(cmds) => r matches Ok(ms) && ms.shape.paths@ == cmds && ms.color == color
                && ms.mesh_id == id && ms.name is None,
            Err(part) => r matches Err(s) && s.paths@ == part,
        },
        r matches Ok(ms) ==> closed_form(ms.shape.paths@) && points_from(ms.shape.paths@, positions@),
{
    let mut tmp: Vec<PathCmd> = Vec::new();
    let mut batch = copy_faces(faces);
    let mut rotation: Option<bool> = None;
    loop
        invariant
            faces_in_range(faces@, positions.len() as int),
            faces_in_range(batch@, positions.len() as int),
            outline_of(faces@, positions@) == run_batches(batch@, positions@, rotation, tmp@),
        decreases batch.len(),
    {
        let mut mapping = VertexMap::new();
        let mut skipped: Vec<Face> = Vec::new();
        let mut j: usize = 0;
        assert(batch@.take(0) =~= Seq::<Face>::empty());
        while j < batch.len()
            invariant
                j <= batch.len(),
                faces_in_range(batch@, positions.len() as int),
                (mapping@, skipped@) == build_map(batch@.take(j as int), positions@),
                map_wf(mapping@),
            decreases batch.len() - j,
        {
            let face = batch[j];
            assert(batch@.take(j as int + 1).drop_last() =~= batch@.take(j as int));
            assert(batch@.take(j as int + 1).last() == face);
            assert(face_in_range(batch@[j as int], positions.len() as int));
            if face.visible {
                if process_face(&face, positions, &mut mapping) == ProcessResult::Skip {
                    skipped.push(face);
                }
            }
            j += 1;
        }
        assert(batch@.take(batch.len() as int) =~= batch@);
        proof {
            lemma_build_map(batch@, positions@);
        }
        match trace_all(&mapping, &mut rotation, &mut tmp) {
            Err(part) => {
                return Err(Shape::new(part));
            },
            Ok(()) => {},
        }
        if skipped.len() == 0 {
            proof {
                lemma_outline_closed(faces@, positions@);
                lemma_outline_points(faces@, positions@);
            }
            return Ok(MeshShape::new(Shape::new(tmp), color, id));
        }
        batch = skipped;
    }
}

/// Everything needed to outline one mesh.
pub struct MeshInput<C, I> {
    pub faces: Vec<Face>,
    pub positions: Vec<[u32; 3]>,
    pub color: C,
    pub id: I,
}

/// The indices of the meshes whose outline could be closed, in order.
pub open spec fn outlined_indices<C, I>(meshes: Seq<MeshInput<C, I>>) -> Seq<int>
    decreases meshes.len(),
{
    if meshes.len() == 0 {
        Seq::empty()
    } else {
        let prev = outlined_indices(meshes.drop_last());
        if outline_of(meshes.last().faces@, meshes.last().positions@) is Ok {
            prev.push(meshes.len() - 1)
        } else {
            prev
        }
    }
}

pub open spec fn meshes_in_range<C, I>(meshes: Seq<MeshInput<C, I>>) -> bool {
    forall|i: int|
        0 <= i < meshes.len() ==> faces_in_range(
            #[trigger] meshes[i].faces@,
            meshes[i].positions@.len() as int,
        )
}

proof fn lemma_outlined_indices<C, I>(meshes: Seq<MeshInput<C, I>>)
    ensures
        forall|j: int|
            0 <= j < outlined_indices(meshes).len() ==> 0 <= #[trigger] outlined_indices(meshes)[j]
                < meshes.len(),
    decreases meshes.len(),
{
    if meshes.len() > 0 {
        lemma_outlined_indices(meshes.drop_last());
        let prev = outlined_indices(meshes.drop_last());
        assert forall|j: int|
            0 <= j < outlined_indices(meshes).len() implies 0 <= #[trigger] outlined_indices(meshes)[j]
                < meshes.len() by {
            if j < prev.len() {
                assert(outlined_indices(meshes)[j] == prev[j]);
            }
        }
    }
}

/// The meshes kept are exactly those whose outline closes, an empty outline included,
/// each once and in their order.
pub proof fn lemma_outlined_indices_exact<C, I>(meshes: Seq<MeshInput<C, I>>)
    ensures
        forall|i: int|
            0 <= i < meshes.len() ==> (#[trigger] outlined_indices(meshes).contains(i) <==> outline_of(
                meshes[i].faces@,
                meshes[i].positions@,
            ) is Ok),
        forall|i: int, j: int|
            0 <= i < j < outlined_indices(meshes).len() ==> #[trigger] outlined_indices(meshes)[i]
                < #[trigger] outlined_indices(meshes)[j],
        forall|j: int|
            0 <= j < outlined_indices(meshes).len() ==> 0 <= #[trigger] outlined_indices(meshes)[j]
                < meshes.len(),
    decreases meshes.len(),
{
    lemma_outlined_indices(meshes);
    if meshes.len() > 0 {
        let init = meshes.drop_last();
        lemma_outlined_indices_exact(init);
        let prev = outlined_indices(init);
        let r = outlined_indices(meshes);
        let last = meshes.len() - 1;
        assert forall|i: int| 0 <= i < meshes.len() implies (#[trigger] r.contains(i) <==> outline_of(
            meshes[i].faces@,
            meshes[i].positions@,
        ) is Ok) by {
            if r.contains(i) {
                let x = choose|x: int| 0 <= x < r.len() && r[x] == i;
                if x < prev.len() {
                    assert(r[x] == prev[x]);
                    assert(prev.contains(i));
                    assert(init[i] == meshes[i]);
                }
            }
            if outline_of(meshes[i].faces@, meshes[i].positions@) is Ok {
                if i == last {
                    assert(r[r.len() - 1] == i);
                } else {
                    assert(init[i] == meshes[i]);
                    assert(prev.contains(i));
                    let x = choose|x: int| 0 <= x < prev.len() && prev[x] == i;
                    assert(r[x] == i);
                }
            }
        }
    }
}

/// The outlines of the meshes whose outline could be closed, in order; a mesh whose
/// outline gets stuck is left out.
pub fn generate_shapes<C, I>(meshes: Vec<MeshInput<C, I>>) -> (out: Vec<MeshShape<C, I>>)
    requires
        meshes_in_range(meshes@),
    ensures
        out@.len() == outlined_indices(meshes@).len(),
        forall|j: int|
            0 <= j < out@.len() ==> {
                let k = #[trigger] outlined_indices(meshes@)[j];
                &&& outline_of(meshes@[k].faces@, meshes@[k].positions@) == Ok::<
                    Seq<PathCmd>,
                    Seq<PathCmd>,
                >(out@[j].shape.paths@)
                &&& out@[j].color == meshes@[k].color
                &&& out@[j].mesh_id == meshes@[k].id
                &&& out@[j].name is None
            },
{
    let ghost all = meshes@;
    let count = meshes.len();
    assert(all.len() == count);
    let mut rest = meshes;
    let mut out: Vec<MeshShape<C, I>> = Vec::new();
    let mut done: usize = 0;
    proof {
        lemma_outlined_indices(all);
    }
    assert(all.take(0) =~= Seq::<MeshInput<C, I>>::empty());
    assert(rest@ =~= all.skip(0));
    while rest.len() > 0
        invariant
            meshes_in_range(all),
            all.len() <= usize::MAX,
            done <= all.len(),
            rest@ == all.skip(done as int),
            out@.len() == outlined_indices(all.take(done as int)).len(),
            forall|j: int|
                0 <= j < out@.len() ==> {
                    let k = #[trigger] outlined_indices(all.take(done as int))[j];
                    &&& 0 <= k < done
                    &&& outline_of(all[k].faces@, all[k].positions@) == Ok::<
                        Seq<PathCmd>,
                        Seq<PathCmd>,
                    >(out@[j].shape.paths@)
                    &&& out@[j].color == all[k].color
                    &&& out@[j].mesh_id == all[k].id
                    &&& out@[j].name is None
                },
        decreases rest.len(),
    {
        assert(done < all.len());
        let mesh = rest.remove(0);
        assert(mesh == all[done as int]);
        assert(rest@ =~= all.skip(done as int + 1));
        let ghost prev = all.take(done as int);
        let ghost next_prefix = all.take(done as int + 1);
        assert(next_prefix.drop_last() =~= prev);
        assert(next_prefix.last() == mesh);
        proof {
            lemma_outlined_indices(prev);
        }
        assert(faces_in_range(all[done as int].faces@, all[done as int].positions@.len() as int));
        let ghost out_before = out@;
        match generate_shape(&mesh.faces, &mesh.positions, mesh.color, mesh.id) {
            Ok(shape) => {
                out.push(shape);
                assert forall|j: int| 0 <= j < out@.len() implies {
                    let k = #[trigger] outlined_indices(next_prefix)[j];
                    &&& 0 <= k < done + 1
                    &&& outline_of(all[k].faces@, all[k].positions@) == Ok::<
                        Seq<PathCmd>,
                        Seq<PathCmd>,
                    >(out@[j].shape.paths@)
                    &&& out@[j].color == all[k].color
                    &&& out@[j].mesh_id == all[k].id
                    &&& out@[j].name is None
                } by {
                    if j < out_before.len() {
                        assert(outlined_indices(next_prefix)[j] == outlined_indices(prev)[j]);
                        assert(out@[j] == out_before[j]);
                    } else {
                        assert(outlined_indices(next_prefix)[j] == done as int);
                    }
                }
            },
            Err(_) => {
                assert(outlined_indices(next_prefix) == outlined_indices(prev));
            },
        }
        done += 1;
    }
    assert(all.take(done as int) =~= all);
    out
}

/// The faces and positions of one mesh.
pub struct MeshFaces {
    pub faces: Vec<Face>,
    pub positions: Vec<[u32; 3]>,
}

/// The indices, among the first `n` meshes, of those whose outline could be closed.
pub open spec fn closed_among(meshes: Seq<MeshFaces>, n: int) -> Seq<int>
    decreases n,
{
    if n <= 0 {
        Seq::empty()
    } else {
        let prev = closed_among(meshes, n - 1);
        if outline_of(meshes[n - 1].faces@, meshes[n - 1].positions@) is Ok {
            prev.push(n - 1)
        } else {
            prev
        }
    }
}

proof fn lemma_closed_among_range(meshes: Seq<MeshFaces>, n: int)
    ensures
        forall|j: int|
            0 <= j < closed_among(meshes, n).len() ==> 0 <= #[trigger] closed_among(meshes, n)[j] < n,
    decreases n,
{
    if n > 0 {
        lemma_closed_among_range(meshes, n - 1);
        let prev = closed_among(meshes, n - 1);
        assert forall|j: int| 0 <= j < closed_among(meshes, n).len() implies 0 <= #[trigger] closed_among(meshes, n)[j] < n by {
            if j < prev.len() {
                assert(closed_among(meshes, n)[j] == prev[j]);
            }
        }
    }
}

/// Among the first `n` meshes, those kept are exactly those whose outline closes, an
/// empty outline included, each once and in their order.
pub proof fn lemma_closed_among_exact(meshes: Seq<MeshFaces>, n: int)
    requires
        n <= meshes.len(),
    ensures
        forall|i: int|
            0 <= i < n ==> (#[trigger] closed_among(meshes, n).contains(i) <==> outline_of(
                meshes[i].faces@,
                meshes[i].positions@,
            ) is Ok),
        forall|i: int, j: int|
            0 <= i < j < closed_among(meshes, n).len() ==> #[trigger] closed_among(meshes, n)[i]
                < #[trigger] closed_among(meshes, n)[j],
        forall|j: int|
            0 <= j < closed_among(meshes, n).len() ==> 0 <= #[trigger] closed_among(meshes, n)[j] < n,
    decreases n,
{
    lemma_closed_among_range(meshes, n);
    if n > 0 {
        lemma_closed_among_exact(meshes, n - 1);
        let prev = closed_among(meshes, n - 1);
        let r = closed_among(meshes, n);
        assert forall|i: int| 0 <= i < n implies (#[trigger] r.contains(i) <==> outline_of(
            meshes[i].faces@,
            meshes[i].positions@,
        ) is Ok) by {
            if r.contains(i) {
                let x = choose|x: int| 0 <= x < r.len() && r[x] == i;
                if x < prev.len() {
                    assert(r[x] == prev[x]);
                    assert(prev.contains(i));
                }
            }
            if outline_of(meshes[i].faces@, meshes[i].positions@) is Ok {
                if i == n - 1 {
                    assert(r[r.len() - 1] == i);
                } else {
                    assert(prev.contains(i));
                    let x = choose|x: int| 0 <= x < prev.len() && prev[x] == i;
                    assert(r[x] == i);
                }
            }
        }
    }
}

/// The length of the shorter of two lists.
pub open spec fn shorter_len(a: nat, b: nat) -> int {
    if a < b {
        a as int
    } else {
        b as int
    }
}

/// The outlines of meshes paired in order with colours: pairs past the shorter list
/// are dropped, and so is a mesh whose outline gets stuck.
#[verifier::spinoff_prover]
#[verifier::rlimit(40)]
pub fn generate_collection<C>(meshes: Vec<MeshFaces>, colors: Vec<C>) -> (out: Vec<MeshShape<C, ()>>)
    requires
        forall|i: int|
            0 <= i < meshes@.len() ==> faces_in_range(
                #[trigger] meshes@[i].faces@,
                meshes@[i].positions@.len() as int,
            ),
    ensures
        ({
            let picked = closed_among(meshes@, shorter_len(meshes@.len(), colors@.len()));
            &&& out@.len() == picked.len()
            &&& forall|j: int|
                0 <= j < out@.len() ==> {
                    let k = #[trigger] picked[j];
                    &&& outline_of(meshes@[k].faces@, meshes@[k].positions@) == Ok::<
                        Seq<PathCmd>,
                        Seq<PathCmd>,
                    >(out@[j].shape.paths@)
                    &&& out@[j].color == colors@[k]
                    &&& out@[j].name is None
                }
        }),
{
    let ghost ms = meshes@;
    let ghost cs = colors@;
    let mesh_count = meshes.len();
    let color_count = colors.len();
    let mut rest_meshes = meshes;
    let mut rest_colors = colors;
    let mut out: Vec<MeshShape<C, ()>> = Vec::new();
    let mut done: usize = 0;
    let ghost n = if ms.len() < cs.len() {
        ms.len() as int
    } else {
        cs.len() as int
    };
    assert(rest_meshes@ =~= ms.skip(0));
    assert(rest_colors@ =~= cs.skip(0));
    while rest_meshes.len() > 0 && rest_colors.len() > 0
        invariant
            ms.len() == mesh_count,
            cs.len() == color_count,
            n == (if ms.len() < cs.len() {
                ms.len() as int
            } else {
                cs.len() as int
            }),
            forall|i: int|
                0 <= i < ms.len() ==> faces_in_range(
                    #[trigger] ms[i].faces@,
                    ms[i].positions@.len() as int,
                ),
            done <= n,
            rest_meshes@ == ms.skip(done as int),
            rest_colors@ == cs.skip(done as int),
            out@.len() == closed_among(ms, done as int).len(),
            forall|j: int|
                0 <= j < out@.len() ==> {
                    let k = #[trigger] closed_among(ms, done as int)[j];
                    &&& outline_of(ms[k].faces@, ms[k].positions@) == Ok::<
                        Seq<PathCmd>,
                        Seq<PathCmd>,
                    >(out@[j].shape.paths@)
                    &&& out@[j].color == cs[k]
                    &&& out@[j].name is None
                },
        decreases rest_meshes.len(),
    {
        let mesh = rest_meshes.remove(0);
        let color = rest_colors.remove(0);
        assert(mesh == ms[done as int]);
        assert(color == cs[done as int]);
        assert(rest_meshes@ =~= ms.skip(done as int + 1));
        assert(rest_colors@ =~= cs.skip(done as int + 1));
        proof {
            lemma_closed_among_range(ms, done as int);
        }
        assert(faces_in_range(ms[done as int].faces@, ms[done as int].positions@.len() as int));
        let ghost out_before = out@;
        let ghost prev = closed_among(ms, done as int);
        match generate_shape(&mesh.faces, &mesh.positions, color, ()) {
            Ok(shape) => {
                out.push(shape);
                assert forall|j: int| 0 <= j < out@.len() implies {
                    let k = #[trigger] closed_among(ms, done as int + 1)[j];
                    &&& outline_of(ms[k].faces@, ms[k].positions@) == Ok::<
                        Seq<PathCmd>,
                        Seq<PathCmd>,
                    >(out@[j].shape.paths@)
                    &&& out@[j].color == cs[k]
                    &&& out@[j].name is None
                } by {
                    if j < out_before.len() {
                        assert(closed_among(ms, done as int + 1)[j] == prev[j]);
                        assert(out@[j] == out_before[j]);
                    } else {
                        assert(closed_among(ms, done as int + 1)[j] == done as int);
                    }
                }
            },
            Err(_) => {
                assert(closed_among(ms, done as int + 1) == prev);
            },
        }
        done += 1;
    }
    assert(done == n);
    out
}

/// The triangles of an index buffer: each run of three indices, a trailing run of
/// fewer than three dropped.
pub fn chunk_faces(indices: &Vec<usize>) -> (faces: Vec<[usize; 3]>)
    ensures
        faces@.len() == indices@.len() / 3,
        forall|i: int|
            0 <= i < faces@.len() ==> #[trigger] faces@[i] == [
                indices@[3 * i],
                indices@[3 * i + 1],
                indices@[3 * i + 2],
            ],
{
    let mut faces: Vec<[usize; 3]> = Vec::new();
    let mut j: usize = 0;
    while indices.len() - j >= 3
        invariant
            j <= indices@.len(),
            j == 3 * faces@.len(),
            forall|k: int|
                0 <= k < faces@.len() ==> #[trigger] faces@[k] == [
                    indices@[3 * k],
                    indices@[3 * k + 1],
                    indices@[3 * k + 2],
                ],
        decreases indices@.len() - j,
    {
        let t = [indices[j], indices[j + 1], indices[j + 2]];
        faces.push(t);
        j += 3;
    }
    assert(faces@.len() == indices@.len() / 3);
    faces
}

} // verus!

use vstd::prelude::*;

use crate::path::{
    dedup, joint_level_of, lemma_symmetric_difference_contains, symmetric_difference_of, Edge,
    JointLevel, Path,
};

verus! {

/// A vertex of the outline graph: the corner outlines that meet there, and its
/// position in the drawing plane as the bit patterns of its `f32` coordinates.
pub struct Vertex {
    pub paths: Vec<Path>,
    pub position: [u32; 2],
}

/// What a vertex holds, as values.
pub struct VertexModel {
    pub paths: Seq<Seq<Edge>>,
    pub position: [u32; 2],
}

/// The edge sequences of a list of outlines.
pub open spec fn path_seqs(paths: Seq<Path>) -> Seq<Seq<Edge>> {
    paths.map_values(|p: Path| p@)
}

impl View for Vertex {
    type V = VertexModel;

    open spec fn view(&self) -> VertexModel {
        VertexModel { paths: path_seqs(self.paths@), position: self.position }
    }
}

impl Vertex {
    pub fn new(paths: Vec<Path>, position: [u32; 2]) -> (v: Vertex)
        ensures
            v.paths@ == paths@,
            v.position == position,
    {
        Vertex { paths, position }
    }
}

/// The vertices met so far, each under the hash of its position.
///
/// The entries are kept in the order in which their keys first arrived; no key
/// occurs twice. The outline walk starts from each vertex in turn, so the order in
/// which the map is walked decides which outline comes first. A hash map would walk
/// its vertices in an order that is seeded anew in each process and that no
/// contract can name; kept as a list, the map is walked in one fixed order, among
/// those a hash map could give, and the outline that comes out is stated exactly.
pub struct VertexMap {
    pub entries: Vec<(usize, Vertex)>,
}

/// The entries of a vertex map, as values.
pub open spec fn entry_models(entries: Seq<(usize, Vertex)>) -> Seq<(usize, VertexModel)> {
    entries.map_values(|kv: (usize, Vertex)| (kv.0, kv.1@))
}

impl View for VertexMap {
    type V = Seq<(usize, VertexModel)>;

    open spec fn view(&self) -> Seq<(usize, VertexModel)> {
        entry_models(self.entries@)
    }
}

pub open spec fn has_key(m: Seq<(usize, VertexModel)>, k: usize) -> bool {
    exists|i: int| 0 <= i < m.len() && #[trigger] m[i].0 == k
}

pub open spec fn key_index(m: Seq<(usize, VertexModel)>, k: usize) -> int {
    choose|i: int| 0 <= i < m.len() && #[trigger] m[i].0 == k
}

/// The vertex stored under `k`.
pub open spec fn lookup(m: Seq<(usize, VertexModel)>, k: usize) -> Option<VertexModel> {
    if has_key(m, k) {
        Some(m[key_index(m, k)].1)
    } else {
        None
    }
}

/// `m` with `v` stored under `k`: in place where `k` is already a key, at the end
/// otherwise.
pub open spec fn insert_entry(m: Seq<(usize, VertexModel)>, k: usize, v: VertexModel) -> Seq<
    (usize, VertexModel),
> {
    if has_key(m, k) {
        m.update(key_index(m, k), (k, v))
    } else {
        m.push((k, v))
    }
}

pub open spec fn keys_distinct(m: Seq<(usize, VertexModel)>) -> bool {
    forall|i: int, j: int|
        0 <= i < m.len() && 0 <= j < m.len() && i != j ==> #[trigger] m[i].0 != #[trigger] m[j].0
}

/// An outline that can be walked: it has an edge, no edge twice, and every
/// neighbour it reaches is a vertex of `m`.
pub open spec fn path_ok(m: Seq<(usize, VertexModel)>, p: Seq<Edge>) -> bool {
    &&& p.len() > 0
    &&& p.no_duplicates()
    &&& forall|j: int| 0 <= j < p.len() ==> has_key(m, #[trigger] p[j].vertex_hash)
}

pub open spec fn paths_ok(m: Seq<(usize, VertexModel)>, ps: Seq<Seq<Edge>>) -> bool {
    forall|p: int| 0 <= p < ps.len() ==> path_ok(m, #[trigger] ps[p])
}

/// The invariant of the vertex map: keys are distinct and every outline can be walked.
pub open spec fn map_wf(m: Seq<(usize, VertexModel)>) -> bool {
    &&& keys_distinct(m)
    &&& forall|i: int| 0 <= i < m.len() ==> paths_ok(m, #[trigger] m[i].1.paths)
}

/// Hash of a position given by the bit patterns of its three `f32` coordinates.
pub open spec fn position_hash(p: [u32; 3]) -> usize {
    ((p[0] as u64 * 31 + p[1] as u64 * 7 + p[2] as u64) as u64) as usize
}

/// The hash that names a vertex: the bit patterns of its coordinates weighted
/// 31, 7 and 1.
pub fn hash_pos(pos: [u32; 3]) -> (h: usize)
    ensures
        h == position_hash(pos),
{
    let x: u64 = pos[0] as u64;
    let y: u64 = pos[1] as u64;
    let z: u64 = pos[2] as u64;
    let sum: u64 = x * 31 + y * 7 + z;
    #[verifier::truncate]
    (sum as usize)
}

/// One triangle of a mesh, ready to be outlined.
///
/// `indices` names the corners `a`, `b`, `c`. The corners are visited in the order
/// `c`, `b`, `a`; at step `k` the visited corner is `v` and its neighbours are `n1`
/// then `n2` (`a` and `b`, then `c` and `a`, then `b` and `c`). `turns[2 * k]` tells
/// whether `n2` lies to the left of the line from `v` to `n1`, and
/// `turns[2 * k + 1]` whether `n1` lies to the left of the line from `v` to `n2`.
/// `visible` tells whether the triangle faces the viewer.
#[derive(Clone, Copy, Debug)]
pub struct Face {
    pub indices: [usize; 3],
    pub turns: [bool; 6],
    pub visible: bool,
}

/// The corner visited at step `k`.
pub open spec fn corner(f: Face, k: int) -> usize {
    if k == 0 {
        f.indices[2]
    } else if k == 1 {
        f.indices[1]
    } else {
        f.indices[0]
    }
}

/// The first neighbour of the corner visited at step `k`.
pub open spec fn first_neighbour(f: Face, k: int) -> usize {
    if k == 0 {
        f.indices[0]
    } else if k == 1 {
        f.indices[2]
    } else {
        f.indices[1]
    }
}

/// The second neighbour of the corner visited at step `k`.
pub open spec fn second_neighbour(f: Face, k: int) -> usize {
    if k == 0 {
        f.indices[1]
    } else if k == 1 {
        f.indices[0]
    } else {
        f.indices[2]
    }
}

/// Every corner of the face names a position.
pub open spec fn face_in_range(f: Face, n: int) -> bool {
    forall|i: int| 0 <= i < 3 ==> #[trigger] f.indices[i] < n
}

/// The outline of the face around the corner visited at step `k`.
pub open spec fn corner_path(f: Face, positions: Seq<[u32; 3]>, k: int) -> Seq<Edge> {
    dedup(
        seq![
            Edge {
                vertex_hash: position_hash(positions[first_neighbour(f, k) as int]),
                rotation: f.turns[2 * k],
            },
            Edge {
                vertex_hash: position_hash(positions[second_neighbour(f, k) as int]),
                rotation: f.turns[2 * k + 1],
            },
        ],
    )
}

/// Folds a new corner outline into the outlines already at a vertex, in order:
/// an outline that only shares the vertex is kept, one that reaches a neighbour
/// from the opposite side is merged into the new outline, and one that overlaps
/// it makes the whole face wait (`None`).
pub open spec fn absorb(paths: Seq<Seq<Edge>>, new_path: Seq<Edge>) -> Option<
    (Seq<Seq<Edge>>, Seq<Edge>),
>
    decreases paths.len(),
{
    if paths.len() == 0 {
        Some((Seq::empty(), new_path))
    } else {
        match absorb(paths.drop_last(), new_path) {
            None => None,
            Some((kept, np)) => {
                let p = paths.last();
                match joint_level_of(p, np) {
                    JointLevel::SharedVertex => Some((kept.push(p), np)),
                    JointLevel::SharedEdge => None,
                    JointLevel::MergeEdge => Some((kept, symmetric_difference_of(np, p))),
                }
            },
        }
    }
}

/// A vertex after a new corner outline has been folded into it.
pub open spec fn absorbed_vertex(v: VertexModel, new_path: Seq<Edge>) -> Option<VertexModel> {
    match absorb(v.paths, new_path) {
        None => None,
        Some((kept, np)) => Some(
            VertexModel {
                paths: if np.len() > 0 {
                    kept.push(np)
                } else {
                    kept
                },
                position: v.position,
            },
        ),
    }
}

/// The entry that step `k` of a face writes, or `None` where the face must wait.
pub open spec fn step_result(f: Face, positions: Seq<[u32; 3]>, m: Seq<(usize, VertexModel)>, k: int) -> Option<
    (usize, VertexModel),
> {
    let pos = positions[corner(f, k) as int];
    let h = position_hash(pos);
    let np = corner_path(f, positions, k);
    match lookup(m, h) {
        Some(v) => match absorbed_vertex(v, np) {
            Some(nv) => Some((h, nv)),
            None => None,
        },
        None => Some((h, VertexModel { paths: seq![np], position: [pos[0], pos[1]] })),
    }
}

/// What processing a face does: `(true, m')` where all three corners could be
/// written, in step order; `(false, m)` where the face must wait for a later batch.
pub open spec fn process_face_spec(f: Face, positions: Seq<[u32; 3]>, m: Seq<(usize, VertexModel)>) -> (
    bool,
    Seq<(usize, VertexModel)>,
) {
    match (step_result(f, positions, m, 0), step_result(f, positions, m, 1), step_result(f, positions, m, 2)) {
        (Some(r0), Some(r1), Some(r2)) => (
            true,
            insert_entry(insert_entry(insert_entry(m, r0.0, r0.1), r1.0, r1.1), r2.0, r2.1),
        ),
        _ => (false, m),
    }
}

/// Whether a face was outlined or has to wait for the next batch.
#[derive(Clone, Copy, Debug, PartialEq, Eq, Structural)]
pub enum ProcessResult {
    Outlined,
    Skip,
}

impl VertexMap {
    pub fn new() -> (m: VertexMap)
        ensures
            m@ == Seq::<(usize, VertexModel)>::empty(),
    {
        let m = VertexMap { entries: Vec::new() };
        assert(m@ =~= Seq::<(usize, VertexModel)>::empty());
        m
    }

    /// The position in `entries` of the key `k`.
    pub fn find(&self, k: usize) -> (r: Option<usize>)
        requires
            keys_distinct(self@),
        ensures
            r is None <==> !has_key(self@, k),
            r matches Some(i) ==> i < self@.len() && self@[i as int].0 == k && key_index(self@, k)
                == i,
    {
        let mut i: usize = 0;
        while i < self.entries.len()
            invariant
                i <= self.entries.len(),
                keys_distinct(self@),
                forall|j: int| 0 <= j < i ==> self@[j].0 != k,
            decreases self.entries.len() - i,
        {
            assert(self@[i as int].0 == self.entries@[i as int].0);
            if self.entries[i].0 == k {
                proof {
                    assert(has_key(self@, k));
                    let j = key_index(self@, k);
                    assert(self@[j].0 == k);
                }
                return Some(i);
            }
            i += 1;
        }
        None
    }

    /// The vertex stored under `k`.
    pub fn get(&self, k: usize) -> (r: Option<&Vertex>)
        requires
            keys_distinct(self@),
        ensures
            r is None <==> lookup(self@, k) is None,
            r matches Some(v) ==> lookup(self@, k) == Some(v@),
    {
        match self.find(k) {
            Some(i) => Some(&self.entries[i].1),
            None => None,
        }
    }

    /// Stores `v` under `k`.
    pub fn insert(&mut self, k: usize, v: Vertex)
        requires
            keys_distinct(old(self)@),
        ensures
            final(self)@ == insert_entry(old(self)@, k, v@),
            keys_distinct(final(self)@),
    {
        proof {
            lemma_insert_entry(self@, k, v@);
        }
        match self.find(k) {
            Some(i) => {
                self.entries.set(i, (k, v));
                assert(self@ =~= insert_entry(old(self)@, k, v@));
            },
            None => {
                self.entries.push((k, v));
                assert(self@ =~= insert_entry(old(self)@, k, v@));
            },
        }
    }
}

pub proof fn lemma_insert_entry(m: Seq<(usize, VertexModel)>, k: usize, v: VertexModel)
    ensures
        keys_distinct(m) ==> keys_distinct(insert_entry(m, k, v)),
        forall|x: usize| #[trigger]
            has_key(insert_entry(m, k, v), x) <==> has_key(m, x) || x == k,
        forall|i: int|
            0 <= i < insert_entry(m, k, v).len() ==> #[trigger] insert_entry(m, k, v)[i] == (k, v)
                || (i < m.len() && insert_entry(m, k, v)[i] == m[i]),
{
    let r = insert_entry(m, k, v);
    if has_key(m, k) {
        let i0 = key_index(m, k);
        assert forall|x: usize| #[trigger] has_key(r, x) <==> has_key(m, x) || x == k by {
            if has_key(m, x) {
                let j = choose|j: int| 0 <= j < m.len() && #[trigger] m[j].0 == x;
                if j == i0 {
                    assert(r[j].0 == k);
                } else {
                    assert(r[j].0 == x);
                }
            }
            if x == k {
                assert(r[i0].0 == k);
            }
            if has_key(r, x) {
                let j = choose|j: int| 0 <= j < r.len() && #[trigger] r[j].0 == x;
                if j != i0 {
                    assert(m[j].0 == x);
                }
            }
        }
    } else {
        assert forall|x: usize| #[trigger] has_key(r, x) <==> has_key(m, x) || x == k by {
            if has_key(m, x) {
                let j = choose|j: int| 0 <= j < m.len() && #[trigger] m[j].0 == x;
                assert(r[j].0 == x);
            }
            if x == k {
                assert(r[m.len() as int].0 == k);
            }
            if has_key(r, x) {
                let j = choose|j: int| 0 <= j < r.len() && #[trigger] r[j].0 == x;
                if j < m.len() {
                    assert(m[j].0 == x);
                }
            }
        }
    }
}

/// Whether `kept` came from `paths` and what the merged outline can hold.
proof fn lemma_absorb(paths: Seq<Seq<Edge>>, new_path: Seq<Edge>)
    ensures
        absorb(paths, new_path) matches Some((kept, np)) ==> {
            &&& forall|q: int| 0 <= q < kept.len() ==> paths.contains(#[trigger] kept[q])
            &&& forall|e: Edge| #[trigger]
                np.contains(e) ==> new_path.contains(e) || exists|p: int|
                    0 <= p < paths.len() && #[trigger] paths[p].contains(e)
            &&& new_path.no_duplicates() ==> np.no_duplicates()
        },
    decreases paths.len(),
{
    if paths.len() > 0 {
        lemma_absorb(paths.drop_last(), new_path);
        match absorb(paths.drop_last(), new_path) {
            None => {},
            Some((kept, np)) => {
                let p = paths.last();
                assert forall|q: int| 0 <= q < kept.len() implies paths.contains(#[trigger] kept[q]) by {
                    let j = choose|j: int| 0 <= j < paths.drop_last().len() && paths.drop_last()[j] == kept[q];
                    assert(paths[j] == kept[q]);
                }
                assert forall|e: Edge| #[trigger]
                    np.contains(e) implies new_path.contains(e) || exists|p2: int|
                        0 <= p2 < paths.len() && #[trigger] paths[p2].contains(e) by {
                    if !new_path.contains(e) {
                        let p2 = choose|p2: int|
                            0 <= p2 < paths.drop_last().len() && #[trigger] paths.drop_last()[p2].contains(e);
                        assert(paths[p2].contains(e));
                    }
                }
                match joint_level_of(p, np) {
                    JointLevel::SharedVertex => {
                        assert(paths.contains(p)) by {
                            assert(paths[paths.len() - 1] == p);
                        }
                        assert forall|q: int| 0 <= q < kept.push(p).len() implies paths.contains(
                            #[trigger] kept.push(p)[q],
                        ) by {
                            if q == kept.len() {
                                assert(kept.push(p)[q] == p);
                            } else {
                                assert(kept.push(p)[q] == kept[q]);
                                assert(paths.contains(kept[q]));
                            }
                        }
                    },
                    JointLevel::SharedEdge => {},
                    JointLevel::MergeEdge => {
                        lemma_symmetric_difference_contains(np, p);
                        let s = symmetric_difference_of(np, p);
                        assert forall|e: Edge| #[trigger]
                            s.contains(e) implies new_path.contains(e) || exists|p2: int|
                                0 <= p2 < paths.len() && #[trigger] paths[p2].contains(e) by {
                            if !np.contains(e) {
                                assert(p.contains(e));
                                assert(paths[paths.len() - 1].contains(e));
                            }
                        }
                    },
                }
            },
        }
    }
}

proof fn lemma_dedup_pair(s: Seq<Edge>)
    requires
        s.len() == 2,
    ensures
        dedup(s).len() > 0,
        dedup(s).no_duplicates(),
        forall|e: Edge| #[trigger] dedup(s).contains(e) ==> e == s[0] || e == s[1],
{
    crate::path::lemma_union_contains(Seq::empty(), s);
    assert(s.contains(s[0]));
    assert(dedup(s).contains(s[0]));
    assert forall|e: Edge| #[trigger] dedup(s).contains(e) implies e == s[0] || e == s[1] by {
        assert(s.contains(e));
        let k = choose|k: int| 0 <= k < s.len() && s[k] == e;
    }
}

proof fn lemma_paths_ok_mono(m1: Seq<(usize, VertexModel)>, m2: Seq<(usize, VertexModel)>, ps: Seq<Seq<Edge>>)
    requires
        paths_ok(m1, ps),
        forall|x: usize| has_key(m1, x) ==> has_key(m2, x),
    ensures
        paths_ok(m2, ps),
{
    assert forall|p: int| 0 <= p < ps.len() implies path_ok(m2, #[trigger] ps[p]) by {
        assert(path_ok(m1, ps[p]));
        assert forall|j: int| 0 <= j < ps[p].len() implies has_key(m2, #[trigger] ps[p][j].vertex_hash) by {
            assert(has_key(m1, ps[p][j].vertex_hash));
        }
    }
}

/// A step's entry can be walked once the three corners of the face are keys.
proof fn lemma_step_ok(f: Face, positions: Seq<[u32; 3]>, m: Seq<(usize, VertexModel)>, k: int, m2: Seq<(usize, VertexModel)>)
    requires
        map_wf(m),
        0 <= k < 3,
        face_in_range(f, positions.len() as int),
        forall|x: usize| has_key(m, x) ==> has_key(m2, x),
        forall|j: int| 0 <= j < 3 ==> has_key(m2, position_hash(positions[#[trigger] corner(f, j) as int])),
        step_result(f, positions, m, k) is Some,
    ensures
        paths_ok(m2, step_result(f, positions, m, k).unwrap().1.paths),
{
    let pos = positions[corner(f, k) as int];
    let h = position_hash(pos);
    let np = corner_path(f, positions, k);
    let e1 = Edge { vertex_hash: position_hash(positions[first_neighbour(f, k) as int]), rotation: f.turns[2 * k] };
    let e2 = Edge { vertex_hash: position_hash(positions[second_neighbour(f, k) as int]), rotation: f.turns[2 * k + 1] };
    let pair = seq![e1, e2];
    lemma_dedup_pair(pair);
    assert(np == dedup(pair));
    // the neighbours are corners visited at other steps
    if k == 0 {
        assert(first_neighbour(f, 0) == corner(f, 2));
        assert(second_neighbour(f, 0) == corner(f, 1));
    } else if k == 1 {
        assert(first_neighbour(f, 1) == corner(f, 0));
        assert(second_neighbour(f, 1) == corner(f, 2));
    } else {
        assert(first_neighbour(f, 2) == corner(f, 1));
        assert(second_neighbour(f, 2) == corner(f, 0));
    }
    assert(has_key(m2, e1.vertex_hash));
    assert(has_key(m2, e2.vertex_hash));
    assert(path_ok(m2, np)) by {
        assert forall|j: int| 0 <= j < np.len() implies has_key(m2, #[trigger] np[j].vertex_hash) by {
            assert(np.contains(np[j]));
        }
    }
    match lookup(m, h) {
        None => {
            let ps = seq![np];
            assert forall|p: int| 0 <= p < ps.len() implies path_ok(m2, #[trigger] ps[p]) by {
                assert(ps[p] == np);
            }
        },
        Some(v) => {
            let i = key_index(m, h);
            assert(paths_ok(m, m[i].1.paths));
            assert(v == m[i].1);
            lemma_paths_ok_mono(m, m2, v.paths);
            lemma_absorb(v.paths, np);
            let (kept, np2) = absorb(v.paths, np).unwrap();
            assert(paths_ok(m2, kept)) by {
                assert forall|q: int| 0 <= q < kept.len() implies path_ok(m2, #[trigger] kept[q]) by {
                    assert(v.paths.contains(kept[q]));
                    let p = choose|p: int| 0 <= p < v.paths.len() && v.paths[p] == kept[q];
                    assert(path_ok(m2, v.paths[p]));
                }
            }
            if np2.len() > 0 {
                assert(path_ok(m2, np2)) by {
                    assert forall|j: int| 0 <= j < np2.len() implies has_key(m2, #[trigger] np2[j].vertex_hash) by {
                        let e = np2[j];
                        assert(np2.contains(e));
                        if np.contains(e) {
                            let t = choose|t: int| 0 <= t < np.len() && np[t] == e;
                            assert(has_key(m2, np[t].vertex_hash));
                        } else {
                            let p = choose|p: int| 0 <= p < v.paths.len() && #[trigger] v.paths[p].contains(e);
                            assert(path_ok(m2, v.paths[p]));
                            let t = choose|t: int| 0 <= t < v.paths[p].len() && v.paths[p][t] == e;
                            assert(has_key(m2, v.paths[p][t].vertex_hash));
                        }
                    }
                }
                let ps = kept.push(np2);
                assert forall|p: int| 0 <= p < ps.len() implies path_ok(m2, #[trigger] ps[p]) by {
                    if p < kept.len() {
                        assert(ps[p] == kept[p]);
                    }
                }
            }
        },
    }
}

proof fn lemma_insert_keeps(m: Seq<(usize, VertexModel)>, k: usize, v: VertexModel, m2: Seq<(usize, VertexModel)>)
    requires
        keys_distinct(m),
        forall|i: int| 0 <= i < m.len() ==> paths_ok(m2, #[trigger] m[i].1.paths),
        paths_ok(m2, v.paths),
    ensures
        keys_distinct(insert_entry(m, k, v)),
        forall|i: int| 0 <= i < insert_entry(m, k, v).len() ==> paths_ok(m2, #[trigger] insert_entry(m, k, v)[i].1.paths),
{
    lemma_insert_entry(m, k, v);
    let r = insert_entry(m, k, v);
    assert forall|i: int| 0 <= i < r.len() implies paths_ok(m2, #[trigger] r[i].1.paths) by {
        if r[i] != (k, v) {
            assert(r[i] == m[i]);
        }
    }
}

/// Processing a face keeps the vertex map walkable.
pub proof fn lemma_process_face_wf(f: Face, positions: Seq<[u32; 3]>, m: Seq<(usize, VertexModel)>)
    requires
        map_wf(m),
        face_in_range(f, positions.len() as int),
    ensures
        map_wf(process_face_spec(f, positions, m).1),
        forall|x: usize| has_key(m, x) ==> has_key(process_face_spec(f, positions, m).1, x),
{
    if process_face_spec(f, positions, m).0 {
        let r0 = step_result(f, positions, m, 0).unwrap();
        let r1 = step_result(f, positions, m, 1).unwrap();
        let r2 = step_result(f, positions, m, 2).unwrap();
        let m1 = insert_entry(m, r0.0, r0.1);
        let m2 = insert_entry(m1, r1.0, r1.1);
        let m3 = insert_entry(m2, r2.0, r2.1);
        lemma_insert_entry(m, r0.0, r0.1);
        lemma_insert_entry(m1, r1.0, r1.1);
        lemma_insert_entry(m2, r2.0, r2.1);
        assert(r0.0 == position_hash(positions[corner(f, 0) as int]));
        assert(r1.0 == position_hash(positions[corner(f, 1) as int]));
        assert(r2.0 == position_hash(positions[corner(f, 2) as int]));
        assert forall|j: int| 0 <= j < 3 implies has_key(m3, position_hash(positions[#[trigger] corner(f, j) as int])) by {
            if j == 0 {
                assert(has_key(m3, r0.0));
            } else if j == 1 {
                assert(has_key(m3, r1.0));
            } else {
                assert(has_key(m3, r2.0));
            }
        }
        assert(forall|x: usize| has_key(m, x) ==> has_key(m3, x));
        lemma_step_ok(f, positions, m, 0, m3);
        lemma_step_ok(f, positions, m, 1, m3);
        lemma_step_ok(f, positions, m, 2, m3);
        assert forall|i: int| 0 <= i < m.len() implies paths_ok(m3, #[trigger] m[i].1.paths) by {
            lemma_paths_ok_mono(m, m3, m[i].1.paths);
        }
        lemma_insert_keeps(m, r0.0, r0.1, m3);
        lemma_insert_keeps(m1, r1.0, r1.1, m3);
        lemma_insert_keeps(m2, r2.0, r2.1, m3);
    }
}

/// On an empty map every face is outlined.
pub proof fn lemma_process_face_empty(f: Face, positions: Seq<[u32; 3]>)
    ensures
        process_face_spec(f, positions, Seq::empty()).0,
{
    let m = Seq::<(usize, VertexModel)>::empty();
    assert forall|k: usize| !has_key(m, k) by {}
}

/// A face that must wait leaves the vertex map as it was.
pub proof fn lemma_skip_keeps_map(f: Face, positions: Seq<[u32; 3]>, m: Seq<(usize, VertexModel)>)
    ensures
        !process_face_spec(f, positions, m).0 ==> process_face_spec(f, positions, m).1 == m,
{
}

/// Folds `new_path` into the outlines `paths` (see `absorb`).
fn absorb_paths(paths: &Vec<Path>, new_path: Path) -> (r: Option<(Vec<Path>, Path)>)
    ensures
        r is None <==> absorb(path_seqs(paths@), new_path@) is None,
        r matches Some((kept, np)) ==> absorb(path_seqs(paths@), new_path@) == Some(
            (path_seqs(kept@), np@),
        ),
{
    let mut kept: Vec<Path> = Vec::new();
    let mut np = new_path;
    let mut i: usize = 0;
    assert(path_seqs(kept@) =~= Seq::<Seq<Edge>>::empty());
    assert(path_seqs(paths@).take(0) =~= Seq::<Seq<Edge>>::empty());
    while i < paths.len()
        invariant
            i <= paths.len(),
            absorb(path_seqs(paths@).take(i as int), new_path@) == Some((path_seqs(kept@), np@)),
        decreases paths.len() - i,
    {
        let path = &paths[i];
        assert(path_seqs(paths@).take(i as int + 1).drop_last() =~= path_seqs(paths@).take(i as int));
        assert(path_seqs(paths@).take(i as int + 1).last() == path@);
        match path.joint_level(&np) {
            JointLevel::SharedVertex => {
                let ghost before = kept@;
                kept.push(path.duplicate());
                assert(path_seqs(kept@) =~= path_seqs(before).push(path@));
            },
            JointLevel::SharedEdge => {
                proof {
                    let j = i as int + 1;
                    let s = path_seqs(paths@);
                    lemma_absorb_none_extends(s, j, new_path@);
                }
                return None;
            },
            JointLevel::MergeEdge => {
                np = np.merge(path.duplicate());
            },
        }
        i += 1;
    }
    assert(path_seqs(paths@).take(paths.len() as int) =~= path_seqs(paths@));
    Some((kept, np))
}

/// Once the fold has met an overlap on a prefix, it fails on the whole list.
proof fn lemma_absorb_none_extends(s: Seq<Seq<Edge>>, j: int, np: Seq<Edge>)
    requires
        0 <= j <= s.len(),
        absorb(s.take(j), np) is None,
    ensures
        absorb(s, np) is None,
    decreases s.len() - j,
{
    if j < s.len() {
        assert(s.take(j + 1).drop_last() =~= s.take(j));
        lemma_absorb_none_extends(s, j + 1, np);
    } else {
        assert(s.take(j) =~= s);
    }
}

/// The entry written by step `k` of a face, or `None` where the face must wait.
fn step(face: &Face, positions: &Vec<[u32; 3]>, mapping: &VertexMap, k: usize) -> (r: Option<(usize, Vertex)>)
    requires
        k < 3,
        face_in_range(*face, positions.len() as int),
        keys_distinct(mapping@),
    ensures
        r is None <==> step_result(*face, positions@, mapping@, k as int) is None,
        r matches Some((h, v)) ==> step_result(*face, positions@, mapping@, k as int) == Some((h, v@)),
{
    let (vi, n1, n2) = if k == 0 {
        (face.indices[2], face.indices[0], face.indices[1])
    } else if k == 1 {
        (face.indices[1], face.indices[2], face.indices[0])
    } else {
        (face.indices[0], face.indices[1], face.indices[2])
    };
    assert(face.indices[0] < positions.len());
    assert(face.indices[1] < positions.len());
    assert(face.indices[2] < positions.len());
    let pos = positions[vi];
    let h = hash_pos(pos);
    let e1 = Edge::new(hash_pos(positions[n1]), face.turns[2 * k]);
    let e2 = Edge::new(hash_pos(positions[n2]), face.turns[2 * k + 1]);
    let mut pair: Vec<Edge> = Vec::new();
    pair.push(e1);
    pair.push(e2);
    assert(pair@ =~= seq![e1, e2]);
    let new_path = Path::new(pair);
    assert(new_path@ == corner_path(*face, positions@, k as int));
    match mapping.get(h) {
        Some(v) => {
            match absorb_paths(&v.paths, new_path) {
                None => None,
                Some((kept, np)) => {
                    let mut paths = kept;
                    if !np.is_empty() {
                        paths.push(np);
                    }
                    let nv = Vertex::new(paths, v.position);
                    assert(nv@.paths =~= absorbed_vertex(v@, corner_path(*face, positions@, k as int)).unwrap().paths);
                    Some((h, nv))
                },
            }
        },
        None => {
            let mut paths: Vec<Path> = Vec::new();
            paths.push(new_path);
            let nv = Vertex::new(paths, [pos[0], pos[1]]);
            assert(nv@.paths =~= seq![corner_path(*face, positions@, k as int)]);
            Some((h, nv))
        },
    }
}

/// Outlines one face into the vertex map.
///
/// At each corner the new corner outline is folded into the outlines already
/// there; where one of them overlaps it, the face is left for a later batch and
/// the map is not touched. Otherwise the three corners are written in the order
/// `c`, `b`, `a`.
pub fn process_face(face: &Face, positions: &Vec<[u32; 3]>, mapping: &mut VertexMap) -> (r:
    ProcessResult)
    requires
        face_in_range(*face, positions.len() as int),
        keys_distinct(old(mapping)@),
    ensures
        ((r == ProcessResult::Outlined), final(mapping)@) == process_face_spec(*face, positions@, old(mapping)@),
        keys_distinct(final(mapping)@),
        map_wf(old(mapping)@) ==> map_wf(final(mapping)@),
{
    proof {
        if map_wf(mapping@) {
            lemma_process_face_wf(*face, positions@, mapping@);
        }
    }
    let s0 = step(face, positions, mapping, 0);
    let s1 = step(face, positions, mapping, 1);
    let s2 = step(face, positions, mapping, 2);
    match (s0, s1, s2) {
        (Some((h0, v0)), Some((h1, v1)), Some((h2, v2))) => {
            mapping.insert(h0, v0);
            mapping.insert(h1, v1);
            mapping.insert(h2, v2);
            ProcessResult::Outlined
        },
        _ => ProcessResult::Skip,
    }
}

} // verus!

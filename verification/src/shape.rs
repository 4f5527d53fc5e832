use vstd::prelude::*;

verus! {

/// One element of a flat vector outline. Points are given by the bit patterns of
/// their two `f32` coordinates in the drawing plane.
#[derive(Clone, Copy, Debug)]
pub enum PathCmd {
    MoveTo([u32; 2]),
    LineTo([u32; 2]),
    ClosePath,
}

/// The outline of one mesh: a run of closed sub-paths.
#[derive(Clone, Debug)]
pub struct Shape {
    pub paths: Vec<PathCmd>,
}

impl Shape {
    pub fn new(paths: Vec<PathCmd>) -> (s: Shape)
        ensures
            s.paths@ == paths@,
    {
        Shape { paths }
    }
}

impl Shape {
    /// A copy of the outline, element for element.
    pub fn duplicate(&self) -> (s: Shape)
        ensures
            s.paths@ == self.paths@,
    {
        let mut out: Vec<PathCmd> = Vec::new();
        let mut i: usize = 0;
        while i < self.paths.len()
            invariant
                i <= self.paths.len(),
                out@ == self.paths@.take(i as int),
            decreases self.paths.len() - i,
        {
            out.push(self.paths[i]);
            assert(self.paths@.take(i as int + 1) =~= self.paths@.take(i as int).push(self.paths@[i as int]));
            i += 1;
        }
        assert(self.paths@.take(self.paths.len() as int) =~= self.paths@);
        Shape { paths: out }
    }
}

/// The outline of a mesh with what it is drawn with: its colour, the id of the
/// mesh it came from and an optional name.
#[derive(Clone, Debug)]
pub struct MeshShape<C, I> {
    pub shape: Shape,
    pub color: C,
    pub mesh_id: I,
    pub name: Option<String>,
}

impl<C, I> MeshShape<C, I> {
    pub fn new(shape: Shape, color: C, id: I) -> (m: MeshShape<C, I>)
        ensures
            m.shape.paths@ == shape.paths@,
            m.color == color,
            m.mesh_id == id,
            m.name is None,
    {
        MeshShape { shape, color, mesh_id: id, name: None }
    }
}

/// The outlines in drawing order: for each entry of `ordering`, a copy of the
/// outline it names.
pub fn get_shapes<C: Clone, I: Clone>(shapes: &Vec<MeshShape<C, I>>, ordering: &Vec<usize>) -> (out:
    Vec<MeshShape<C, I>>)
    requires
        forall|k: int| 0 <= k < ordering@.len() ==> #[trigger] ordering@[k] < shapes@.len(),
    ensures
        out@.len() == ordering@.len(),
        forall|k: int|
            0 <= k < out@.len() ==> {
                let src = shapes@[#[trigger] ordering@[k] as int];
                &&& out@[k].shape.paths@ == src.shape.paths@
                &&& cloned(src.color, out@[k].color)
                &&& cloned(src.mesh_id, out@[k].mesh_id)
                &&& out@[k].name == src.name
            },
{
    let mut out: Vec<MeshShape<C, I>> = Vec::new();
    let mut k: usize = 0;
    while k < ordering.len()
        invariant
            k <= ordering.len(),
            out@.len() == k,
            forall|j: int| 0 <= j < ordering@.len() ==> #[trigger] ordering@[j] < shapes@.len(),
            forall|j: int|
                0 <= j < k ==> {
                    let src = shapes@[#[trigger] ordering@[j] as int];
                    &&& out@[j].shape.paths@ == src.shape.paths@
                    &&& cloned(src.color, out@[j].color)
                    &&& cloned(src.mesh_id, out@[j].mesh_id)
                    &&& out@[j].name == src.name
                },
        decreases ordering.len() - k,
    {
        let src = &shapes[ordering[k]];
        let name = match &src.name {
            Some(n) => Some(n.clone()),
            None => None,
        };
        let copy = MeshShape {
            shape: src.shape.duplicate(),
            color: src.color.clone(),
            mesh_id: src.mesh_id.clone(),
            name,
        };
        out.push(copy);
        k += 1;
    }
    out
}

/// The points gathered since the last `ClosePath`, and the closed point runs so far.
pub open spec fn split_state(cmds: Seq<PathCmd>) -> (Seq<Seq<[u32; 2]>>, Seq<[u32; 2]>)
    decreases cmds.len(),
{
    if cmds.len() == 0 {
        (Seq::empty(), Seq::empty())
    } else {
        let (done, cur) = split_state(cmds.drop_last());
        match cmds.last() {
            PathCmd::MoveTo(p) => (done, cur.push(p)),
            PathCmd::LineTo(p) => (done, cur.push(p)),
            PathCmd::ClosePath => (done.push(cur), Seq::empty()),
        }
    }
}

/// The closed sub-paths of an outline, each as the run of its points; points after
/// the last `ClosePath` belong to no closed sub-path.
pub open spec fn closed_runs(cmds: Seq<PathCmd>) -> Seq<Seq<[u32; 2]>> {
    split_state(cmds).0
}

/// The number of `ClosePath` elements.
pub open spec fn close_count(cmds: Seq<PathCmd>) -> nat
    decreases cmds.len(),
{
    if cmds.len() == 0 {
        0
    } else {
        close_count(cmds.drop_last()) + if cmds.last() is ClosePath {
            1nat
        } else {
            0nat
        }
    }
}

/// Splitting yields one run per `ClosePath`.
pub proof fn lemma_closed_runs_count(cmds: Seq<PathCmd>)
    ensures
        closed_runs(cmds).len() == close_count(cmds),
    decreases cmds.len(),
{
    if cmds.len() > 0 {
        lemma_closed_runs_count(cmds.drop_last());
    }
}

/// The points of the `MoveTo` and `LineTo` elements of `cmds`, in order.
pub open spec fn points_of(cmds: Seq<PathCmd>) -> Seq<[u32; 2]>
    decreases cmds.len(),
{
    if cmds.len() == 0 {
        Seq::empty()
    } else {
        match cmds.last() {
            PathCmd::MoveTo(p) => points_of(cmds.drop_last()).push(p),
            PathCmd::LineTo(p) => points_of(cmds.drop_last()).push(p),
            PathCmd::ClosePath => points_of(cmds.drop_last()),
        }
    }
}

/// Whether `cmds` holds no `ClosePath`.
pub open spec fn unclosed(cmds: Seq<PathCmd>) -> bool {
    forall|i: int| 0 <= i < cmds.len() ==> !(#[trigger] cmds[i] is ClosePath)
}

proof fn lemma_split_unclosed(cmds: Seq<PathCmd>)
    requires
        unclosed(cmds),
    ensures
        split_state(cmds) == (Seq::<Seq<[u32; 2]>>::empty(), points_of(cmds)),
    decreases cmds.len(),
{
    if cmds.len() > 0 {
        assert(!(cmds[cmds.len() - 1] is ClosePath));
        assert forall|i: int| 0 <= i < cmds.drop_last().len() implies !(
        #[trigger] cmds.drop_last()[i] is ClosePath) by {
            assert(cmds.drop_last()[i] == cmds[i]);
        }
        lemma_split_unclosed(cmds.drop_last());
    }
}

proof fn lemma_split_concat(p: Seq<PathCmd>, b: Seq<PathCmd>)
    requires
        split_state(p).1 == Seq::<[u32; 2]>::empty(),
    ensures
        split_state(p + b) == (split_state(p).0 + split_state(b).0, split_state(b).1),
    decreases b.len(),
{
    if b.len() == 0 {
        assert(p + b =~= p);
        assert(split_state(p).0 + Seq::<Seq<[u32; 2]>>::empty() =~= split_state(p).0);
    } else {
        lemma_split_concat(p, b.drop_last());
        assert((p + b).drop_last() =~= p + b.drop_last());
        assert((p + b).last() == b.last());
        let d = split_state(p).0;
        let (bd, bc) = split_state(b.drop_last());
        match b.last() {
            PathCmd::ClosePath => {
                assert((d + bd).push(bc) =~= d + bd.push(bc));
            },
            _ => {},
        }
    }
}

/// The closed sub-paths of an outline, read from the front: an outline that holds no
/// `ClosePath` has none, and a sub-path closed by the first `ClosePath` holds every
/// `MoveTo` and `LineTo` point before it, in order, and is followed by the sub-paths
/// of the rest.
pub proof fn lemma_closed_runs_compose(a: Seq<PathCmd>, b: Seq<PathCmd>)
    requires
        unclosed(a),
    ensures
        closed_runs(a) == Seq::<Seq<[u32; 2]>>::empty(),
        closed_runs(a.push(PathCmd::ClosePath) + b) == seq![points_of(a)] + closed_runs(b),
{
    lemma_split_unclosed(a);
    let ac = a.push(PathCmd::ClosePath);
    assert(ac.drop_last() =~= a);
    assert(split_state(ac) == (seq![points_of(a)], Seq::<[u32; 2]>::empty())) by {
        assert(Seq::<Seq<[u32; 2]>>::empty().push(points_of(a)) =~= seq![points_of(a)]);
    }
    lemma_split_concat(ac, b);
}

/// The views of a list of point runs.
pub open spec fn run_views(runs: Seq<Vec<[u32; 2]>>) -> Seq<Seq<[u32; 2]>> {
    runs.map_values(|r: Vec<[u32; 2]>| r@)
}

impl Shape {
    /// The closed sub-paths of the outline, each as the run of its points in order.
    pub fn closed_outlines(&self) -> (r: Vec<Vec<[u32; 2]>>)
        ensures
            run_views(r@) == closed_runs(self.paths@),
            r@.len() == close_count(self.paths@),
    {
        let mut done: Vec<Vec<[u32; 2]>> = Vec::new();
        let mut cur: Vec<[u32; 2]> = Vec::new();
        let mut i: usize = 0;
        assert(self.paths@.take(0) =~= Seq::<PathCmd>::empty());
        assert(run_views(done@) =~= Seq::<Seq<[u32; 2]>>::empty());
        while i < self.paths.len()
            invariant
                i <= self.paths.len(),
                (run_views(done@), cur@) == split_state(self.paths@.take(i as int)),
            decreases self.paths.len() - i,
        {
            assert(self.paths@.take(i as int + 1).drop_last() =~= self.paths@.take(i as int));
            assert(self.paths@.take(i as int + 1).last() == self.paths@[i as int]);
            match self.paths[i] {
                PathCmd::MoveTo(p) => {
                    cur.push(p);
                },
                PathCmd::LineTo(p) => {
                    cur.push(p);
                },
                PathCmd::ClosePath => {
                    let ghost before = done@;
                    let finished = cur;
                    cur = Vec::new();
                    done.push(finished);
                    assert(run_views(done@) =~= run_views(before).push(finished@));
                    assert(cur@ =~= Seq::<[u32; 2]>::empty());
                },
            }
            i += 1;
        }
        assert(self.paths@.take(self.paths.len() as int) =~= self.paths@);
        proof {
            lemma_closed_runs_count(self.paths@);
        }
        done
    }
}

} // verus!

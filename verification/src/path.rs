use vstd::prelude::*;

verus! {

/// One half of an outline corner: the neighbouring vertex, named by the hash of its
/// position, and the side of the corner on which the triangle lies.
#[derive(Clone, Copy, Debug, PartialEq, Eq, Structural, Hash)]
pub struct Edge {
    pub vertex_hash: usize,
    pub rotation: bool,
}

impl Edge {
    pub fn new(vertex_hash: usize, rotation: bool) -> (e: Edge)
        ensures
            e == (Edge { vertex_hash, rotation }),
    {
        Edge { vertex_hash, rotation }
    }
}

/// The edge that leads to the same neighbour from the other side.
pub open spec fn flip(e: Edge) -> Edge {
    Edge { vertex_hash: e.vertex_hash, rotation: !e.rotation }
}

/// How two corner outlines at the same vertex relate.
#[derive(Clone, Copy, Debug, PartialEq, Eq, Structural)]
pub enum JointLevel {
    /// The outlines only share the vertex itself.
    SharedVertex,
    /// The outlines run along the same neighbour on the same side: they overlap.
    SharedEdge,
    /// The outlines reach the same neighbour from opposite sides and can be merged.
    MergeEdge,
}

/// The outline of the triangles around one vertex, as a set of edges.
///
/// The edges are kept in a vector that holds no edge twice; the vector's order is
/// the order in which the outline is walked.
pub struct Path {
    pub edges: Vec<Edge>,
}

impl View for Path {
    type V = Seq<Edge>;

    open spec fn view(&self) -> Seq<Edge> {
        self.edges@
    }
}

impl Path {
    /// No edge occurs twice.
    pub open spec fn wf(&self) -> bool {
        self@.no_duplicates()
    }

    /// The set of edges of the outline.
    pub open spec fn edge_set(&self) -> Set<Edge> {
        self@.to_set()
    }
}

/// `left` followed by each edge of `right` that is not already there.
pub open spec fn union_of(left: Seq<Edge>, right: Seq<Edge>) -> Seq<Edge>
    decreases right.len(),
{
    if right.len() == 0 {
        left
    } else {
        let u = union_of(left, right.drop_last());
        if u.contains(right.last()) {
            u
        } else {
            u.push(right.last())
        }
    }
}

/// The edges of `s` in order, each first occurrence only.
pub open spec fn dedup(s: Seq<Edge>) -> Seq<Edge> {
    union_of(Seq::empty(), s)
}

/// Keeps an edge unless `other` holds the same neighbour from the other side.
pub open spec fn not_opposed_by(other: Seq<Edge>) -> spec_fn(Edge) -> bool {
    |e: Edge| !other.contains(flip(e))
}

/// The edges of `a` that `b` does not cancel.
pub open spec fn difference_of(a: Seq<Edge>, b: Seq<Edge>) -> Seq<Edge> {
    a.filter(not_opposed_by(b))
}

/// The edges of either outline that the other does not cancel.
pub open spec fn symmetric_difference_of(a: Seq<Edge>, b: Seq<Edge>) -> Seq<Edge> {
    union_of(difference_of(a, b), difference_of(b, a))
}

/// The first edge of `b` that reaches the same neighbour as `e`.
pub open spec fn first_match(e: Edge, b: Seq<Edge>) -> Option<Edge>
    decreases b.len(),
{
    if b.len() == 0 {
        None
    } else if b[0].vertex_hash == e.vertex_hash {
        Some(b[0])
    } else {
        first_match(e, b.drop_first())
    }
}

/// The relation of the first pair of edges (in walking order) that reach the same
/// neighbour.
pub open spec fn joint_level_of(a: Seq<Edge>, b: Seq<Edge>) -> JointLevel
    decreases a.len(),
{
    if a.len() == 0 {
        JointLevel::SharedVertex
    } else {
        match first_match(a[0], b) {
            Some(e2) => if a[0].rotation != e2.rotation {
                JointLevel::MergeEdge
            } else {
                JointLevel::SharedEdge
            },
            None => joint_level_of(a.drop_first(), b),
        }
    }
}

/// Some edge of `a` and some edge of `b` reach the same neighbour.
pub open spec fn share_neighbour(a: Seq<Edge>, b: Seq<Edge>) -> bool {
    exists|i: int, j: int|
        0 <= i < a.len() && 0 <= j < b.len() && #[trigger] a[i].vertex_hash
            == #[trigger] b[j].vertex_hash
}

/// Some edge of `a` reaches the neighbour of some edge of `b` from the other side.
pub open spec fn opposed_pair(a: Seq<Edge>, b: Seq<Edge>) -> bool {
    exists|e: Edge| a.contains(e) && b.contains(flip(e))
}

/// Some edge lies in both.
pub open spec fn common_edge(a: Seq<Edge>, b: Seq<Edge>) -> bool {
    exists|e: Edge| a.contains(e) && b.contains(e)
}

/// `s` reaches the neighbour `h`.
pub open spec fn reaches(s: Seq<Edge>, h: usize) -> bool {
    exists|i: int| 0 <= i < s.len() && #[trigger] s[i].vertex_hash == h
}

/// What `union_of` holds, and that it keeps `left` as its prefix.
pub proof fn lemma_union_contains(left: Seq<Edge>, right: Seq<Edge>)
    ensures
        forall|e: Edge| #[trigger]
            union_of(left, right).contains(e) <==> left.contains(e) || right.contains(e),
        left.no_duplicates() ==> union_of(left, right).no_duplicates(),
        union_of(left, right).len() >= left.len(),
        forall|i: int| 0 <= i < left.len() ==> union_of(left, right)[i] == left[i],
    decreases right.len(),
{
    if right.len() > 0 {
        lemma_union_contains(left, right.drop_last());
        let u = union_of(left, right.drop_last());
        assert forall|e: Edge| #[trigger]
            union_of(left, right).contains(e) <==> left.contains(e) || right.contains(e) by {
            if right.contains(e) && !right.drop_last().contains(e) {
                assert(e == right.last()) by {
                    let k = choose|k: int| 0 <= k < right.len() && right[k] == e;
                    if k < right.len() - 1 {
                        assert(right.drop_last()[k] == e);
                    }
                }
            }
            if right.drop_last().contains(e) {
                let k = choose|k: int| 0 <= k < right.drop_last().len() && right.drop_last()[k] == e;
                assert(right[k] == e);
            }
            if !u.contains(right.last()) {
                assert(u.push(right.last()).last() == right.last());
                if u.push(right.last()).contains(e) && e != right.last() {
                    let k = choose|k: int| 0 <= k < u.push(right.last()).len() && u.push(right.last())[k] == e;
                    assert(u[k] == e);
                }
                if u.contains(e) {
                    let k = choose|k: int| 0 <= k < u.len() && u[k] == e;
                    assert(u.push(right.last())[k] == e);
                }
            }
        }
        if left.no_duplicates() && !u.contains(right.last()) {
            assert(u.push(right.last()).no_duplicates()) by {
                assert forall|i: int, j: int|
                    0 <= i < u.len() + 1 && 0 <= j < u.len() + 1 && i != j implies u.push(
                    right.last(),
                )[i] != u.push(right.last())[j] by {
                    if i == u.len() {
                        assert(u.contains(u[j]));
                    } else if j == u.len() {
                        assert(u.contains(u[i]));
                    }
                }
            }
        }
    }
}

proof fn lemma_difference_contains(a: Seq<Edge>, b: Seq<Edge>)
    ensures
        forall|e: Edge| #[trigger]
            difference_of(a, b).contains(e) <==> a.contains(e) && !b.contains(flip(e)),
        a.no_duplicates() ==> difference_of(a, b).no_duplicates(),
    decreases a.len(),
{
    reveal(Seq::filter);
    if a.len() > 0 {
        lemma_difference_contains(a.drop_last(), b);
        let d = difference_of(a.drop_last(), b);
        assert(a.drop_last().filter(not_opposed_by(b)) == d);
        assert forall|e: Edge| #[trigger]
            difference_of(a, b).contains(e) <==> a.contains(e) && !b.contains(flip(e)) by {
            if a.contains(e) {
                let k = choose|k: int| 0 <= k < a.len() && a[k] == e;
                if k < a.len() - 1 {
                    assert(a.drop_last()[k] == e);
                }
            }
            if a.drop_last().contains(e) {
                let k = choose|k: int| 0 <= k < a.drop_last().len() && a.drop_last()[k] == e;
                assert(a[k] == e);
            }
            if !b.contains(flip(a.last())) {
                assert(d.push(a.last()).last() == a.last());
                if d.push(a.last()).contains(e) && e != a.last() {
                    let k = choose|k: int| 0 <= k < d.push(a.last()).len() && d.push(a.last())[k] == e;
                    assert(d[k] == e);
                }
                if d.contains(e) {
                    let k = choose|k: int| 0 <= k < d.len() && d[k] == e;
                    assert(d.push(a.last())[k] == e);
                }
            }
        }
        if a.no_duplicates() {
            assert(a.drop_last().no_duplicates()) by {
                assert forall|i: int, j: int|
                    0 <= i < a.len() - 1 && 0 <= j < a.len() - 1 && i != j implies a.drop_last()[i]
                    != a.drop_last()[j] by {
                    assert(a[i] != a[j]);
                }
            }
            if !b.contains(flip(a.last())) {
                assert(!a.drop_last().contains(a.last())) by {
                    if a.drop_last().contains(a.last()) {
                        let k = choose|k: int|
                            0 <= k < a.drop_last().len() && a.drop_last()[k] == a.last();
                        assert(a[k] == a[a.len() - 1]);
                    }
                }
                assert(!d.contains(a.last()));
                assert(d.push(a.last()).no_duplicates()) by {
                    assert forall|i: int, j: int|
                        0 <= i < d.len() + 1 && 0 <= j < d.len() + 1 && i != j implies d.push(
                        a.last(),
                    )[i] != d.push(a.last())[j] by {
                        if i == d.len() {
                            assert(d.contains(d[j]));
                        } else if j == d.len() {
                            assert(d.contains(d[i]));
                        }
                    }
                }
            }
        }
    }
}

/// What the edges of a symmetric difference are, as a set.
pub proof fn lemma_symmetric_difference_contains(a: Seq<Edge>, b: Seq<Edge>)
    ensures
        forall|e: Edge| #[trigger]
            symmetric_difference_of(a, b).contains(e) <==> (a.contains(e) && !b.contains(flip(e)))
                || (b.contains(e) && !a.contains(flip(e))),
        a.no_duplicates() ==> symmetric_difference_of(a, b).no_duplicates(),
{
    lemma_difference_contains(a, b);
    lemma_difference_contains(b, a);
    lemma_union_contains(difference_of(a, b), difference_of(b, a));
}

/// Merging is commutative: either order gives the same set of edges.
pub proof fn lemma_merge_commutes(a: Seq<Edge>, b: Seq<Edge>)
    ensures
        symmetric_difference_of(a, b).to_set() == symmetric_difference_of(b, a).to_set(),
{
    lemma_symmetric_difference_contains(a, b);
    lemma_symmetric_difference_contains(b, a);
    assert(symmetric_difference_of(a, b).to_set() =~= symmetric_difference_of(b, a).to_set());
}

/// Merging with an empty outline changes no edge.
pub proof fn lemma_merge_empty(a: Seq<Edge>)
    ensures
        symmetric_difference_of(a, Seq::empty()).to_set() == a.to_set(),
{
    lemma_symmetric_difference_contains(a, Seq::empty());
    assert(symmetric_difference_of(a, Seq::empty()).to_set() =~= a.to_set());
}

/// Merging two outlines that reach no common neighbour from opposite sides keeps
/// every edge of both.
pub proof fn lemma_merge_without_opposition(a: Seq<Edge>, b: Seq<Edge>)
    requires
        !opposed_pair(a, b),
        !opposed_pair(b, a),
    ensures
        symmetric_difference_of(a, b).to_set() == a.to_set() + b.to_set(),
{
    lemma_symmetric_difference_contains(a, b);
    assert forall|e: Edge| #[trigger] symmetric_difference_of(a, b).to_set().contains(e) == (a.to_set() + b.to_set()).contains(e) by {
        if a.contains(e) && b.contains(flip(e)) {
            assert(opposed_pair(a, b));
        }
        if b.contains(e) && a.contains(flip(e)) {
            assert(opposed_pair(b, a));
        }
    }
    assert(symmetric_difference_of(a, b).to_set() =~= a.to_set() + b.to_set());
}

/// A merge drops exactly the edges that the other outline reaches from the opposite
/// side: an edge of `a` alone survives unless `b` holds its flip.
pub proof fn lemma_merge_drops_opposed(a: Seq<Edge>, b: Seq<Edge>, e: Edge)
    requires
        a.contains(e),
        !b.contains(e),
    ensures
        symmetric_difference_of(a, b).contains(e) <==> !b.contains(flip(e)),
{
    lemma_symmetric_difference_contains(a, b);
}

/// Whether two outlines share more than their vertex does not depend on which one
/// asks.
pub proof fn lemma_joint_level_shared_vertex_symmetric(a: Seq<Edge>, b: Seq<Edge>)
    ensures
        (joint_level_of(a, b) == JointLevel::SharedVertex) == (joint_level_of(b, a)
            == JointLevel::SharedVertex),
{
    lemma_joint_level_facts(a, b);
    lemma_joint_level_facts(b, a);
    if share_neighbour(a, b) {
        let (i, j) = choose|i: int, j: int|
            0 <= i < a.len() && 0 <= j < b.len() && #[trigger] a[i].vertex_hash == #[trigger] b[j].vertex_hash;
        assert(b[j].vertex_hash == a[i].vertex_hash);
    }
    if share_neighbour(b, a) {
        let (i, j) = choose|i: int, j: int|
            0 <= i < b.len() && 0 <= j < a.len() && #[trigger] b[i].vertex_hash == #[trigger] a[j].vertex_hash;
        assert(a[j].vertex_hash == b[i].vertex_hash);
    }
}

/// Whether `edges` holds `e`.
fn holds_edge(edges: &Vec<Edge>, e: Edge) -> (r: bool)
    ensures
        r == edges@.contains(e),
{
    let mut i: usize = 0;
    while i < edges.len()
        invariant
            i <= edges.len(),
            forall|k: int| 0 <= k < i ==> edges@[k] != e,
        decreases edges.len() - i,
    {
        if edges[i] == e {
            return true;
        }
        i += 1;
    }
    false
}

/// Adds to `out` each edge of `right` that it does not hold yet.
fn extend_unique(out: &mut Vec<Edge>, right: &Vec<Edge>)
    ensures
        final(out)@ == union_of(old(out)@, right@),
{
    let ghost start = out@;
    let mut i: usize = 0;
    while i < right.len()
        invariant
            i <= right.len(),
            out@ == union_of(start, right@.take(i as int)),
        decreases right.len() - i,
    {
        assert(right@.take(i as int + 1).drop_last() =~= right@.take(i as int));
        let e = right[i];
        if !holds_edge(out, e) {
            out.push(e);
        }
        i += 1;
    }
    assert(right@.take(right.len() as int) =~= right@);
}

impl Path {
    /// The outline made of the given edges, each kept once.
    pub fn new(edges: Vec<Edge>) -> (p: Path)
        ensures
            p@ == dedup(edges@),
            p.wf(),
            p.edge_set() == edges@.to_set(),
    {
        let mut out: Vec<Edge> = Vec::new();
        extend_unique(&mut out, &edges);
        proof {
            lemma_union_contains(Seq::empty(), edges@);
            assert(out@.to_set() =~= edges@.to_set());
        }
        Path { edges: out }
    }

    /// This outline with the edges of `other` merged in: what is left of both once
    /// the edges that the other reaches from the opposite side are dropped.
    pub fn merge(self, other: Path) -> (p: Path)
        ensures
            p@ == symmetric_difference_of(self@, other@),
            self.wf() ==> p.wf(),
            p.edge_set() == Set::new(
                |e: Edge|
                    (self@.contains(e) && !other@.contains(flip(e))) || (other@.contains(e)
                        && !self@.contains(flip(e))),
            ),
    {
        let edges = self.symmetric_difference(&other);
        proof {
            lemma_symmetric_difference_contains(self@, other@);
            assert(edges@.to_set() =~= Set::new(
                |e: Edge|
                    (self@.contains(e) && !other@.contains(flip(e))) || (other@.contains(e)
                        && !self@.contains(flip(e))),
            ));
        }
        Path { edges }
    }

    pub fn is_empty(&self) -> (r: bool)
        ensures
            r == (self@.len() == 0),
            r == (self.edge_set() == Set::<Edge>::empty()),
    {
        proof {
            if self@.len() > 0 {
                assert(self.edge_set().contains(self@[0]));
            }
            if self@.len() == 0 {
                assert(self.edge_set() =~= Set::<Edge>::empty());
            }
        }
        self.edges.len() == 0
    }

    /// Whether some edge of the outline reaches the vertex with hash `vertex_hash`.
    pub fn contains(&self, vertex_hash: usize) -> (r: bool)
        ensures
            r == reaches(self@, vertex_hash),
    {
        let mut i: usize = 0;
        while i < self.edges.len()
            invariant
                i <= self.edges.len(),
                forall|k: int| 0 <= k < i ==> self@[k].vertex_hash != vertex_hash,
            decreases self.edges.len() - i,
        {
            if self.edges[i].vertex_hash == vertex_hash {
                return true;
            }
            i += 1;
        }
        false
    }

    /// How this outline meets `other`, decided by the first pair of edges (in
    /// walking order) that reach the same neighbour.
    pub fn joint_level(&self, other: &Path) -> (r: JointLevel)
        ensures
            r == joint_level_of(self@, other@),
            (r == JointLevel::SharedVertex) == !share_neighbour(self@, other@),
            r == JointLevel::MergeEdge ==> opposed_pair(self@, other@),
            r == JointLevel::SharedEdge ==> common_edge(self@, other@),
    {
        proof {
            lemma_joint_level_facts(self@, other@);
        }
        let mut i: usize = 0;
        assert(self@.skip(0) =~= self@);
        while i < self.edges.len()
            invariant
                i <= self.edges.len(),
                joint_level_of(self@, other@) == joint_level_of(self@.skip(i as int), other@),
            decreases self.edges.len() - i,
        {
            let e1 = self.edges[i];
            let mut j: usize = 0;
            assert(other@.skip(0) =~= other@);
            while j < other.edges.len()
                invariant
                    i < self.edges.len(),
                    e1 == self@[i as int],
                    joint_level_of(self@, other@) == joint_level_of(self@.skip(i as int), other@),
                    j <= other.edges.len(),
                    first_match(e1, other@) == first_match(e1, other@.skip(j as int)),
                decreases other.edges.len() - j,
            {
                let e2 = other.edges[j];
                assert(other@.skip(j as int)[0] == e2);
                if e1.vertex_hash == e2.vertex_hash {
                    assert(self@.skip(i as int)[0] == e1);
                    assert(first_match(e1, other@.skip(j as int)) == Some(e2));
                    assert(first_match(self@.skip(i as int)[0], other@) == Some(e2));
                    assert(self@.skip(i as int).len() > 0);
                    if e1.rotation != e2.rotation {
                        assert(joint_level_of(self@.skip(i as int), other@) == JointLevel::MergeEdge);
                        proof {
                            lemma_joint_level_facts(self@, other@);
                        }
                        return JointLevel::MergeEdge;
                    }
                    assert(joint_level_of(self@.skip(i as int), other@) == JointLevel::SharedEdge);
                    proof {
                        lemma_joint_level_facts(self@, other@);
                    }
                    return JointLevel::SharedEdge;
                }
                assert(other@.skip(j as int).drop_first() =~= other@.skip(j as int + 1));
                j += 1;
            }
            assert(self@.skip(i as int)[0] == e1);
            assert(other@.skip(j as int) =~= Seq::<Edge>::empty());
            assert(self@.skip(i as int).drop_first() =~= self@.skip(i as int + 1));
            i += 1;
        }
        assert(self@.skip(i as int) =~= Seq::<Edge>::empty());
        JointLevel::SharedVertex
    }

    /// The edges of this outline that `other` does not reach from the opposite side.
    pub fn difference(&self, other: &Path) -> (out: Vec<Edge>)
        ensures
            out@ == difference_of(self@, other@),
            self.wf() ==> out@.no_duplicates(),
            forall|e: Edge| #[trigger]
                out@.contains(e) <==> self@.contains(e) && !other@.contains(flip(e)),
    {
        let mut out: Vec<Edge> = Vec::new();
        let mut i: usize = 0;
        while i < self.edges.len()
            invariant
                i <= self.edges.len(),
                out@ == self@.take(i as int).filter(not_opposed_by(other@)),
            decreases self.edges.len() - i,
        {
            let e1 = self.edges[i];
            assert(self@.take(i as int + 1) =~= self@.take(i as int).push(e1));
            proof {
                self@.take(i as int).lemma_filter_push(e1, not_opposed_by(other@));
            }
            let opposed = holds_edge(&other.edges, Edge { vertex_hash: e1.vertex_hash, rotation: !e1.rotation });
            assert(flip(e1) == (Edge { vertex_hash: e1.vertex_hash, rotation: !e1.rotation }));
            if !opposed {
                out.push(e1);
            }
            i += 1;
        }
        assert(self@.take(self.edges.len() as int) =~= self@);
        assert(out@ == difference_of(self@, other@));
        proof {
            lemma_difference_contains(self@, other@);
        }
        out
    }

    /// The edges of either outline that the other does not reach from the opposite
    /// side, each kept once.
    pub fn symmetric_difference(&self, other: &Path) -> (out: Vec<Edge>)
        ensures
            out@ == symmetric_difference_of(self@, other@),
            self.wf() ==> out@.no_duplicates(),
    {
        let mut left = self.difference(other);
        let right = other.difference(self);
        extend_unique(&mut left, &right);
        proof {
            lemma_symmetric_difference_contains(self@, other@);
        }
        left
    }

    /// Whether both outlines have the same set of edges.
    pub fn same_edges(&self, other: &Path) -> (r: bool)
        ensures
            r == (self.edge_set() == other.edge_set()),
    {
        let mut i: usize = 0;
        while i < self.edges.len()
            invariant
                i <= self.edges.len(),
                forall|k: int| 0 <= k < i ==> other@.contains(#[trigger] self@[k]),
            decreases self.edges.len() - i,
        {
            if !holds_edge(&other.edges, self.edges[i]) {
                proof {
                    assert(self.edge_set().contains(self@[i as int]));
                }
                return false;
            }
            i += 1;
        }
        let mut j: usize = 0;
        while j < other.edges.len()
            invariant
                j <= other.edges.len(),
                forall|k: int| 0 <= k < self@.len() ==> other@.contains(#[trigger] self@[k]),
                forall|k: int| 0 <= k < j ==> self@.contains(#[trigger] other@[k]),
            decreases other.edges.len() - j,
        {
            if !holds_edge(&self.edges, other.edges[j]) {
                proof {
                    assert(other.edge_set().contains(other@[j as int]));
                }
                return false;
            }
            j += 1;
        }
        proof {
            assert forall|e: Edge| self.edge_set().contains(e) <==> other.edge_set().contains(e) by {
                if self@.contains(e) {
                    let k = choose|k: int| 0 <= k < self@.len() && self@[k] == e;
                    assert(other@.contains(self@[k]));
                }
                if other@.contains(e) {
                    let k = choose|k: int| 0 <= k < other@.len() && other@[k] == e;
                    assert(self@.contains(other@[k]));
                }
            }
            assert(self.edge_set() =~= other.edge_set());
        }
        true
    }

    /// A copy of the outline, edges in the same order.
    pub fn duplicate(&self) -> (p: Path)
        ensures
            p@ == self@,
    {
        let mut out: Vec<Edge> = Vec::new();
        let mut i: usize = 0;
        while i < self.edges.len()
            invariant
                i <= self.edges.len(),
                out@ == self@.take(i as int),
            decreases self.edges.len() - i,
        {
            out.push(self.edges[i]);
            assert(self@.take(i as int + 1) =~= self@.take(i as int).push(self@[i as int]));
            i += 1;
        }
        assert(self@.take(self.edges.len() as int) =~= self@);
        Path { edges: out }
    }
}

proof fn lemma_first_match_facts(e: Edge, b: Seq<Edge>)
    ensures
        first_match(e, b) is None <==> !reaches(b, e.vertex_hash),
        first_match(e, b) matches Some(e2) ==> b.contains(e2) && e2.vertex_hash == e.vertex_hash,
    decreases b.len(),
{
    if b.len() > 0 {
        lemma_first_match_facts(e, b.drop_first());
        if b[0].vertex_hash != e.vertex_hash {
            if reaches(b, e.vertex_hash) {
                let k = choose|k: int| 0 <= k < b.len() && #[trigger] b[k].vertex_hash == e.vertex_hash;
                assert(b.drop_first()[k - 1].vertex_hash == e.vertex_hash);
            }
            if reaches(b.drop_first(), e.vertex_hash) {
                let k = choose|k: int|
                    0 <= k < b.drop_first().len() && #[trigger] b.drop_first()[k].vertex_hash
                        == e.vertex_hash;
                assert(b[k + 1].vertex_hash == e.vertex_hash);
            }
            if let Some(e2) = first_match(e, b) {
                let k = choose|k: int| 0 <= k < b.drop_first().len() && b.drop_first()[k] == e2;
                assert(b[k + 1] == e2);
            }
        } else {
            assert(b[0].vertex_hash == e.vertex_hash);
            assert(b.contains(b[0]));
        }
    }
}

proof fn lemma_joint_level_facts(a: Seq<Edge>, b: Seq<Edge>)
    ensures
        (joint_level_of(a, b) == JointLevel::SharedVertex) == !share_neighbour(a, b),
        joint_level_of(a, b) == JointLevel::MergeEdge ==> opposed_pair(a, b),
        joint_level_of(a, b) == JointLevel::SharedEdge ==> common_edge(a, b),
    decreases a.len(),
{
    if a.len() > 0 {
        lemma_joint_level_facts(a.drop_first(), b);
        lemma_first_match_facts(a[0], b);
        match first_match(a[0], b) {
            Some(e2) => {
                let j = choose|j: int| 0 <= j < b.len() && b[j] == e2;
                assert(a[0].vertex_hash == b[j].vertex_hash);
                assert(a.contains(a[0]));
                if a[0].rotation != e2.rotation {
                    assert(flip(a[0]) == e2);
                    assert(a.contains(a[0]) && b.contains(flip(a[0])));
                } else {
                    assert(a[0] == e2);
                }
            },
            None => {
                if share_neighbour(a, b) {
                    let (i, j) = choose|i: int, j: int|
                        0 <= i < a.len() && 0 <= j < b.len() && #[trigger] a[i].vertex_hash
                            == #[trigger] b[j].vertex_hash;
                    assert(reaches(b, a[i].vertex_hash));
                    if i == 0 {
                        assert(reaches(b, a[0].vertex_hash));
                    }
                    assert(a.drop_first()[i - 1].vertex_hash == b[j].vertex_hash);
                }
                if share_neighbour(a.drop_first(), b) {
                    let (i, j) = choose|i: int, j: int|
                        0 <= i < a.drop_first().len() && 0 <= j < b.len()
                            && #[trigger] a.drop_first()[i].vertex_hash == #[trigger] b[j].vertex_hash;
                    assert(a[i + 1].vertex_hash == b[j].vertex_hash);
                }
                if opposed_pair(a.drop_first(), b) {
                    let e = choose|e: Edge| a.drop_first().contains(e) && b.contains(flip(e));
                    let k = choose|k: int| 0 <= k < a.drop_first().len() && a.drop_first()[k] == e;
                    assert(a[k + 1] == e);
                    assert(a.contains(e) && b.contains(flip(e)));
                }
                if common_edge(a.drop_first(), b) {
                    let e = choose|e: Edge| a.drop_first().contains(e) && b.contains(e);
                    let k = choose|k: int| 0 <= k < a.drop_first().len() && a.drop_first()[k] == e;
                    assert(a[k + 1] == e);
                    assert(a.contains(e) && b.contains(e));
                }
            },
        }
    }
}

} // verus!

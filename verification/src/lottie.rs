use vstd::prelude::*;

use crate::shape::{closed_runs, split_state, MeshShape, PathCmd};

verus! {

/// One closed sub-path of a shape group: its points, as the bit patterns of their
/// `f32` drawing-plane coordinates.
pub struct Stroke {
    pub items: Vec<[u32; 2]>,
}

impl Stroke {
    pub fn new() -> (s: Stroke)
        ensures
            s.items@ == Seq::<[u32; 2]>::empty(),
    {
        Stroke { items: Vec::new() }
    }

    pub fn add(&mut self, item: [u32; 2])
        ensures
            final(self).items@ == old(self).items@.push(item),
    {
        self.items.push(item)
    }
}

/// An element of a shape group: a closed sub-path, or the fill of the group.
pub enum GroupItem<C> {
    Stroke(Stroke),
    Fill(C),
}

/// A named shape group: its sub-paths followed by its fill.
pub struct Group<C> {
    pub name: String,
    pub items: Vec<GroupItem<C>>,
}

impl<C> Group<C> {
    pub fn new(name: String) -> (g: Group<C>)
        ensures
            g.name@ == name@,
            g.items@ == Seq::<GroupItem<C>>::empty(),
    {
        Group { name, items: Vec::new() }
    }

    pub fn add(&mut self, item: GroupItem<C>)
        ensures
            final(self).name@ == old(self).name@,
            final(self).items@ == old(self).items@.push(item),
    {
        self.items.push(item);
    }
}

/// One layer of the animation: shown from frame `ip` up to frame `op`.
pub struct Layer<C> {
    pub name: String,
    pub ip: u64,
    pub op: u64,
    pub shapes: Vec<Group<C>>,
}

/// An animation being assembled: its layers in order and its frame rate.
pub struct Lottie<C> {
    pub layers: Vec<Layer<C>>,
    pub framerate: u64,
}

/// The group a mesh outline becomes: named `group`, one stroke per closed sub-path
/// of the outline (points after the last `ClosePath` are dropped), then the fill in
/// the outline's colour.
pub open spec fn group_of<C, I>(g: Group<C>, ms: MeshShape<C, I>) -> bool {
    let runs = closed_runs(ms.shape.paths@);
    &&& g.name@ == "group"@
    &&& g.items@.len() == runs.len() + 1
    &&& forall|t: int|
        0 <= t < runs.len() ==> (#[trigger] g.items@[t] matches GroupItem::Stroke(s) && s.items@
            == runs[t])
    &&& g.items@[runs.len() as int] matches GroupItem::Fill(c) && c == ms.color
}

/// The strokes of a group so far: one per closed run.
pub open spec fn strokes_match<C>(items: Seq<GroupItem<C>>, runs: Seq<Seq<[u32; 2]>>) -> bool {
    &&& items.len() == runs.len()
    &&& forall|t: int|
        0 <= t < runs.len() ==> (#[trigger] items[t] matches GroupItem::Stroke(s) && s.items@
            == runs[t])
}

impl<C> Lottie<C> {
    pub fn new(framerate: u64) -> (l: Lottie<C>)
        ensures
            l.layers@.len() == 0,
            l.framerate == framerate,
    {
        Lottie { layers: Vec::new(), framerate }
    }

    /// Adds a layer named `name`, shown from frame `ip` up to frame `op`, with one
    /// group per mesh outline, in order (see `group_of`).
    pub fn add_layer<I>(&mut self, mesh_shapes: Vec<MeshShape<C, I>>, name: &str, ip: u64, op: u64)
        ensures
            final(self).framerate == old(self).framerate,
            final(self).layers@.len() == old(self).layers@.len() + 1,
            forall|k: int|
                0 <= k < old(self).layers@.len() ==> #[trigger] final(self).layers@[k] == old(
                    self,
                ).layers@[k],
            ({
                let layer = final(self).layers@[old(self).layers@.len() as int];
                &&& layer.name@ == name@
                &&& layer.ip == ip
                &&& layer.op == op
                &&& layer.shapes@.len() == mesh_shapes@.len()
                &&& forall|j: int|
                    0 <= j < mesh_shapes@.len() ==> group_of(
                        #[trigger] layer.shapes@[j],
                        mesh_shapes@[j],
                    )
            }),
    {
        let ghost all = mesh_shapes@;
        let count = mesh_shapes.len();
        let mut rest = mesh_shapes;
        let mut shapes: Vec<Group<C>> = Vec::new();
        let mut done: usize = 0;
        assert(rest@ =~= all.skip(0));
        while rest.len() > 0
            invariant
                all.len() == count,
                done <= count,
                rest@ == all.skip(done as int),
                shapes@.len() == done,
                forall|j: int| 0 <= j < done ==> group_of(#[trigger] shapes@[j], all[j]),
            decreases rest.len(),
        {
            assert(done < count);
            let ms = rest.remove(0);
            assert(ms == all[done as int]);
            assert(rest@ =~= all.skip(done as int + 1));
            let mut shape: Group<C> = Group::new("group".to_owned());
            let mut stroke = Stroke::new();
            let paths = &ms.shape.paths;
            let mut i: usize = 0;
            assert(paths@.take(0) =~= Seq::<PathCmd>::empty());
            while i < paths.len()
                invariant
                    i <= paths.len(),
                    shape.name@ == "group"@,
                    strokes_match(shape.items@, split_state(paths@.take(i as int)).0),
                    stroke.items@ == split_state(paths@.take(i as int)).1,
                decreases paths.len() - i,
            {
                assert(paths@.take(i as int + 1).drop_last() =~= paths@.take(i as int));
                assert(paths@.take(i as int + 1).last() == paths@[i as int]);
                match paths[i] {
                    PathCmd::MoveTo(p) => {
                        stroke.add(p);
                    },
                    PathCmd::LineTo(p) => {
                        stroke.add(p);
                    },
                    PathCmd::ClosePath => {
                        let ghost before = shape.items@;
                        let ghost runs = split_state(paths@.take(i as int)).0;
                        let finished = stroke;
                        let ghost fin = finished.items@;
                        shape.add(GroupItem::Stroke(finished));
                        stroke = Stroke::new();
                        assert forall|t: int| 0 <= t < runs.push(fin).len() implies (
                        #[trigger] shape.items@[t] matches GroupItem::Stroke(s) && s.items@ == runs.push(
                            fin,
                        )[t]) by {
                            if t < runs.len() {
                                assert(shape.items@[t] == before[t]);
                            }
                        }
                    },
                }
                i += 1;
            }
            assert(paths@.take(paths.len() as int) =~= paths@);
            let ghost runs = closed_runs(ms.shape.paths@);
            let ghost before = shape.items@;
            shape.add(GroupItem::Fill(ms.color));
            assert forall|t: int| 0 <= t < runs.len() implies (#[trigger] shape.items@[t] matches GroupItem::Stroke(
                s,
            ) && s.items@ == runs[t]) by {
                assert(shape.items@[t] == before[t]);
            }
            shapes.push(shape);
            done += 1;
        }
        assert(done == count);
        self.layers.push(Layer { name: name.to_owned(), ip, op, shapes });
    }
}

} // verus!

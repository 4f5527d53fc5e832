use vstd::prelude::*;

use crate::shape::MeshShape;

verus! {

/// Frames per second of the exported animation.
pub const FRAME_RATE: u64 = 30;

/// Number of the last frame of the exported animation.
pub const FRAMES: u64 = 60;

/// The frame cursor of the preview and of the export, with the outlines drawn for
/// the current frame.
pub struct FrameStepper<C, I> {
    pub current_frame: u64,
    pub total_frames: u64,
    pub updated: bool,
    pub is_animation_playing: bool,
    pub shapes_buffer: Option<Vec<MeshShape<C, I>>>,
}

/// The frame one step back: one less, but never below zero.
pub open spec fn frame_back(frame: u64) -> u64 {
    if frame > 0 {
        (frame - 1) as u64
    } else {
        frame
    }
}

/// The frame one step forward: one more, but never past `total`.
pub open spec fn frame_forward(frame: u64, total: u64) -> u64 {
    if frame < total {
        (frame + 1) as u64
    } else {
        frame
    }
}

impl<C, I> Default for FrameStepper<C, I> {
    fn default() -> (fs: Self)
        ensures
            fs.current_frame == 0,
            fs.total_frames == 0,
            !fs.updated,
            !fs.is_animation_playing,
            fs.shapes_buffer is None,
    {
        FrameStepper {
            current_frame: 0,
            total_frames: 0,
            updated: false,
            is_animation_playing: false,
            shapes_buffer: None,
        }
    }
}

impl<C, I> FrameStepper<C, I> {
    /// A stepper at frame 0 of `total_frames`, marked as updated and not playing.
    pub fn new(total_frames: u64) -> (fs: Self)
        ensures
            fs.current_frame == 0,
            fs.total_frames == total_frames,
            fs.updated,
            !fs.is_animation_playing,
            fs.shapes_buffer is None,
    {
        FrameStepper {
            current_frame: 0,
            total_frames,
            updated: true,
            is_animation_playing: false,
            shapes_buffer: None,
        }
    }

    /// Steps one frame back, unless at the first frame.
    pub fn back(&mut self)
        ensures
            final(self).current_frame == frame_back(old(self).current_frame),
            final(self).updated == (old(self).updated || old(self).current_frame > 0),
            final(self).total_frames == old(self).total_frames,
            final(self).is_animation_playing == old(self).is_animation_playing,
            final(self).shapes_buffer == old(self).shapes_buffer,
    {
        if self.current_frame > 0 {
            self.updated = true;
            self.current_frame -= 1;
        }
    }

    /// Steps one frame forward, unless at the last frame.
    pub fn forward(&mut self)
        ensures
            final(self).current_frame == frame_forward(old(self).current_frame, old(self).total_frames),
            final(self).updated == (old(self).updated || old(self).current_frame
                < old(self).total_frames),
            final(self).total_frames == old(self).total_frames,
            final(self).is_animation_playing == old(self).is_animation_playing,
            final(self).shapes_buffer == old(self).shapes_buffer,
    {
        if self.current_frame < self.total_frames {
            self.updated = true;
            self.current_frame += 1;
        }
    }
}

impl<C, I> FrameStepper<C, I> {
    /// Steps one frame back and drops the kept outlines, which belong to the old frame.
    pub fn step_back(&mut self)
        ensures
            final(self).current_frame == frame_back(old(self).current_frame),
            final(self).updated == (old(self).updated || old(self).current_frame > 0),
            final(self).total_frames == old(self).total_frames,
            final(self).is_animation_playing == old(self).is_animation_playing,
            final(self).shapes_buffer is None,
    {
        self.back();
        self.shapes_buffer = None;
    }

    /// Steps one frame forward and drops the kept outlines, which belong to the old
    /// frame.
    pub fn step_forward(&mut self)
        ensures
            final(self).current_frame == frame_forward(old(self).current_frame, old(self).total_frames),
            final(self).updated == (old(self).updated || old(self).current_frame
                < old(self).total_frames),
            final(self).total_frames == old(self).total_frames,
            final(self).is_animation_playing == old(self).is_animation_playing,
            final(self).shapes_buffer is None,
    {
        self.forward();
        self.shapes_buffer = None;
    }

    /// Play/pause: a paused animation resumes and a playing one pauses; returns
    /// whether the animation now plays.
    pub fn toggle_play(&mut self, paused: bool) -> (playing: bool)
        ensures
            playing == paused,
            final(self).is_animation_playing == paused,
            final(self).current_frame == old(self).current_frame,
            final(self).total_frames == old(self).total_frames,
            final(self).updated == old(self).updated,
            final(self).shapes_buffer == old(self).shapes_buffer,
    {
        self.is_animation_playing = paused;
        paused
    }
}

/// What to do with outlines made anew while the animation stands still.
#[derive(Clone, Copy, Debug, PartialEq, Eq, Structural)]
pub enum FrameKeep {
    /// The frame is one of the exported frames but has no outline: draw nothing.
    Empty,
    /// Keep the outlines as the exported frame with this index, then draw them.
    Store(usize),
    /// The frame lies past the exported frames: just draw.
    Beyond,
}

/// Decides what becomes of the outlines made anew at `current_frame`.
pub fn keep_rebuilt(current_frame: u64, count: usize) -> (r: FrameKeep)
    ensures
        current_frame < FRAMES && count == 0 ==> r == FrameKeep::Empty,
        current_frame < FRAMES && count > 0 ==> r == FrameKeep::Store(current_frame as usize),
        current_frame >= FRAMES ==> r == FrameKeep::Beyond,
{
    if current_frame < FRAMES {
        if count == 0 {
            FrameKeep::Empty
        } else {
            FrameKeep::Store(current_frame as usize)
        }
    } else {
        FrameKeep::Beyond
    }
}

/// Swaps two entries of a drawing order (moving a layer up or down).
pub fn swap_layers(ordering: &mut Vec<usize>, i: usize, j: usize)
    requires
        i < old(ordering)@.len(),
        j < old(ordering)@.len(),
    ensures
        final(ordering)@ == old(ordering)@.update(i as int, old(ordering)@[j as int]).update(
            j as int,
            old(ordering)@[i as int],
        ),
{
    let a = ordering[i];
    let b = ordering[j];
    ordering.set(i, b);
    ordering.set(j, a);
}

/// Swapping the same two layers twice restores the order.
pub proof fn lemma_swap_twice(s: Seq<usize>, i: int, j: int)
    requires
        0 <= i < s.len(),
        0 <= j < s.len(),
    ensures
        ({
            let t = s.update(i, s[j]).update(j, s[i]);
            t.update(i, t[j]).update(j, t[i])
        }) == s,
{
    let t = s.update(i, s[j]).update(j, s[i]);
    assert(t.update(i, t[j]).update(j, t[i]) =~= s);
}

/// The sum of the first `n` vertex counts.
pub open spec fn count_prefix(counts: Seq<usize>, n: int) -> int
    decreases n,
{
    if n <= 0 {
        0
    } else {
        count_prefix(counts, n - 1) + counts[n - 1]
    }
}

/// Where each mesh's vertices start in one buffer holding all meshes one after the
/// other (as `u32`, as the shader reads them), and the number of vertices in all.
pub fn mesh_offsets(counts: &Vec<usize>) -> (r: (Vec<u32>, usize))
    requires
        count_prefix(counts@, counts@.len() as int) <= usize::MAX,
    ensures
        r.0@.len() == counts@.len(),
        forall|i: int| 0 <= i < counts@.len() ==> #[trigger] r.0@[i] == count_prefix(counts@, i) as u32,
        r.1 == count_prefix(counts@, counts@.len() as int),
{
    let mut offsets: Vec<u32> = Vec::new();
    let mut total: usize = 0;
    let mut i: usize = 0;
    while i < counts.len()
        invariant
            i <= counts.len(),
            count_prefix(counts@, counts@.len() as int) <= usize::MAX,
            offsets@.len() == i,
            total == count_prefix(counts@, i as int),
            forall|k: int| 0 <= k < i ==> #[trigger] offsets@[k] == count_prefix(counts@, k) as u32,
        decreases counts.len() - i,
    {
        proof {
            lemma_count_prefix_mono(counts@, i as int + 1, counts@.len() as int);
        }
        #[verifier::truncate]
        let low = total as u32;
        offsets.push(low);
        total = total + counts[i];
        i += 1;
    }
    (offsets, total)
}

proof fn lemma_count_prefix_mono(counts: Seq<usize>, a: int, b: int)
    requires
        0 <= a <= b <= counts.len(),
    ensures
        count_prefix(counts, a) <= count_prefix(counts, b),
    decreases b - a,
{
    if a < b {
        lemma_count_prefix_mono(counts, a, b - 1);
    }
}

/// Stepping never leaves the range of frames: a frame within `0..=total` stays there.
pub proof fn lemma_steps_stay_in_range(frame: u64, total: u64)
    requires
        frame <= total,
    ensures
        frame_back(frame) <= total,
        frame_forward(frame, total) <= total,
{
}

/// A step forward undoes a step back, away from the first frame.
pub proof fn lemma_forward_undoes_back(frame: u64, total: u64)
    requires
        0 < frame <= total,
    ensures
        frame_forward(frame_back(frame), total) == frame,
{
}

/// A step back undoes a step forward, away from the last frame.
pub proof fn lemma_back_undoes_forward(frame: u64, total: u64)
    requires
        frame < total,
    ensures
        frame_back(frame_forward(frame, total)) == frame,
{
}

/// At either end a step towards the end changes nothing.
pub proof fn lemma_steps_stop_at_ends(total: u64)
    ensures
        frame_back(0) == 0,
        frame_forward(total, total) == total,
{
}

/// The meshes of the scene as last read from the GPU, the order in which their
/// outlines are drawn, and whether fresh vertex positions have arrived.
pub struct CachedMeshData<M> {
    pub meshes: Vec<M>,
    pub ordering: Vec<usize>,
    pub gpu_update: bool,
}

impl<M> Default for CachedMeshData<M> {
    fn default() -> (d: Self)
        ensures
            d.meshes@.len() == 0,
            d.ordering@.len() == 0,
            !d.gpu_update,
    {
        CachedMeshData { meshes: Vec::new(), ordering: Vec::new(), gpu_update: false }
    }
}

impl<M> CachedMeshData<M> {
    /// Reports whether fresh vertex positions have arrived since the last poll, and
    /// clears the report.
    pub fn poll_update(&mut self) -> (r: bool)
        ensures
            (r, final(self).gpu_update) == poll_result(old(self).gpu_update),
            final(self).meshes@ == old(self).meshes@,
            final(self).ordering@ == old(self).ordering@,
    {
        if self.gpu_update {
            self.gpu_update = false;
            return true;
        }
        false
    }

    /// Draws newly added meshes in the order they were added: where `count` meshes
    /// were added, the ordering becomes `0, 1, ..., count - 1`; where none were, it
    /// stays.
    pub fn reset_ordering(&mut self, count: usize)
        ensures
            count == 0 ==> final(self).ordering@ == old(self).ordering@,
            count > 0 ==> final(self).ordering@.len() == count && forall|i: int|
                0 <= i < count ==> #[trigger] final(self).ordering@[i] == i,
            final(self).meshes@ == old(self).meshes@,
            final(self).gpu_update == old(self).gpu_update,
    {
        if count > 0 {
            let mut ordering: Vec<usize> = Vec::new();
            let mut i: usize = 0;
            while i < count
                invariant
                    i <= count,
                    ordering@.len() == i,
                    forall|k: int| 0 <= k < i ==> #[trigger] ordering@[k] == k,
                decreases count - i,
            {
                ordering.push(i);
                i += 1;
            }
            self.ordering = ordering;
        }
    }

    /// Takes the meshes read this frame: they replace the cached ones unless there
    /// are none; a fresh GPU read-back is recorded.
    pub fn cache(&mut self, meshes: Vec<M>, gpu_updated: bool)
        ensures
            meshes@.len() > 0 ==> final(self).meshes@ == meshes@,
            meshes@.len() == 0 ==> final(self).meshes@ == old(self).meshes@,
            final(self).gpu_update == (old(self).gpu_update || gpu_updated),
            final(self).ordering@ == old(self).ordering@,
    {
        if gpu_updated {
            self.gpu_update = true;
        }
        if meshes.len() == 0 {
            return;
        }
        self.meshes = meshes;
    }
}

/// A poll of the update report: what it returns, and the report it leaves.
pub open spec fn poll_result(report: bool) -> (bool, bool) {
    (report, false)
}

/// Polling twice in a row: the second poll reports nothing.
pub proof fn lemma_second_poll_reports_nothing(report: bool)
    ensures
        poll_result(poll_result(report).1).0 == false,
{
}

/// Where the outlines drawn this frame come from.
#[derive(Clone, Copy, Debug, PartialEq, Eq, Structural)]
pub enum Refresh {
    /// The animation plays: outline the meshes anew, keep nothing.
    Live,
    /// Outline the meshes anew and keep the result for the next frames.
    Rebuild,
    /// Draw the outlines kept from before.
    Reuse,
}

/// Decides where this frame's outlines come from. While the animation plays they
/// are always made anew; otherwise they are made anew when fresh vertex positions
/// arrived (the report is polled and cleared) or when none are kept.
pub fn plan_refresh<C, I, M>(fs: &FrameStepper<C, I>, mesh_data: &mut CachedMeshData<M>) -> (r:
    Refresh)
    ensures
        fs.is_animation_playing ==> r == Refresh::Live && final(mesh_data).gpu_update == old(
            mesh_data,
        ).gpu_update,
        !fs.is_animation_playing ==> !final(mesh_data).gpu_update && r == (if old(
            mesh_data,
        ).gpu_update || fs.shapes_buffer is None {
            Refresh::Rebuild
        } else {
            Refresh::Reuse
        }),
        final(mesh_data).meshes@ == old(mesh_data).meshes@,
        final(mesh_data).ordering@ == old(mesh_data).ordering@,
{
    if fs.is_animation_playing {
        Refresh::Live
    } else if mesh_data.poll_update() || fs.shapes_buffer.is_none() {
        Refresh::Rebuild
    } else {
        Refresh::Reuse
    }
}

/// The outlines to draw, in drawing order: the ordering up to its first index that
/// names no outline.
pub fn draw_order(ordering: &Vec<usize>, count: usize) -> (r: Vec<usize>)
    ensures
        r@.len() <= ordering@.len(),
        r@ == ordering@.take(r@.len() as int),
        forall|i: int| 0 <= i < r@.len() ==> #[trigger] r@[i] < count,
        r@.len() < ordering@.len() ==> ordering@[r@.len() as int] >= count,
{
    let mut r: Vec<usize> = Vec::new();
    let mut i: usize = 0;
    while i < ordering.len()
        invariant
            i <= ordering.len(),
            r@ == ordering@.take(i as int),
            forall|k: int| 0 <= k < i ==> #[trigger] ordering@[k] < count,
        decreases ordering.len() - i,
    {
        if ordering[i] >= count {
            return r;
        }
        r.push(ordering[i]);
        assert(ordering@.take(i as int + 1) =~= ordering@.take(i as int).push(ordering@[i as int]));
        i += 1;
    }
    assert(ordering@.take(i as int) =~= ordering@);
    r
}

/// Where the export of an animation stands: the number of the next layer, and
/// whether an export runs.
#[derive(Clone, Copy, Debug, PartialEq, Eq, Structural)]
pub struct ExportProgress {
    pub frame: u64,
    pub exporting: bool,
}

/// What one export step has to do with the current frame's outlines.
#[derive(Clone, Copy, Debug, PartialEq, Eq, Structural)]
pub struct FrameRecord {
    /// Add the outlines as the layer with this number.
    pub frame: u64,
    /// Then save the animation: this was its last frame.
    pub save: bool,
}

impl ExportProgress {
    /// No export runs.
    pub fn new() -> (p: ExportProgress)
        ensures
            p == (ExportProgress { frame: 0, exporting: false }),
    {
        ExportProgress { frame: 0, exporting: false }
    }

    /// Starts an export from frame 0: both the layer number and the stepper go back
    /// to the first frame.
    pub fn start<C, I>(&mut self, fs: &mut FrameStepper<C, I>)
        ensures
            *final(self) == (ExportProgress { frame: 0, exporting: true }),
            final(fs).current_frame == 0,
            final(fs).total_frames == old(fs).total_frames,
            final(fs).updated == old(fs).updated,
            final(fs).is_animation_playing == old(fs).is_animation_playing,
            final(fs).shapes_buffer == old(fs).shapes_buffer,
    {
        self.exporting = true;
        self.frame = 0;
        fs.current_frame = 0;
    }

    /// One export step. Where no export runs, or the meshes did not change since the
    /// last recorded frame, nothing happens (`None`). Otherwise the current
    /// outlines become the layer numbered `frame`; when the stepper stands at the last
    /// frame the export is saved and ends; the stepper moves one frame on and the
    /// next layer takes its number.
    pub fn record<C, I>(&mut self, fs: &mut FrameStepper<C, I>, changed: bool) -> (r: Option<
        FrameRecord,
    >)
        requires
            old(self).exporting && changed ==> old(fs).current_frame < u64::MAX,
        ensures
            !(old(self).exporting && changed) ==> r is None && *final(self) == *old(self)
                && final(fs).current_frame == old(fs).current_frame,
            old(self).exporting && changed ==> r == Some(
                FrameRecord {
                    frame: old(self).frame,
                    save: old(fs).current_frame == FRAMES,
                },
            ) && final(fs).current_frame == old(fs).current_frame + 1 && *final(self) == (
            ExportProgress {
                frame: final(fs).current_frame,
                exporting: old(fs).current_frame != FRAMES,
            }),
            final(fs).total_frames == old(fs).total_frames,
            final(fs).updated == old(fs).updated,
            final(fs).is_animation_playing == old(fs).is_animation_playing,
            final(fs).shapes_buffer == old(fs).shapes_buffer,
    {
        if !self.exporting || !changed {
            return None;
        }
        let frame = self.frame;
        let save = fs.current_frame == FRAMES;
        if save {
            self.exporting = false;
        }
        fs.current_frame += 1;
        self.frame = fs.current_frame;
        Some(FrameRecord { frame, save })
    }
}

/// One export step on the values it touches: the progress and the stepper's frame.
pub open spec fn record_step(p: ExportProgress, frame: u64) -> (ExportProgress, u64, FrameRecord) {
    (
        ExportProgress { frame: (frame + 1) as u64, exporting: frame != FRAMES },
        (frame + 1) as u64,
        FrameRecord { frame: p.frame, save: frame == FRAMES },
    )
}

/// The progress and stepper frame after `n` recorded frames of an export started
/// from frame 0, with nothing moving the stepper in between.
pub open spec fn export_after(n: nat) -> (ExportProgress, u64)
    decreases n,
{
    if n == 0 {
        (ExportProgress { frame: 0, exporting: true }, 0)
    } else {
        let (p, f) = export_after((n - 1) as nat);
        let (p2, f2, _) = record_step(p, f);
        (p2, f2)
    }
}

/// An export started at frame 0 numbers its layers 0, 1, 2, ... in step with the
/// stepper, keeps running through frame `FRAMES`, and saves and stops exactly when
/// it records the layer numbered `FRAMES`.
pub proof fn lemma_export_numbers_frames(n: nat)
    requires
        n <= FRAMES + 1,
    ensures
        export_after(n).0.frame == n,
        export_after(n).1 == n,
        export_after(n).0.exporting == (n <= FRAMES),
        n <= FRAMES ==> record_step(export_after(n).0, export_after(n).1).2 == (FrameRecord {
            frame: n as u64,
            save: n == FRAMES,
        }),
    decreases n,
{
    if n > 0 {
        lemma_export_numbers_frames((n - 1) as nat);
    }
}

} // verus!

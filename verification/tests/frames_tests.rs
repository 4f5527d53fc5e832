use lottify::frames::{
    draw_order, keep_rebuilt, mesh_offsets, plan_refresh, swap_layers, CachedMeshData,
    ExportProgress, FrameKeep, FrameRecord, FrameStepper, Refresh, FRAMES, FRAME_RATE,
};
use lottify::shader::{vertex_locations, MESH_OFFSET_LOCATION};
use lottify::shape::{MeshShape, Shape};

type Stepper = FrameStepper<(), ()>;

#[test]
fn constants() {
    assert_eq!(FRAMES, 60);
    assert_eq!(FRAME_RATE, 30);
}

#[test]
fn stepper_starts_at_zero() {
    let fs = Stepper::new(FRAMES);
    assert_eq!(fs.current_frame, 0);
    assert_eq!(fs.total_frames, 60);
    assert!(fs.updated);
    assert!(!fs.is_animation_playing);
    assert!(fs.shapes_buffer.is_none());
    let d = Stepper::default();
    assert_eq!(d.total_frames, 0);
    assert!(!d.updated);
}

#[test]
fn back_stops_at_first_frame() {
    let mut fs = Stepper::new(3);
    fs.updated = false;
    fs.back();
    assert_eq!(fs.current_frame, 0);
    assert!(!fs.updated);
    fs.current_frame = 2;
    fs.back();
    assert_eq!(fs.current_frame, 1);
    assert!(fs.updated);
}

#[test]
fn forward_stops_at_last_frame() {
    let mut fs = Stepper::new(2);
    fs.updated = false;
    fs.forward();
    fs.forward();
    assert_eq!(fs.current_frame, 2);
    fs.updated = false;
    fs.forward();
    assert_eq!(fs.current_frame, 2);
    assert!(!fs.updated);
}

#[test]
fn forward_undoes_back_and_back_undoes_forward() {
    let mut fs = Stepper::new(10);
    fs.current_frame = 4;
    fs.back();
    fs.forward();
    assert_eq!(fs.current_frame, 4);
    fs.forward();
    fs.back();
    assert_eq!(fs.current_frame, 4);
    fs.current_frame = 10;
    fs.back();
    fs.forward();
    assert_eq!(fs.current_frame, 10);
}

#[test]
fn steps_drop_the_kept_outlines() {
    let mut fs: FrameStepper<u8, u8> = FrameStepper::new(5);
    fs.shapes_buffer = Some(vec![MeshShape::new(Shape::new(vec![]), 1, 1)]);
    fs.step_forward();
    assert_eq!(fs.current_frame, 1);
    assert!(fs.shapes_buffer.is_none());
    fs.shapes_buffer = Some(vec![]);
    fs.step_back();
    assert_eq!(fs.current_frame, 0);
    assert!(fs.shapes_buffer.is_none());
}

#[test]
fn toggle_play_follows_the_player() {
    let mut fs = Stepper::new(5);
    assert!(fs.toggle_play(true));
    assert!(fs.is_animation_playing);
    assert!(!fs.toggle_play(false));
    assert!(!fs.is_animation_playing);
}

#[test]
fn second_poll_reports_nothing() {
    let mut d: CachedMeshData<u8> = CachedMeshData::default();
    assert!(!d.poll_update());
    d.gpu_update = true;
    assert!(d.poll_update());
    assert!(!d.poll_update());
}

#[test]
fn reset_ordering_counts_up() {
    let mut d: CachedMeshData<u8> = CachedMeshData::default();
    d.ordering = vec![2, 0, 1];
    d.reset_ordering(0);
    assert_eq!(d.ordering, vec![2, 0, 1]);
    d.reset_ordering(4);
    assert_eq!(d.ordering, vec![0, 1, 2, 3]);
}

#[test]
fn cache_keeps_old_meshes_when_none_read() {
    let mut d: CachedMeshData<u8> = CachedMeshData::default();
    d.cache(vec![1, 2], false);
    assert_eq!(d.meshes, vec![1, 2]);
    assert!(!d.gpu_update);
    d.cache(vec![], true);
    assert_eq!(d.meshes, vec![1, 2]);
    assert!(d.gpu_update);
    d.cache(vec![3], false);
    assert_eq!(d.meshes, vec![3]);
    assert!(d.gpu_update);
}

#[test]
fn refresh_plans() {
    let mut fs = Stepper::new(5);
    let mut d: CachedMeshData<u8> = CachedMeshData::default();
    d.gpu_update = true;
    fs.is_animation_playing = true;
    assert_eq!(plan_refresh(&fs, &mut d), Refresh::Live);
    assert!(d.gpu_update);
    fs.is_animation_playing = false;
    fs.shapes_buffer = Some(vec![]);
    assert_eq!(plan_refresh(&fs, &mut d), Refresh::Rebuild);
    assert!(!d.gpu_update);
    assert_eq!(plan_refresh(&fs, &mut d), Refresh::Reuse);
    fs.shapes_buffer = None;
    assert_eq!(plan_refresh(&fs, &mut d), Refresh::Rebuild);
}

#[test]
fn draw_order_stops_at_first_missing_outline() {
    assert_eq!(draw_order(&vec![2, 0, 5, 1], 3), vec![2, 0]);
    assert_eq!(draw_order(&vec![1, 0], 2), vec![1, 0]);
    assert_eq!(draw_order(&vec![0], 0), Vec::<usize>::new());
}

#[test]
fn keep_rebuilt_decisions() {
    assert_eq!(keep_rebuilt(3, 0), FrameKeep::Empty);
    assert_eq!(keep_rebuilt(3, 2), FrameKeep::Store(3));
    assert_eq!(keep_rebuilt(60, 2), FrameKeep::Beyond);
    assert_eq!(keep_rebuilt(61, 0), FrameKeep::Beyond);
}

#[test]
fn swapping_twice_restores_order() {
    let mut o = vec![0, 1, 2, 3];
    swap_layers(&mut o, 1, 2);
    assert_eq!(o, vec![0, 2, 1, 3]);
    swap_layers(&mut o, 1, 2);
    assert_eq!(o, vec![0, 1, 2, 3]);
}

#[test]
fn mesh_offsets_are_prefix_sums() {
    let (offsets, total) = mesh_offsets(&vec![3, 0, 5, 2]);
    assert_eq!(offsets, vec![0, 3, 3, 8]);
    assert_eq!(total, 10);
    let (none, zero) = mesh_offsets(&vec![]);
    assert!(none.is_empty());
    assert_eq!(zero, 0);
}

#[test]
fn export_numbers_frames_and_saves_at_the_last() {
    let mut fs = Stepper::new(FRAMES);
    fs.current_frame = 17;
    let mut p = ExportProgress::new();
    assert!(!p.exporting);
    p.start(&mut fs);
    assert_eq!(p, ExportProgress { frame: 0, exporting: true });
    assert_eq!(fs.current_frame, 0);
    assert_eq!(p.record(&mut fs, false), None);
    assert_eq!(fs.current_frame, 0);
    for n in 0..FRAMES {
        assert_eq!(p.record(&mut fs, true), Some(FrameRecord { frame: n, save: false }));
        assert!(p.exporting);
        assert_eq!(p.frame, n + 1);
    }
    assert_eq!(p.record(&mut fs, true), Some(FrameRecord { frame: FRAMES, save: true }));
    assert!(!p.exporting);
    assert_eq!(fs.current_frame, FRAMES + 1);
    assert_eq!(p.frame, FRAMES + 1);
}

#[test]
fn vertex_locations_follow_the_attributes() {
    assert_eq!(MESH_OFFSET_LOCATION, 20);
    assert_eq!(
        vertex_locations([true, true, false, false, false, true, false, false]),
        vec![0, 1, 5, 20]
    );
    assert_eq!(vertex_locations([false; 8]), vec![20]);
    assert_eq!(vertex_locations([true; 8]), vec![0, 1, 2, 3, 4, 5, 6, 7, 20]);
}

#[test]
fn unchanged_step_at_last_frame_number_does_nothing() {
    let mut fs = Stepper::new(FRAMES);
    fs.current_frame = u64::MAX;
    let mut p = ExportProgress::new();
    p.exporting = true;
    p.frame = 7;
    assert_eq!(p.record(&mut fs, false), None);
    assert_eq!(p, ExportProgress { frame: 7, exporting: true });
    assert_eq!(fs.current_frame, u64::MAX);
}

#[test]
fn step_without_export_does_nothing() {
    let mut fs = Stepper::new(FRAMES);
    fs.current_frame = 5;
    let mut p = ExportProgress::new();
    assert_eq!(p.record(&mut fs, true), None);
    assert_eq!(p, ExportProgress { frame: 0, exporting: false });
    assert_eq!(fs.current_frame, 5);
}

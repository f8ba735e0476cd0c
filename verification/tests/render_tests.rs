use game_core::editor::{DragAndDrop, DraggableState};
use game_core::gizmos::{GizmoBatches, GizzmoType};
use game_core::render::{FrameCount, FRAMES_IN_FLIGHT};
use game_core::mesh::push_quad;
use game_core::storage::{
    append_mesh, grow_to_fit, instance_flags, instance_header, instance_slot, is_outlined, ResolveAction,
    StorageBuffer, MAX_INSTANCES, OUTLINE,
};
use game_core::upload::{StagingState, UploadChunk, UploadDst, STAGING_BUFFER_SIZE};

#[test]
fn frames_in_flight_alternate() {
    assert_eq!(FRAMES_IN_FLIGHT, 2);
    assert_eq!(FrameCount(0).frame_in_flight(), 0);
    assert_eq!(FrameCount(7).frame_in_flight(), 1);
    let mut f = FrameCount(0);
    assert!(!f.advance());
    assert_eq!(f.0, 1);
    assert!(!f.advance());
    assert!(f.advance());
    assert_eq!(f.0, 3);
    assert_eq!(f.frame_in_flight(), 1);
}

#[test]
fn gizmos_are_batched_by_kind() {
    let mut queue = vec![
        (1, GizzmoType::Arrow),
        (2, GizzmoType::Box),
        (3, GizzmoType::Sphere),
        (4, GizzmoType::Box),
        (5, GizzmoType::Arrow),
    ];
    let mut b: GizmoBatches<i32> = GizmoBatches::new();
    b.extract_gizzmos(&mut queue);
    assert_eq!(b.pending, vec![2, 4, 3, 1, 5]);
    assert_eq!(b.aabb_range, 0..2);
    assert_eq!(b.sphere_range, 2..3);
    assert_eq!(b.arrow_range, 3..5);
    assert!(queue.is_empty());
    b.extract_gizzmos(&mut queue);
    assert!(b.pending.is_empty());
    assert_eq!(b.arrow_range, 0..0);
}

#[test]
fn buffers_grow_to_powers_of_two() {
    assert_eq!(grow_to_fit(16, 10), None);
    assert_eq!(grow_to_fit(16, 16), None);
    assert_eq!(grow_to_fit(16, 17), Some(32));
    assert_eq!(grow_to_fit(0, 1), Some(1));
    assert_eq!(grow_to_fit(100, 1000), Some(1024));
    assert_eq!(grow_to_fit(0, 1 << 63), Some(1 << 63));
}

#[test]
fn storage_buffer_queues_and_resolves() {
    let mut s: StorageBuffer<u32> = StorageBuffer::new();
    assert_eq!(s.queue_wirte(vec![1, 2, 3]), 0);
    assert_eq!(s.queue_wirte(vec![4]), 12);
    assert_eq!(s.queue_size, 16);
    assert_eq!(s.len(), 0);
    match s.resolve_write(false) {
        ResolveAction::Start { new_size, writes } => {
            assert_eq!(new_size, 16);
            assert_eq!(writes, vec![(0, vec![1, 2, 3]), (12, vec![4])]);
        }
        _ => panic!("expected a new upload"),
    }
    assert!(s.writes.is_empty());
    assert_eq!(s.task_size, Some(16));
    assert!(matches!(s.resolve_write(false), ResolveAction::Wait));
    assert_eq!(s.size, 0);
    assert!(matches!(s.resolve_write(true), ResolveAction::Finished { new_size: 16 }));
    assert_eq!(s.size, 16);
    assert_eq!(s.len(), 4);
    let mut idle: StorageBuffer<u8> = StorageBuffer::new();
    assert!(matches!(idle.resolve_write(true), ResolveAction::Idle));
}

#[test]
fn meshes_are_merged_with_shifted_indices() {
    let mut vertices = vec!['a', 'b'];
    let mut indices = vec![0u32, 1];
    append_mesh(&mut vertices, &mut indices, &vec!['c', 'd', 'e'], &vec![0, 2, 1]);
    assert_eq!(vertices, vec!['a', 'b', 'c', 'd', 'e']);
    assert_eq!(indices, vec![0, 1, 2, 4, 3]);
    append_mesh(&mut vertices, &mut indices, &vec![], &vec![]);
    assert_eq!(indices.len(), 5);
}

#[test]
fn instance_slots_per_frame() {
    assert_eq!(instance_slot(0, 0), 0);
    assert_eq!(instance_slot(5, 1), 5 + MAX_INSTANCES);
    assert_eq!(instance_slot(MAX_INSTANCES - 1, 1), 2 * MAX_INSTANCES - 1);
    assert_eq!(instance_header(16, 32, 1000), (1016, 1032));
}

#[test]
fn small_upload_is_deferred() {
    let mut s = StagingState::new(100);
    let plan = s.plan_upload(30, UploadDst::Buffer { size: 40 });
    assert_eq!(plan.chunks, vec![UploadChunk { staging_offset: 0, len: 30, dst_offset: Some(10) }]);
    assert!(!plan.send_back_now);
    assert_eq!(s.free, 70);
    assert_eq!((s.pending_regions, s.deferred), (1, 1));
    let plan = s.plan_upload(20, UploadDst::Image);
    assert_eq!(plan.chunks, vec![UploadChunk { staging_offset: 30, len: 20, dst_offset: None }]);
    assert_eq!((s.pending_regions, s.deferred), (2, 2));
    assert!(s.on_idle());
    assert_eq!((s.pending_regions, s.deferred), (0, 0));
    assert_eq!(s.free, 50);
    assert!(!s.on_idle());
}

#[test]
fn large_upload_is_split_and_flushed() {
    let mut s = StagingState::new(100);
    s.plan_upload(60, UploadDst::Buffer { size: 60 });
    let plan = s.plan_upload(250, UploadDst::Buffer { size: 300 });
    assert_eq!(
        plan.chunks,
        vec![
            UploadChunk { staging_offset: 60, len: 40, dst_offset: Some(50) },
            UploadChunk { staging_offset: 0, len: 100, dst_offset: Some(90) },
            UploadChunk { staging_offset: 0, len: 100, dst_offset: Some(190) },
            UploadChunk { staging_offset: 0, len: 10, dst_offset: Some(290) },
        ]
    );
    assert!(plan.send_back_now);
    assert_eq!(s.free, 90);
    assert_eq!((s.pending_regions, s.deferred), (1, 0));
}

#[test]
fn upload_that_fills_staging_exactly_ends_with_an_empty_copy() {
    let mut s = StagingState::new(64);
    let plan = s.plan_upload(64, UploadDst::Buffer { size: 64 });
    assert_eq!(
        plan.chunks,
        vec![
            UploadChunk { staging_offset: 0, len: 64, dst_offset: Some(0) },
            UploadChunk { staging_offset: 0, len: 0, dst_offset: Some(64) },
        ]
    );
    assert!(plan.send_back_now);
    assert_eq!(s.free, 64);
    assert_eq!(STAGING_BUFFER_SIZE, 16 * 1024 * 1024);
}

#[test]
fn drag_and_drop_hands_over_once() {
    let mut d: DragAndDrop<u64> = DragAndDrop::new();
    assert!(!d.drop_valid());
    d.drag(DraggableState { drag_started: true, dropped: false }, 42);
    assert!(d.drop_valid());
    assert_eq!(d.peek(), Some(&42));
    d.drag(DraggableState { drag_started: false, dropped: false }, 7);
    assert_eq!(d.drop(), Some(42));
    assert_eq!(d.drop(), None);
    d.drag(DraggableState { drag_started: true, dropped: false }, 1);
    d.drag(DraggableState { drag_started: false, dropped: true }, 1);
    assert!(!d.drop_valid());
    d.drag(DraggableState { drag_started: true, dropped: true }, 3);
    assert_eq!(d.drop(), None);
}

#[test]
fn instance_flags_mark_selection() {
    assert_eq!(OUTLINE, 1);
    assert_eq!(instance_flags(0b100, true), 0b101);
    assert_eq!(instance_flags(0b100, false), 0b100);
    assert!(is_outlined(instance_flags(0, true)));
    assert!(!is_outlined(0b110));
}

#[test]
fn quad_indices_follow_the_pushed_vertices() {
    let mut indices: Vec<u32> = Vec::new();
    push_quad(&mut indices, 0);
    assert_eq!(indices, vec![0, 1, 2, 0, 3, 2]);
    push_quad(&mut indices, 4);
    assert_eq!(indices, vec![0, 1, 2, 0, 3, 2, 4, 5, 6, 4, 7, 6]);
    assert!(indices.iter().all(|&i| i < 8));
}

#[test]
fn tagged_drop_takes_only_its_kind() {
    let mut d: DragAndDrop<(u64, &str)> = DragAndDrop::new();
    d.drag(DraggableState { drag_started: true, dropped: false }, (7, "mesh.glb"));
    assert!(d.drop_valid_tagged(7));
    assert!(!d.drop_valid_tagged(8));
    assert_eq!(d.drop_tagged(8), None);
    assert!(!d.drop_valid_tagged(7));
    d.drag(DraggableState { drag_started: true, dropped: false }, (7, "mesh.glb"));
    assert_eq!(d.drop_tagged(7), Some("mesh.glb"));
    assert_eq!(d.drop_tagged(7), None);
}

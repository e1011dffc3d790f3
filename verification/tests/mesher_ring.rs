use voxel_world::gui::FpsCalculator;
use voxel_world::uniform::{uniform_slot_offset, uniform_stride};
use voxel_world::meshing::{first_signaled, InCopy, MeshWorkerSlots, IN_FLIGHT_COPIES};
use voxel_world::pos::ChunkPos;
use voxel_world::world::VertexBuffer;

#[test]
fn first_signaled_scans_cyclically() {
    let fences = vec![false, true, false, true];
    assert_eq!(first_signaled(&fences, 0), Some(1));
    assert_eq!(first_signaled(&fences, 1), Some(1));
    assert_eq!(first_signaled(&fences, 2), Some(3));
    // wrapping past the end reaches the earlier slot again
    let fences = vec![true, false, false, false];
    assert_eq!(first_signaled(&fences, 2), Some(0));
    let none = vec![false, false, false, false];
    assert_eq!(first_signaled(&none, 1), None);
}

#[test]
fn slots_track_copies_in_flight() {
    let mut slots = MeshWorkerSlots::new();
    assert!(slots.may_block_on_receive());

    let pos = ChunkPos::new(1, 2, 3);
    let vb = VertexBuffer { id: 5, vertex_count: 36 };
    slots.begin_copy(0, pos, vb);
    assert!(!slots.may_block_on_receive());
    assert_eq!(slots.current_copies, 1);

    // completing a busy slot hands the upload back for installation
    let done = slots.complete(0);
    assert_eq!(done, Some(InCopy { pos, buffer: vb }));
    assert_eq!(slots.cursor, 0);
    assert!(slots.may_block_on_receive());

    // completing an idle slot is a no-op
    assert_eq!(slots.complete(2), None);
    assert_eq!(slots.cursor, 2);
}

#[test]
fn the_ring_has_four_slots() {
    let slots = MeshWorkerSlots::new();
    assert_eq!(slots.in_copy.len(), IN_FLIGHT_COPIES);
    assert_eq!(IN_FLIGHT_COPIES, 4);
}

#[test]
fn fps_calculator_averages_batches() {
    let mut fps = FpsCalculator::new();
    // five frames, 10 ms apart: the batch average is 10 ms
    for k in 1..=5u64 {
        fps.tick(k * 10_000_000);
    }
    assert_eq!(fps.frame_time_nanos, (50_000_000 - 10_000_000) / 5);
    assert_eq!(fps.frame_count, 0);
    // a fresh calculator publishes nothing until a batch completes
    let mut quiet = FpsCalculator::new();
    quiet.tick(100);
    quiet.tick(200);
    assert_eq!(quiet.frame_time_nanos, 0);
}

#[test]
fn uniform_slots_are_stride_aligned() {
    // a 64-byte matrix with a 256-byte minimum alignment
    let stride = uniform_stride(64, 256);
    assert_eq!(stride, 256);
    // an entry larger than the alignment is rounded up, not truncated
    let stride2 = uniform_stride(300, 256);
    assert_eq!(stride2, 512);
    for i in 0..4usize {
        assert_eq!(uniform_slot_offset(i, stride, 256), i * 256);
        assert_eq!(uniform_slot_offset(i, stride2, 256) % 256, 0);
    }
}

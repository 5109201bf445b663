use client_core::mesh_buffer::MeshBuffer;
use client_core::mesh_buffer::MeshMetadata;

#[test]
fn inserted_meshes_are_laid_out_end_to_end() {
    let mut buffer = MeshBuffer::new();
    let first = buffer.insert(100, 0, 30);
    let second = buffer.insert(50, 50, 12);
    assert_eq!(first, 0);
    assert_eq!(second, 1);
    assert_eq!(
        buffer.get_mesh_metadata(first),
        MeshMetadata { base_offset: 0, skinned_offset: 0, index_offset: 0, index_count: 30 }
    );
    assert_eq!(
        buffer.get_mesh_metadata(second),
        MeshMetadata { base_offset: 100, skinned_offset: 0, index_offset: 30, index_count: 12 }
    );
    assert_eq!(buffer.n_meshes(), 2);
}

#[test]
fn indices_of_spans_the_mesh_index_range() {
    let mut buffer = MeshBuffer::new();
    let first = buffer.insert(10, 0, 6);
    let second = buffer.insert(4, 0, 9);
    assert_eq!(buffer.indices_of(first), (0, 6));
    assert_eq!(buffer.indices_of(second), (6, 15));
}

#[test]
fn size_counts_all_buffers_in_bytes() {
    let mut buffer = MeshBuffer::new();
    buffer.insert(2, 1, 3);
    // One metadata entry, two base entries, one skinning entry, three
    // indices.
    assert_eq!(buffer.size(), 16 + 2 * 64 + 32 + 3 * 4);
}

#[test]
fn removal_compacts_the_survivors_and_keeps_their_slots() {
    let mut buffer = MeshBuffer::new();
    let a = buffer.insert(10, 0, 3);
    let b = buffer.insert(20, 5, 6);
    let c = buffer.insert(30, 0, 9);
    buffer.update(&vec![b]);
    assert_eq!(buffer.n_meshes(), 2);
    // Survivors keep their slots and counts; their offsets close the gap.
    assert_eq!(
        buffer.get_mesh_metadata(a),
        MeshMetadata { base_offset: 0, skinned_offset: 0, index_offset: 0, index_count: 3 }
    );
    assert_eq!(
        buffer.get_mesh_metadata(c),
        MeshMetadata { base_offset: 10, skinned_offset: 0, index_offset: 3, index_count: 9 }
    );
}

#[test]
fn freed_slots_are_reused_most_recent_first() {
    let mut buffer = MeshBuffer::new();
    let a = buffer.insert(1, 0, 1);
    let b = buffer.insert(2, 0, 2);
    let c = buffer.insert(3, 0, 3);
    buffer.update(&vec![a, c]);
    assert_eq!(buffer.n_meshes(), 1);
    // The most recently freed slot is taken first; outstanding indices
    // (here `b`) stay valid throughout.
    let reused = buffer.insert(7, 0, 4);
    assert_eq!(reused, c);
    assert_eq!(buffer.n_meshes(), 2);
    let again = buffer.insert(8, 0, 5);
    assert_eq!(again, a);
    assert_eq!(buffer.get_mesh_metadata(b).index_count, 2);
}

#[test]
fn reinserted_mesh_goes_to_the_current_end_of_the_buffers() {
    let mut buffer = MeshBuffer::new();
    let a = buffer.insert(10, 0, 3);
    buffer.insert(20, 0, 6);
    buffer.update(&vec![a]);
    // After compaction the survivor occupies [0, 20); the next mesh starts
    // where the compacted buffers now end.
    let d = buffer.insert(5, 0, 2);
    assert_eq!(d, a);
    assert_eq!(
        buffer.get_mesh_metadata(d),
        MeshMetadata { base_offset: 20, skinned_offset: 0, index_offset: 6, index_count: 2 }
    );
}

#[test]
fn empty_buffer_has_nothing() {
    let buffer = MeshBuffer::new();
    assert_eq!(buffer.n_meshes(), 0);
    assert_eq!(buffer.size(), 0);
}

#[test]
fn empty_update_changes_nothing() {
    let mut buffer = MeshBuffer::new();
    let a = buffer.insert(1, 0, 1);
    let b = buffer.insert(2, 0, 2);
    buffer.update(&vec![a]);
    // Reuses slot `a`; its data sits at the current end of the buffers.
    let c = buffer.insert(3, 0, 3);
    let b_before = buffer.get_mesh_metadata(b);
    let c_before = buffer.get_mesh_metadata(c);
    buffer.update(&vec![]);
    assert_eq!(buffer.get_mesh_metadata(b), b_before);
    assert_eq!(buffer.get_mesh_metadata(c), c_before);
    assert_eq!(buffer.n_meshes(), 2);
    assert_eq!(c_before.base_offset, 2);
}

#[test]
fn meshes_before_the_first_removed_segment_keep_their_offsets() {
    let mut buffer = MeshBuffer::new();
    let a = buffer.insert(1, 0, 1);
    let b = buffer.insert(2, 0, 2);
    let c = buffer.insert(3, 0, 3);
    // After this, `b` lies at offset 0 and `c` at offset 2.
    buffer.update(&vec![a]);
    // Takes slot `a`, with its data at offset 5, after `b` and `c`.
    let d = buffer.insert(4, 0, 4);
    assert_eq!(d, a);
    // `c` sat at offset 2.  `b` lies before the removed segment and stays
    // at offset 0, though its table slot comes after `d`'s; `d` moves down
    // to the removed segment's old offsets.
    buffer.update(&vec![c]);
    assert_eq!(buffer.get_mesh_metadata(b).base_offset, 0);
    assert_eq!(buffer.get_mesh_metadata(b).index_offset, 0);
    assert_eq!(buffer.get_mesh_metadata(d).base_offset, 2);
    assert_eq!(buffer.get_mesh_metadata(d).index_offset, 2);
}

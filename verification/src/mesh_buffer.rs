//! Layout bookkeeping of the shared mesh buffer.
//!
//! All meshes of an application live concatenated in a few large attribute
//! buffers; each mesh keeps an index into a metadata table, and the metadata
//! says where the mesh's attribute and index ranges start.  Indices are
//! recycled: when a mesh is removed its table slot is kept and reused for a
//! later mesh, so outstanding indices stay valid.  The segments tile each
//! buffer contiguously in one order — the order the meshes were laid out,
//! tracked here explicitly — and removing meshes compacts the buffers:
//! segments before the first removed one stay where they are, the rest move
//! down in order to close the gaps.  This module carries that bookkeeping
//! over the buffer lengths; the attribute data itself and its transfer
//! belong to the GPU collaborator.

use vstd::prelude::*;
use vstd::set_lib::lemma_int_range;
use vstd::set_lib::lemma_len_subset;
use vstd::set_lib::set_int_range;

verus! {

/// Where one mesh's data starts in the shared buffers, and how many indices
/// it has.  The entry a shader reads to find the mesh.
#[derive(Debug, Clone, Copy, PartialEq, Eq, Structural)]
pub struct MeshMetadata {
    /// First slot of the mesh's grouped base attributes (position, normal,
    /// tangent, texture coordinates).
    pub base_offset: u32,
    /// First slot of the mesh's skinning attributes (joints, weights).
    pub skinned_offset: u32,
    /// First slot of the mesh's indices.
    pub index_offset: u32,
    /// How many indices the mesh has.
    pub index_count: u32,
}

impl Default for MeshMetadata {
    /// The all-zero entry of an empty table slot.
    fn default() -> (r: Self)
        ensures
            r == (MeshMetadata {
                base_offset: 0,
                skinned_offset: 0,
                index_offset: 0,
                index_count: 0,
            }),
    {
        MeshMetadata { base_offset: 0, skinned_offset: 0, index_offset: 0, index_count: 0 }
    }
}

/// One occupied slot of the mesh table: the entry shaders read, and how
/// much of each buffer the mesh occupies.
#[derive(Debug, Clone, Copy, PartialEq, Eq, Structural)]
pub struct MeshSlot {
    pub metadata: MeshMetadata,
    pub base_count: u32,
    pub skinned_count: u32,
    pub index_count: u32,
}

/// Bytes per entry of the metadata table.
pub const METADATA_ENTRY_BYTES: u64 = 16;

/// Bytes per entry of the grouped base attributes.
pub const BASE_ENTRY_BYTES: u64 = 64;

/// Bytes per entry of the skinning attributes.
pub const SKINNED_ENTRY_BYTES: u64 = 32;

/// Bytes per index.
pub const INDEX_ENTRY_BYTES: u64 = 4;

/// Whether two table entries agree on their counts (occupancy included).
pub open spec fn counts_agree(a: Option<MeshSlot>, b: Option<MeshSlot>) -> bool {
    match (a, b) {
        (Some(x), Some(y)) => x.base_count == y.base_count && x.skinned_count == y.skinned_count
            && x.index_count == y.index_count,
        (None, None) => true,
        _ => false,
    }
}

/// How many base-attribute entries the listed slots hold together.
pub open spec fn base_sum(slots: Seq<Option<MeshSlot>>, order: Seq<usize>) -> int
    decreases order.len(),
{
    if order.len() == 0 {
        0
    } else {
        base_sum(slots, order.drop_last()) + match slots[order.last() as int] {
            Some(slot) => slot.base_count as int,
            None => 0,
        }
    }
}

/// How many skinning entries the listed slots hold together.
pub open spec fn skinned_sum(slots: Seq<Option<MeshSlot>>, order: Seq<usize>) -> int
    decreases order.len(),
{
    if order.len() == 0 {
        0
    } else {
        skinned_sum(slots, order.drop_last()) + match slots[order.last() as int] {
            Some(slot) => slot.skinned_count as int,
            None => 0,
        }
    }
}

/// How many indices the listed slots hold together.
pub open spec fn index_sum(slots: Seq<Option<MeshSlot>>, order: Seq<usize>) -> int
    decreases order.len(),
{
    if order.len() == 0 {
        0
    } else {
        index_sum(slots, order.drop_last()) + match slots[order.last() as int] {
            Some(slot) => slot.index_count as int,
            None => 0,
        }
    }
}

/// The layout order with the removed slots taken out, survivors keeping
/// their relative order.
pub open spec fn retain_live(order: Seq<usize>, removed: Seq<usize>) -> Seq<usize>
    decreases order.len(),
{
    if order.len() == 0 {
        seq![]
    } else {
        retain_live(order.drop_last(), removed) + (if removed.contains(order.last()) {
            seq![]
        } else {
            seq![order.last()]
        })
    }
}

/// The mathematical content of a [`MeshBuffer`]: the table slots, the free
/// slot indices, the layout order of the live meshes' segments, and the
/// current buffer lengths in entries.
pub struct MeshBufferView {
    pub slots: Seq<Option<MeshSlot>>,
    pub free: Seq<usize>,
    pub order: Seq<usize>,
    pub base_len: u32,
    pub skinned_len: u32,
    pub index_len: u32,
}

impl MeshBufferView {
    /// Well-formedness: the free list holds exactly the empty slots, once
    /// each; the layout order lists exactly the occupied slots, once each;
    /// every mesh's offsets are the running totals of the counts laid out
    /// before it, so the segments tile each buffer contiguously in layout
    /// order; and the buffer lengths are exactly what the meshes occupy
    /// together.
    pub open spec fn wf(self) -> bool {
        &&& forall|i: int|
            0 <= i < self.free.len() ==> (self.free[i] < self.slots.len() && self.slots[
                #[trigger] self.free[i] as int
            ] is None)
        &&& forall|i: int, j: int|
            #![trigger self.free[i], self.free[j]]
            0 <= i < j < self.free.len() ==> self.free[i] != self.free[j]
        &&& forall|k: int|
            0 <= k < self.slots.len() && self.slots[k] is None ==> self.free.contains(k as usize)
        &&& forall|j: int|
            0 <= j < self.order.len() ==> (self.order[j] < self.slots.len() && self.slots[
                #[trigger] self.order[j] as int
            ] is Some)
        &&& forall|i: int, j: int|
            #![trigger self.order[i], self.order[j]]
            0 <= i < j < self.order.len() ==> self.order[i] != self.order[j]
        &&& forall|k: int|
            0 <= k < self.slots.len() && self.slots[k] is Some ==> self.order.contains(k as usize)
        &&& forall|j: int|
            0 <= j < self.order.len() ==> match self.slots[#[trigger] self.order[j] as int] {
                Some(slot) => {
                    &&& slot.metadata.base_offset == base_sum(self.slots, self.order.take(j))
                    &&& slot.metadata.skinned_offset == skinned_sum(
                        self.slots,
                        self.order.take(j),
                    )
                    &&& slot.metadata.index_offset == index_sum(self.slots, self.order.take(j))
                },
                None => true,
            }
        &&& forall|k: int|
            0 <= k < self.slots.len() ==> match #[trigger] self.slots[k] {
                Some(slot) => {
                    &&& slot.metadata.index_count == slot.index_count
                    &&& slot.metadata.base_offset + slot.base_count <= self.base_len
                    &&& slot.metadata.skinned_offset + slot.skinned_count <= self.skinned_len
                    &&& slot.metadata.index_offset + slot.index_count <= self.index_len
                },
                None => true,
            }
        &&& self.base_len == base_sum(self.slots, self.order)
        &&& self.skinned_len == skinned_sum(self.slots, self.order)
        &&& self.index_len == index_sum(self.slots, self.order)
    }
}

/// The shared buffer's bookkeeping: the metadata table with its recycled
/// slots, the layout order of the live segments, and the lengths of the
/// attribute buffers.
#[derive(Debug)]
pub struct MeshBuffer {
    slots: Vec<Option<MeshSlot>>,
    free_indices: Vec<usize>,
    order: Vec<usize>,
    base_len: u32,
    skinned_len: u32,
    index_len: u32,
}

impl View for MeshBuffer {
    type V = MeshBufferView;

    closed spec fn view(&self) -> MeshBufferView {
        MeshBufferView {
            slots: self.slots@,
            free: self.free_indices@,
            order: self.order@,
            base_len: self.base_len,
            skinned_len: self.skinned_len,
            index_len: self.index_len,
        }
    }
}

impl MeshBuffer {
    /// An empty buffer: no slots, nothing free, nothing laid out.
    pub fn new() -> (r: Self)
        ensures
            r@.slots == Seq::<Option<MeshSlot>>::empty(),
            r@.free == Seq::<usize>::empty(),
            r@.order == Seq::<usize>::empty(),
            r@.base_len == 0 && r@.skinned_len == 0 && r@.index_len == 0,
            r@.wf(),
    {
        MeshBuffer {
            slots: Vec::new(),
            free_indices: Vec::new(),
            order: Vec::new(),
            base_len: 0,
            skinned_len: 0,
            index_len: 0,
        }
    }

    /// How many meshes the buffer holds.
    pub fn n_meshes(&self) -> (r: usize)
        requires
            self@.wf(),
        ensures
            r == self@.slots.len() - self@.free.len(),
    {
        proof {
            lemma_free_at_most_slots(self@);
        }
        self.slots.len() - self.free_indices.len()
    }

    /// Total bytes the metadata table and the attribute buffers occupy.
    pub fn size(&self) -> (r: u64)
        requires
            self@.slots.len() * METADATA_ENTRY_BYTES + self@.base_len * BASE_ENTRY_BYTES
                + self@.skinned_len * SKINNED_ENTRY_BYTES + self@.index_len * INDEX_ENTRY_BYTES
                <= u64::MAX,
        ensures
            r == self@.slots.len() * METADATA_ENTRY_BYTES + self@.base_len * BASE_ENTRY_BYTES
                + self@.skinned_len * SKINNED_ENTRY_BYTES + self@.index_len * INDEX_ENTRY_BYTES,
    {
        (self.slots.len() as u64) * METADATA_ENTRY_BYTES + (self.base_len as u64)
            * BASE_ENTRY_BYTES + (self.skinned_len as u64) * SKINNED_ENTRY_BYTES + (self.index_len
            as u64) * INDEX_ENTRY_BYTES
    }

    /// The metadata entry of the mesh at a slot.
    pub fn get_mesh_metadata(&self, index: usize) -> (r: MeshMetadata)
        requires
            index < self@.slots.len(),
            self@.slots[index as int] is Some,
        ensures
            r == self@.slots[index as int]->0.metadata,
    {
        match &self.slots[index] {
            Some(slot) => slot.metadata,
            None => MeshMetadata {
                base_offset: 0,
                skinned_offset: 0,
                index_offset: 0,
                index_count: 0,
            },
        }
    }

    /// The index-buffer range of the mesh at a slot: first index and
    /// one-past-last.
    pub fn indices_of(&self, index: usize) -> (r: (u32, u32))
        requires
            self@.wf(),
            index < self@.slots.len(),
            self@.slots[index as int] is Some,
        ensures
            r.0 == self@.slots[index as int]->0.metadata.index_offset,
            r.1 == self@.slots[index as int]->0.metadata.index_offset + self@.slots[
                index as int
            ]->0.metadata.index_count,
    {
        let meta = self.get_mesh_metadata(index);
        (meta.index_offset, meta.index_offset + meta.index_count)
    }

    /// Inserts a mesh occupying the given number of entries in each buffer:
    /// its data goes at the current end of each buffer, so it becomes the
    /// last segment in layout order, and it takes the most recently freed
    /// table slot, or a fresh one when none is free.  Every other slot is
    /// untouched.
    pub fn insert(&mut self, base_count: u32, skinned_count: u32, index_count: u32) -> (index:
        usize)
        requires
            old(self)@.wf(),
            old(self)@.base_len + base_count <= u32::MAX,
            old(self)@.skinned_len + skinned_count <= u32::MAX,
            old(self)@.index_len + index_count <= u32::MAX,
            old(self)@.slots.len() < usize::MAX,
        ensures
            final(self)@.wf(),
            ({
                let v = old(self)@;
                let w = final(self)@;
                let slot = MeshSlot {
                    metadata: MeshMetadata {
                        base_offset: v.base_len,
                        skinned_offset: v.skinned_len,
                        index_offset: v.index_len,
                        index_count,
                    },
                    base_count,
                    skinned_count,
                    index_count,
                };
                &&& w.base_len == v.base_len + base_count
                &&& w.skinned_len == v.skinned_len + skinned_count
                &&& w.index_len == v.index_len + index_count
                &&& index < w.slots.len()
                &&& w.slots[index as int] == Some(slot)
                &&& w.order == v.order.push(index)
                &&& (if v.free.len() > 0 {
                    &&& index == v.free.last()
                    &&& w.free == v.free.drop_last()
                    &&& w.slots == v.slots.update(index as int, Some(slot))
                } else {
                    &&& index == v.slots.len()
                    &&& w.free == v.free
                    &&& w.slots == v.slots.push(Some(slot))
                })
            }),
    {
        let slot = MeshSlot {
            metadata: MeshMetadata {
                base_offset: self.base_len,
                skinned_offset: self.skinned_len,
                index_offset: self.index_len,
                index_count,
            },
            base_count,
            skinned_count,
            index_count,
        };
        self.base_len = self.base_len + base_count;
        self.skinned_len = self.skinned_len + skinned_count;
        self.index_len = self.index_len + index_count;
        let index = match self.free_indices.pop() {
            Some(slot_index) => {
                self.slots.set(slot_index, Some(slot));
                slot_index
            },
            None => {
                let slot_index = self.slots.len();
                self.slots.push(Some(slot));
                slot_index
            },
        };
        self.order.push(index);
        proof {
            lemma_insert_wf(old(self)@, self@, index, base_count, skinned_count, index_count);
        }
        index
    }

    /// Removes the meshes at the given slots and compacts the buffers the
    /// way the segments lie: with nothing to remove the buffer is left
    /// exactly as it is; otherwise the freed slots join the free list in
    /// order, every surviving mesh keeps its slot, its counts and its place
    /// in the layout order, survivors laid out before the first removed
    /// segment keep their offsets, and the rest move down in layout order
    /// to close the gaps, leaving the buffer lengths at exactly what the
    /// survivors occupy.
    #[verifier::rlimit(50)]
    pub fn update(&mut self, to_remove: &Vec<usize>)
        requires
            old(self)@.wf(),
            forall|i: int|
                0 <= i < to_remove@.len() ==> (#[trigger] to_remove@[i] < old(self)@.slots.len()
                    && old(self)@.slots[to_remove@[i] as int] is Some),
            forall|i: int, j: int|
                #![trigger to_remove@[i], to_remove@[j]]
                0 <= i < j < to_remove@.len() ==> to_remove@[i] != to_remove@[j],
        ensures
            final(self)@.wf(),
            to_remove@.len() == 0 ==> final(self)@ == old(self)@,
            final(self)@.slots.len() == old(self)@.slots.len(),
            final(self)@.free == old(self)@.free + to_remove@,
            final(self)@.order == retain_live(old(self)@.order, to_remove@),
            forall|k: int|
                0 <= k < to_remove@.len() ==> final(self)@.slots[#[trigger] to_remove@[k] as int]
                    is None,
            forall|k: int|
                0 <= k < old(self)@.slots.len() && !to_remove@.contains(k as usize) ==> (match (
                old(self)@.slots[k],
                #[trigger] final(self)@.slots[k],
            ) {
                (Some(before), Some(after)) => {
                    &&& after.base_count == before.base_count
                    &&& after.skinned_count == before.skinned_count
                    &&& after.index_count == before.index_count
                    &&& after.metadata.index_count == before.metadata.index_count
                },
                (None, None) => true,
                _ => false,
            }),
            ({
                let v = old(self)@;
                let w = final(self)@;
                forall|j: int|
                    #![trigger v.order[j]]
                    0 <= j < v.order.len() && (forall|k: int|
                        0 <= k <= j ==> !to_remove@.contains(#[trigger] v.order[k])) ==> w.slots[
                        v.order[j] as int
                    ] == v.slots[v.order[j] as int]
            }),
    {
        // Nothing dropped since the last update: leave everything alone.
        if to_remove.len() == 0 {
            proof {
                lemma_retain_nothing(old(self)@.order, to_remove@);
                assert(self@.free =~= old(self)@.free + to_remove@);
            }
            return;
        }
        let ghost v = old(self)@;
        let _table_len = self.slots.len();
        proof {
            assert(v.slots.len() <= usize::MAX);
        }
        // Free the removed slots.
        let mut r: usize = 0;
        while r < to_remove.len()
            invariant
                r <= to_remove@.len(),
                self@.slots.len() == v.slots.len(),
                v.slots.len() <= usize::MAX,
                self@.order == v.order,
                self@.base_len == v.base_len,
                self@.skinned_len == v.skinned_len,
                self@.index_len == v.index_len,
                self@.free == v.free + to_remove@.take(r as int),
                forall|i: int|
                    0 <= i < to_remove@.len() ==> (#[trigger] to_remove@[i] < v.slots.len()
                        && v.slots[to_remove@[i] as int] is Some),
                forall|i: int, j: int|
                    #![trigger to_remove@[i], to_remove@[j]]
                    0 <= i < j < to_remove@.len() ==> to_remove@[i] != to_remove@[j],
                forall|k: int|
                    0 <= k < v.slots.len() ==> #[trigger] self@.slots[k] == (if to_remove@.take(
                        r as int,
                    ).contains(k as usize) {
                        None::<MeshSlot>
                    } else {
                        v.slots[k]
                    }),
                v.wf(),
            decreases to_remove@.len() - r,
        {
            let idx = to_remove[r];
            let ghost pre = self@.slots;
            self.slots.set(idx, None);
            self.free_indices.push(idx);
            proof {
                assert(self@.free =~= v.free + to_remove@.take(r + 1));
                let taken = to_remove@.take(r + 1);
                let prior = to_remove@.take(r as int);
                assert(taken[r as int] == to_remove@[r as int]);
                assert forall|k: int| 0 <= k < v.slots.len() implies #[trigger] self@.slots[k]
                    == (if to_remove@.take(r + 1).contains(k as usize) {
                    None::<MeshSlot>
                } else {
                    v.slots[k]
                }) by {
                    assert(pre[k] == (if prior.contains(k as usize) {
                        None::<MeshSlot>
                    } else {
                        v.slots[k]
                    }));
                    if k == idx as int {
                        assert(taken.contains(k as usize));
                    } else {
                        assert(self@.slots[k] == pre[k]);
                        if taken.contains(k as usize) {
                            let j = choose|j: int| 0 <= j < taken.len() && #[trigger] taken[j]
                                == k as usize;
                            assert(j < r) by {
                                if j == r {
                                    assert(taken[j] == idx);
                                    assert((k as usize) as int == k);
                                    assert(k == idx as int);
                                }
                            }
                            assert(prior[j] == k as usize);
                            assert(prior.contains(k as usize));
                        } else {
                            assert(!prior.contains(k as usize)) by {
                                if prior.contains(k as usize) {
                                    let j = choose|j: int|
                                        0 <= j < prior.len() && #[trigger] prior[j] == k as usize;
                                    assert(taken[j] == k as usize);
                                }
                            }
                        }
                    }
                }
            }
            r = r + 1;
        }
        proof {
            assert(to_remove@.take(to_remove@.len() as int) =~= to_remove@);
        }
        let ghost mid = self@.slots;
        // The surviving layout: the old order with the removed slots taken
        // out.  For a slot that was laid out, being empty now means exactly
        // that it was removed.
        proof {
            assert forall|j: int| 0 <= j < v.order.len() implies (mid[#[trigger] v.order[j] as int]
                is None <==> to_remove@.contains(v.order[j])) by {
                assert(v.slots[v.order[j] as int] is Some);
            }
        }
        let mut kept: Vec<usize> = Vec::new();
        let mut i: usize = 0;
        while i < self.order.len()
            invariant
                i <= self@.order.len(),
                self@.order == v.order,
                self@.slots == mid,
                self@.slots.len() == v.slots.len(),
                kept@ == retain_live(v.order.take(i as int), to_remove@),
                forall|j: int|
                    0 <= j < v.order.len() ==> (#[trigger] v.order[j] < v.slots.len() && (mid[
                        v.order[j] as int
                    ] is None <==> to_remove@.contains(v.order[j]))),
            decreases self@.order.len() - i,
        {
            let e = self.order[i];
            proof {
                assert(v.order.take(i + 1).drop_last() =~= v.order.take(i as int));
                assert(v.order.take(i + 1).last() == v.order[i as int]);
            }
            if self.slots[e].is_some() {
                kept.push(e);
                proof {
                    assert(kept@ =~= retain_live(v.order.take(i + 1), to_remove@));
                }
            } else {
                proof {
                    assert(kept@ =~= retain_live(v.order.take(i + 1), to_remove@));
                }
            }
            i = i + 1;
        }
        proof {
            assert(v.order.take(v.order.len() as int) =~= v.order);
        }
        self.order = kept;
        // Compact: walk the surviving layout in order, handing out running
        // totals as the new offsets.  Everything before the first removed
        // segment recomputes to exactly its old offsets and so stays put.
        let ghost korder = self@.order;
        proof {
            lemma_surviving_order_facts(v, mid, to_remove@);
        }
        let mut base_acc: u32 = 0;
        let mut skinned_acc: u32 = 0;
        let mut index_acc: u32 = 0;
        let mut p: usize = 0;
        while p < self.order.len()
            invariant
                p <= korder.len(),
                self@.order == korder,
                korder == retain_live(v.order, to_remove@),
                self@.free == v.free + to_remove@,
                self@.slots.len() == v.slots.len(),
                v.slots.len() <= usize::MAX,
                forall|j: int|
                    0 <= j < korder.len() ==> (#[trigger] korder[j] < v.slots.len() && mid[
                        korder[j] as int
                    ] is Some),
                forall|i2: int, j2: int|
                    #![trigger korder[i2], korder[j2]]
                    0 <= i2 < j2 < korder.len() ==> korder[i2] != korder[j2],
                base_acc == base_sum(mid, korder.take(p as int)),
                skinned_acc == skinned_sum(mid, korder.take(p as int)),
                index_acc == index_sum(mid, korder.take(p as int)),
                base_sum(mid, korder) <= v.base_len,
                skinned_sum(mid, korder) <= v.skinned_len,
                index_sum(mid, korder) <= v.index_len,
                forall|q: int|
                    0 <= q < p ==> #[trigger] self@.slots[korder[q] as int] == Some(
                        repacked(mid, korder, q),
                    ),
                forall|k: int|
                    0 <= k < v.slots.len() && !korder.take(p as int).contains(k as usize)
                        ==> #[trigger] self@.slots[k] == mid[k],
            decreases korder.len() - p,
        {
            let e = self.order[p];
            let ghost pre = self@.slots;
            proof {
                assert(!korder.take(p as int).contains(e)) by {
                    if korder.take(p as int).contains(e) {
                        let q = choose|q: int|
                            0 <= q < p && #[trigger] korder.take(p as int)[q] == e;
                        assert(korder[q] == korder[p as int]);
                    }
                }
                assert(pre[e as int] == mid[e as int]);
                lemma_sums_take_succ(mid, korder, p as int);
                lemma_sums_take_le(mid, korder, p + 1);
            }
            let slot = match self.slots[e] {
                Some(slot) => slot,
                None => MeshSlot {
                    metadata: MeshMetadata {
                        base_offset: 0,
                        skinned_offset: 0,
                        index_offset: 0,
                        index_count: 0,
                    },
                    base_count: 0,
                    skinned_count: 0,
                    index_count: 0,
                },
            };
            let updated = MeshSlot {
                metadata: MeshMetadata {
                    base_offset: base_acc,
                    skinned_offset: skinned_acc,
                    index_offset: index_acc,
                    index_count: slot.index_count,
                },
                base_count: slot.base_count,
                skinned_count: slot.skinned_count,
                index_count: slot.index_count,
            };
            self.slots.set(e, Some(updated));
            proof {
                assert forall|k: int|
                    0 <= k < v.slots.len() && !korder.take(p + 1).contains(k as usize)
                        implies #[trigger] self@.slots[k] == mid[k] by {
                    assert(!korder.take(p as int).contains(k as usize)) by {
                        if korder.take(p as int).contains(k as usize) {
                            let q = choose|q: int|
                                0 <= q < p && #[trigger] korder.take(p as int)[q] == k as usize;
                            assert(korder.take(p + 1)[q] == k as usize);
                        }
                    }
                    assert(korder.take(p + 1)[p as int] == e);
                    assert(k != e as int);
                }
                assert(updated == repacked(mid, korder, p as int));
                assert forall|q: int| 0 <= q < p + 1 implies #[trigger] self@.slots[korder[q]
                    as int] == Some(repacked(mid, korder, q)) by {
                    if q < p {
                        assert(korder[q] != e);
                        assert(self@.slots[korder[q] as int] == pre[korder[q] as int]);
                    }
                }
            }
            base_acc = base_acc + slot.base_count;
            skinned_acc = skinned_acc + slot.skinned_count;
            index_acc = index_acc + slot.index_count;
            proof {
                assert(korder.take(p + 1).drop_last() =~= korder.take(p as int));
                assert(korder.take(p + 1).last() == korder[p as int]);
            }
            p = p + 1;
        }
        self.base_len = base_acc;
        self.skinned_len = skinned_acc;
        self.index_len = index_acc;
        proof {
            assert(korder.take(korder.len() as int) =~= korder);
            lemma_update_wf(v, mid, to_remove@, self@);
        }
    }
}

/// The table entry at position `q` of a repacked layout: the offsets are
/// the running sums of the counts laid out before it; the counts and the
/// index count are the mesh's own, unchanged.
pub open spec fn repacked(mid: Seq<Option<MeshSlot>>, order: Seq<usize>, q: int) -> MeshSlot {
    MeshSlot {
        metadata: MeshMetadata {
            base_offset: base_sum(mid, order.take(q)) as u32,
            skinned_offset: skinned_sum(mid, order.take(q)) as u32,
            index_offset: index_sum(mid, order.take(q)) as u32,
            index_count: mid[order[q] as int]->0.index_count,
        },
        base_count: mid[order[q] as int]->0.base_count,
        skinned_count: mid[order[q] as int]->0.skinned_count,
        index_count: mid[order[q] as int]->0.index_count,
    }
}

/// Inserting at the end of every buffer, into an empty or fresh table
/// slot, keeps the buffer well-formed.
#[verifier::rlimit(100)]
proof fn lemma_insert_wf(
    v: MeshBufferView,
    w: MeshBufferView,
    index: usize,
    base_count: u32,
    skinned_count: u32,
    index_count: u32,
)
    requires
        v.wf(),
        v.slots.len() <= usize::MAX,
        v.base_len + base_count <= u32::MAX,
        v.skinned_len + skinned_count <= u32::MAX,
        v.index_len + index_count <= u32::MAX,
        w.base_len == v.base_len + base_count,
        w.skinned_len == v.skinned_len + skinned_count,
        w.index_len == v.index_len + index_count,
        w.order == v.order.push(index),
        ({
            let slot = MeshSlot {
                metadata: MeshMetadata {
                    base_offset: v.base_len,
                    skinned_offset: v.skinned_len,
                    index_offset: v.index_len,
                    index_count,
                },
                base_count,
                skinned_count,
                index_count,
            };
            if v.free.len() > 0 {
                &&& index == v.free.last()
                &&& w.free == v.free.drop_last()
                &&& w.slots == v.slots.update(index as int, Some(slot))
            } else {
                &&& index == v.slots.len()
                &&& v.slots.len() < usize::MAX
                &&& w.free == v.free
                &&& w.slots == v.slots.push(Some(slot))
            }
        }),
    ensures
        w.wf(),
{
    let slot = MeshSlot {
        metadata: MeshMetadata {
            base_offset: v.base_len,
            skinned_offset: v.skinned_len,
            index_offset: v.index_len,
            index_count,
        },
        base_count,
        skinned_count,
        index_count,
    };
    // The taken slot was not laid out before: order entries are occupied,
    // and the taken slot was empty or fresh.
    assert forall|j: int| 0 <= j < v.order.len() implies v.order[j] != index by {
        if v.free.len() > 0 {
            assert(v.slots[v.order[j] as int] is Some);
            assert(v.slots[index as int] is None);
        } else {
            assert(v.order[j] < v.slots.len());
        }
    }
    assert forall|i: int, j: int|
        #![trigger w.order[i], w.order[j]]
        0 <= i < j < w.order.len() implies w.order[i] != w.order[j] by {
        if j == v.order.len() {
            assert(w.order[i] == v.order[i] && w.order[j] == index);
        } else {
            assert(w.order[i] == v.order[i] && w.order[j] == v.order[j]);
        }
    }
    // Counts of previously laid-out slots are untouched.
    assert forall|j: int| 0 <= j < v.order.len() implies counts_agree(
        v.slots[#[trigger] v.order[j] as int],
        w.slots[v.order[j] as int],
    ) by {
        assert(w.slots[v.order[j] as int] == v.slots[v.order[j] as int]);
    }
    lemma_sums_congruent(v.slots, w.slots, v.order);
    assert(w.order =~= v.order + seq![index]);
    lemma_sums_append(w.slots, v.order, seq![index]);
    lemma_sums_one(w.slots, index);
    // Offsets of previously laid-out slots still read as the sums of what
    // lies before them, and the new slot's offsets are the old lengths,
    // the sum of everything laid out before it.
    assert forall|j: int| 0 <= j < w.order.len() implies match w.slots[
        #[trigger] w.order[j] as int
    ] {
        Some(s) => {
            &&& s.metadata.base_offset == base_sum(w.slots, w.order.take(j))
            &&& s.metadata.skinned_offset == skinned_sum(w.slots, w.order.take(j))
            &&& s.metadata.index_offset == index_sum(w.slots, w.order.take(j))
        },
        None => true,
    } by {
        if j < v.order.len() {
            assert(w.order.take(j) =~= v.order.take(j));
            assert forall|q: int| 0 <= q < j implies counts_agree(
                v.slots[#[trigger] v.order.take(j)[q] as int],
                w.slots[v.order.take(j)[q] as int],
            ) by {
                assert(v.order.take(j)[q] == v.order[q]);
            }
            lemma_sums_congruent(v.slots, w.slots, v.order.take(j));
            assert(w.slots[w.order[j] as int] == v.slots[v.order[j] as int]);
        } else {
            assert(w.order.take(j) =~= v.order);
        }
    }
    // Every mesh still fits under the grown lengths.
    assert forall|k: int|
        0 <= k < w.slots.len() implies match #[trigger] w.slots[k] {
        Some(s) => {
            &&& s.metadata.index_count == s.index_count
            &&& s.metadata.base_offset + s.base_count <= w.base_len
            &&& s.metadata.skinned_offset + s.skinned_count <= w.skinned_len
            &&& s.metadata.index_offset + s.index_count <= w.index_len
        },
        None => true,
    } by {
        if k != index as int {
            assert(w.slots[k] == v.slots[k]);
        }
    }
    // The new slot is in the layout; the rest of the occupancy bookkeeping
    // carries over.
    assert forall|k: int|
        0 <= k < w.slots.len() && w.slots[k] is Some implies w.order.contains(k as usize) by {
        if k == index as int {
            assert(w.order[v.order.len() as int] == index);
        } else {
            assert(v.slots[k] is Some);
            let j = choose|j: int| 0 <= j < v.order.len() && #[trigger] v.order[j] == k as usize;
            assert(w.order[j] == k as usize);
        }
    }
    assert forall|k: int|
        0 <= k < w.slots.len() && w.slots[k] is None implies w.free.contains(k as usize) by {
        assert(v.slots[k] is None);
        let j = choose|j: int| 0 <= j < v.free.len() && #[trigger] v.free[j] == k as usize;
        if v.free.len() > 0 {
            assert(j != v.free.len() - 1) by {
                assert((k as usize) as int == k);
                assert(k != index as int);
            }
            assert(w.free[j] == k as usize);
        }
    }
    assert forall|i: int|
        0 <= i < w.free.len() implies (w.free[i] < w.slots.len() && w.slots[
        #[trigger] w.free[i] as int
    ] is None) by {
        assert(w.free[i] == v.free[i]);
        assert(v.free[i] != index) by {
            if v.free.len() > 0 && v.free[i] == index {
                assert(v.free[i] != v.free[v.free.len() - 1]);
            }
        }
    }
}

/// What the surviving layout looks like once the removed slots are freed:
/// its entries are valid, occupied and distinct, and what it occupies fits
/// in the old buffers.
proof fn lemma_surviving_order_facts(
    v: MeshBufferView,
    mid: Seq<Option<MeshSlot>>,
    removed: Seq<usize>,
)
    requires
        v.wf(),
        mid.len() == v.slots.len(),
        forall|i: int|
            0 <= i < removed.len() ==> (#[trigger] removed[i] < v.slots.len() && v.slots[
                removed[i] as int
            ] is Some),
        forall|k: int|
            0 <= k < v.slots.len() ==> #[trigger] mid[k] == (if removed.contains(k as usize) {
                None::<MeshSlot>
            } else {
                v.slots[k]
            }),
    ensures
        ({
            let korder = retain_live(v.order, removed);
            &&& forall|j: int|
                0 <= j < korder.len() ==> (#[trigger] korder[j] < v.slots.len() && mid[
                    korder[j] as int
                ] is Some)
            &&& forall|i: int, j: int|
                #![trigger korder[i], korder[j]]
                0 <= i < j < korder.len() ==> korder[i] != korder[j]
            &&& base_sum(mid, korder) <= v.base_len
            &&& skinned_sum(mid, korder) <= v.skinned_len
            &&& index_sum(mid, korder) <= v.index_len
        }),
{
    let korder = retain_live(v.order, removed);
    lemma_retain_keeps_entries(v.order, removed);
    lemma_retain_distinct(v.order, removed);
    assert forall|j: int| 0 <= j < korder.len() implies (#[trigger] korder[j] < v.slots.len()
        && mid[korder[j] as int] is Some) by {
        assert(v.order.contains(korder[j]));
        let i = choose|i: int| 0 <= i < v.order.len() && #[trigger] v.order[i] == korder[j];
        assert(v.slots[korder[j] as int] is Some);
        assert(!removed.contains(korder[j]));
    }
    assert forall|j: int| 0 <= j < v.order.len() implies (mid[#[trigger] v.order[j] as int]
        is None || counts_agree(mid[v.order[j] as int], v.slots[v.order[j] as int])) by {
        if !removed.contains(v.order[j]) {
            assert(mid[v.order[j] as int] == v.slots[v.order[j] as int]);
            assert(v.slots[v.order[j] as int] is Some);
        }
    }
    lemma_retain_sums_le(mid, v.order, removed);
    lemma_sums_dominated(mid, v.slots, v.order);
}

/// After a repack only metadata changed, never a count or an occupancy:
/// the removed meshes are gone, and every survivor keeps its counts.
#[verifier::rlimit(100)]
proof fn lemma_update_counts(
    v: MeshBufferView,
    mid: Seq<Option<MeshSlot>>,
    removed: Seq<usize>,
    w: MeshBufferView,
)
    requires
        v.wf(),
        v.slots.len() <= usize::MAX,
        mid.len() == v.slots.len(),
        forall|i: int|
            0 <= i < removed.len() ==> (#[trigger] removed[i] < v.slots.len() && v.slots[
                removed[i] as int
            ] is Some),
        forall|i: int, j: int|
            #![trigger removed[i], removed[j]]
            0 <= i < j < removed.len() ==> removed[i] != removed[j],
        forall|k: int|
            0 <= k < v.slots.len() ==> #[trigger] mid[k] == (if removed.contains(k as usize) {
                None::<MeshSlot>
            } else {
                v.slots[k]
            }),
        w.slots.len() == v.slots.len(),
        w.free == v.free + removed,
        w.order == retain_live(v.order, removed),
        forall|q: int|
            0 <= q < w.order.len() ==> #[trigger] w.slots[w.order[q] as int] == Some(
                repacked(mid, w.order, q),
            ),
        forall|k: int|
            0 <= k < v.slots.len() && !w.order.contains(k as usize) ==> #[trigger] w.slots[k]
                == mid[k],
        w.base_len == base_sum(mid, w.order),
        w.skinned_len == skinned_sum(mid, w.order),
        w.index_len == index_sum(mid, w.order),
    ensures
        forall|k: int| 0 <= k < v.slots.len() ==> counts_agree(mid[k], #[trigger] w.slots[k]),
        forall|k: int| 0 <= k < removed.len() ==> w.slots[#[trigger] removed[k] as int] is None,
        forall|k: int|
            0 <= k < v.slots.len() && !removed.contains(k as usize) ==> (match (
            v.slots[k],
            #[trigger] w.slots[k],
        ) {
            (Some(before), Some(after)) => {
                &&& after.base_count == before.base_count
                &&& after.skinned_count == before.skinned_count
                &&& after.index_count == before.index_count
                &&& after.metadata.index_count == before.metadata.index_count
            },
            (None, None) => true,
            _ => false,
        }),
{
    let korder = w.order;
    lemma_surviving_order_facts(v, mid, removed);
    assert forall|k: int| 0 <= k < v.slots.len() implies counts_agree(
        mid[k],
        #[trigger] w.slots[k],
    ) by {
        if korder.contains(k as usize) {
            let q = choose|q: int| 0 <= q < korder.len() && #[trigger] korder[q] == k as usize;
            assert((k as usize) as int == k);
            assert(w.slots[korder[q] as int] == Some(repacked(mid, korder, q)));
            assert(mid[korder[q] as int] is Some);
        } else {
            assert(w.slots[k] == mid[k]);
            match mid[k] {
                Some(_) => {},
                None => {},
            }
        }
    }
    assert forall|k: int|
        0 <= k < removed.len() implies w.slots[#[trigger] removed[k] as int] is None by {
        assert(mid[removed[k] as int] is None);
    }
    assert forall|k: int|
        0 <= k < v.slots.len() && !removed.contains(k as usize) implies (match (
        v.slots[k],
        #[trigger] w.slots[k],
    ) {
        (Some(before), Some(after)) => {
            &&& after.base_count == before.base_count
            &&& after.skinned_count == before.skinned_count
            &&& after.index_count == before.index_count
            &&& after.metadata.index_count == before.metadata.index_count
        },
        (None, None) => true,
        _ => false,
    }) by {
        assert(mid[k] == v.slots[k]);
        match (v.slots[k], w.slots[k]) {
            (Some(before), Some(after)) => {
                assert(after.metadata.index_count == after.index_count) by {
                    if korder.contains(k as usize) {
                        let q = choose|q: int| 0 <= q < korder.len() && #[trigger] korder[q] == k
                            as usize;
                        assert((k as usize) as int == k);
                        assert(w.slots[korder[q] as int] == Some(repacked(mid, korder, q)));
                    } else {
                        assert(w.slots[k] == mid[k]);
                    }
                }
                assert(before.metadata.index_count == before.index_count);
            },
            _ => {},
        }
    }
}

/// After a repack the free list still holds exactly the empty slots, once
/// each, and the layout still lists every occupied slot.
#[verifier::rlimit(100)]
proof fn lemma_update_occupancy(
    v: MeshBufferView,
    mid: Seq<Option<MeshSlot>>,
    removed: Seq<usize>,
    w: MeshBufferView,
)
    requires
        v.wf(),
        v.slots.len() <= usize::MAX,
        mid.len() == v.slots.len(),
        forall|i: int|
            0 <= i < removed.len() ==> (#[trigger] removed[i] < v.slots.len() && v.slots[
                removed[i] as int
            ] is Some),
        forall|i: int, j: int|
            #![trigger removed[i], removed[j]]
            0 <= i < j < removed.len() ==> removed[i] != removed[j],
        forall|k: int|
            0 <= k < v.slots.len() ==> #[trigger] mid[k] == (if removed.contains(k as usize) {
                None::<MeshSlot>
            } else {
                v.slots[k]
            }),
        w.slots.len() == v.slots.len(),
        w.free == v.free + removed,
        w.order == retain_live(v.order, removed),
        forall|q: int|
            0 <= q < w.order.len() ==> #[trigger] w.slots[w.order[q] as int] == Some(
                repacked(mid, w.order, q),
            ),
        forall|k: int|
            0 <= k < v.slots.len() && !w.order.contains(k as usize) ==> #[trigger] w.slots[k]
                == mid[k],
        w.base_len == base_sum(mid, w.order),
        w.skinned_len == skinned_sum(mid, w.order),
        w.index_len == index_sum(mid, w.order),
        forall|k: int| 0 <= k < v.slots.len() ==> counts_agree(mid[k], #[trigger] w.slots[k]),
    ensures
        forall|i: int|
            0 <= i < w.free.len() ==> (w.free[i] < w.slots.len() && w.slots[
                #[trigger] w.free[i] as int
            ] is None),
        forall|i: int, j: int|
            #![trigger w.free[i], w.free[j]]
            0 <= i < j < w.free.len() ==> w.free[i] != w.free[j],
        forall|k: int|
            0 <= k < w.slots.len() && w.slots[k] is None ==> w.free.contains(k as usize),
        forall|k: int|
            0 <= k < w.slots.len() && w.slots[k] is Some ==> w.order.contains(k as usize),
{
    let korder = w.order;
    assert forall|k: int|
        0 <= k < w.slots.len() && w.slots[k] is None implies w.free.contains(k as usize) by {
        assert(mid[k] is None);
        if v.slots[k] is None {
            let j = choose|j: int| 0 <= j < v.free.len() && #[trigger] v.free[j] == k as usize;
            assert(w.free[j] == k as usize);
        } else {
            assert(removed.contains(k as usize));
            let j = choose|j: int| 0 <= j < removed.len() && #[trigger] removed[j] == k as usize;
            assert(w.free[v.free.len() + j] == k as usize);
        }
    }
    assert forall|i2: int, j2: int|
        #![trigger w.free[i2], w.free[j2]]
        0 <= i2 < j2 < w.free.len() implies w.free[i2] != w.free[j2] by {
        if j2 >= v.free.len() && i2 < v.free.len() {
            assert(v.slots[w.free[j2] as int] is Some);
            assert(v.slots[w.free[i2] as int] is None);
        }
    }
    assert forall|i2: int|
        0 <= i2 < w.free.len() implies (w.free[i2] < w.slots.len() && w.slots[
        #[trigger] w.free[i2] as int
    ] is None) by {
        if i2 < v.free.len() {
            assert(v.slots[w.free[i2] as int] is None);
            assert(!removed.contains(w.free[i2]));
            assert(mid[w.free[i2] as int] is None);
        } else {
            assert(removed.contains(w.free[i2]));
            assert(mid[w.free[i2] as int] is None);
        }
        assert(w.slots[w.free[i2] as int] is None) by {
            assert(counts_agree(mid[w.free[i2] as int], w.slots[w.free[i2] as int]));
        }
    }
    assert forall|k: int|
        0 <= k < w.slots.len() && w.slots[k] is Some implies w.order.contains(k as usize) by {
        assert(mid[k] is Some) by {
            assert(counts_agree(mid[k], w.slots[k]));
        }
        assert(v.slots[k] is Some);
        assert(v.order.contains(k as usize));
        assert(!removed.contains(k as usize));
        lemma_retain_membership(v.order, removed, k as usize);
    }
}

/// After a repack the offsets read as the running sums of the surviving
/// layout, every mesh fits, and the lengths are the totals.
#[verifier::rlimit(100)]
proof fn lemma_update_layout(
    v: MeshBufferView,
    mid: Seq<Option<MeshSlot>>,
    removed: Seq<usize>,
    w: MeshBufferView,
)
    requires
        v.wf(),
        v.slots.len() <= usize::MAX,
        mid.len() == v.slots.len(),
        forall|i: int|
            0 <= i < removed.len() ==> (#[trigger] removed[i] < v.slots.len() && v.slots[
                removed[i] as int
            ] is Some),
        forall|i: int, j: int|
            #![trigger removed[i], removed[j]]
            0 <= i < j < removed.len() ==> removed[i] != removed[j],
        forall|k: int|
            0 <= k < v.slots.len() ==> #[trigger] mid[k] == (if removed.contains(k as usize) {
                None::<MeshSlot>
            } else {
                v.slots[k]
            }),
        w.slots.len() == v.slots.len(),
        w.free == v.free + removed,
        w.order == retain_live(v.order, removed),
        forall|q: int|
            0 <= q < w.order.len() ==> #[trigger] w.slots[w.order[q] as int] == Some(
                repacked(mid, w.order, q),
            ),
        forall|k: int|
            0 <= k < v.slots.len() && !w.order.contains(k as usize) ==> #[trigger] w.slots[k]
                == mid[k],
        w.base_len == base_sum(mid, w.order),
        w.skinned_len == skinned_sum(mid, w.order),
        w.index_len == index_sum(mid, w.order),
        forall|k: int| 0 <= k < v.slots.len() ==> counts_agree(mid[k], #[trigger] w.slots[k]),
    ensures
        forall|j: int|
            0 <= j < w.order.len() ==> match w.slots[#[trigger] w.order[j] as int] {
                Some(slot) => {
                    &&& slot.metadata.base_offset == base_sum(w.slots, w.order.take(j))
                    &&& slot.metadata.skinned_offset == skinned_sum(w.slots, w.order.take(j))
                    &&& slot.metadata.index_offset == index_sum(w.slots, w.order.take(j))
                },
                None => true,
            },
        forall|k: int|
            0 <= k < w.slots.len() ==> match #[trigger] w.slots[k] {
                Some(slot) => {
                    &&& slot.metadata.index_count == slot.index_count
                    &&& slot.metadata.base_offset + slot.base_count <= w.base_len
                    &&& slot.metadata.skinned_offset + slot.skinned_count <= w.skinned_len
                    &&& slot.metadata.index_offset + slot.index_count <= w.index_len
                },
                None => true,
            },
        w.base_len == base_sum(w.slots, w.order),
        w.skinned_len == skinned_sum(w.slots, w.order),
        w.index_len == index_sum(w.slots, w.order),
{
    let korder = w.order;
    lemma_surviving_order_facts(v, mid, removed);
    assert forall|q: int| 0 <= q < korder.len() implies counts_agree(
        mid[#[trigger] korder[q] as int],
        w.slots[korder[q] as int],
    ) by {}
    lemma_sums_congruent(mid, w.slots, korder);
    assert forall|j: int| 0 <= j < w.order.len() implies match w.slots[
        #[trigger] w.order[j] as int
    ] {
        Some(s) => {
            &&& s.metadata.base_offset == base_sum(w.slots, w.order.take(j))
            &&& s.metadata.skinned_offset == skinned_sum(w.slots, w.order.take(j))
            &&& s.metadata.index_offset == index_sum(w.slots, w.order.take(j))
        },
        None => true,
    } by {
        assert forall|q: int| 0 <= q < j implies counts_agree(
            mid[#[trigger] korder.take(j)[q] as int],
            w.slots[korder.take(j)[q] as int],
        ) by {
            assert(korder.take(j)[q] == korder[q]);
        }
        lemma_sums_congruent(mid, w.slots, korder.take(j));
        lemma_sums_take_le(mid, korder, j);
        lemma_sums_nonneg(mid, korder.take(j));
    }
    assert forall|k: int|
        0 <= k < w.slots.len() implies match #[trigger] w.slots[k] {
        Some(s) => {
            &&& s.metadata.index_count == s.index_count
            &&& s.metadata.base_offset + s.base_count <= w.base_len
            &&& s.metadata.skinned_offset + s.skinned_count <= w.skinned_len
            &&& s.metadata.index_offset + s.index_count <= w.index_len
        },
        None => true,
    } by {
        if w.slots[k] is Some {
            assert(korder.contains(k as usize)) by {
                if !korder.contains(k as usize) {
                    assert(w.slots[k] == mid[k]);
                    assert(mid[k] is Some);
                    assert(v.slots[k] is Some);
                    assert(v.order.contains(k as usize));
                    assert(!removed.contains(k as usize));
                    lemma_retain_membership(v.order, removed, k as usize);
                }
            }
            let q = choose|q: int| 0 <= q < korder.len() && #[trigger] korder[q] == k as usize;
            assert((k as usize) as int == k);
            assert(w.slots[k] == Some(repacked(mid, korder, q)));
            lemma_sums_take_succ(mid, korder, q);
            lemma_sums_take_le(mid, korder, q + 1);
            lemma_sums_nonneg(mid, korder.take(q));
        }
    }
}

/// Survivors laid out before the first removed segment recompute to their
/// old offsets exactly, so they do not move.
#[verifier::rlimit(100)]
proof fn lemma_update_prefix(
    v: MeshBufferView,
    mid: Seq<Option<MeshSlot>>,
    removed: Seq<usize>,
    w: MeshBufferView,
)
    requires
        v.wf(),
        v.slots.len() <= usize::MAX,
        mid.len() == v.slots.len(),
        forall|i: int|
            0 <= i < removed.len() ==> (#[trigger] removed[i] < v.slots.len() && v.slots[
                removed[i] as int
            ] is Some),
        forall|i: int, j: int|
            #![trigger removed[i], removed[j]]
            0 <= i < j < removed.len() ==> removed[i] != removed[j],
        forall|k: int|
            0 <= k < v.slots.len() ==> #[trigger] mid[k] == (if removed.contains(k as usize) {
                None::<MeshSlot>
            } else {
                v.slots[k]
            }),
        w.slots.len() == v.slots.len(),
        w.free == v.free + removed,
        w.order == retain_live(v.order, removed),
        forall|q: int|
            0 <= q < w.order.len() ==> #[trigger] w.slots[w.order[q] as int] == Some(
                repacked(mid, w.order, q),
            ),
        forall|k: int|
            0 <= k < v.slots.len() && !w.order.contains(k as usize) ==> #[trigger] w.slots[k]
                == mid[k],
        w.base_len == base_sum(mid, w.order),
        w.skinned_len == skinned_sum(mid, w.order),
        w.index_len == index_sum(mid, w.order),
    ensures
        forall|j: int|
            #![trigger v.order[j]]
            0 <= j < v.order.len() && (forall|k: int|
                0 <= k <= j ==> !removed.contains(#[trigger] v.order[k])) ==> w.slots[v.order[j]
                as int] == v.slots[v.order[j] as int],
{
    let korder = w.order;
    assert forall|j: int|
        #![trigger v.order[j]]
        0 <= j < v.order.len() && (forall|k: int|
            0 <= k <= j ==> !removed.contains(#[trigger] v.order[k])) implies w.slots[v.order[j]
        as int] == v.slots[v.order[j] as int] by {
        lemma_retain_prefix(v.order, removed, j + 1);
        assert(korder.take(j + 1) =~= v.order.take(j + 1));
        assert(korder.take(j + 1)[j] == v.order[j]);
        assert(korder[j] == v.order[j]);
        assert(korder.take(j) =~= v.order.take(j));
        assert forall|q: int| 0 <= q < j implies counts_agree(
            mid[#[trigger] v.order.take(j)[q] as int],
            v.slots[v.order.take(j)[q] as int],
        ) by {
            assert(v.order.take(j)[q] == v.order[q]);
            assert(!removed.contains(v.order[q]));
            assert(mid[v.order[q] as int] == v.slots[v.order[q] as int]);
            assert(v.slots[v.order[q] as int] is Some);
        }
        lemma_sums_congruent(mid, v.slots, v.order.take(j));
        assert(mid[v.order[j] as int] == v.slots[v.order[j] as int]);
        assert(w.slots[korder[j] as int] == Some(repacked(mid, korder, j)));
        lemma_sums_nonneg(v.slots, v.order.take(j));
    }
}

/// Repacking the survivors in layout order leaves the buffer well-formed,
/// the removed meshes gone, every survivor's counts intact, and every
/// survivor laid out before the first removed segment exactly where it
/// was.
proof fn lemma_update_wf(
    v: MeshBufferView,
    mid: Seq<Option<MeshSlot>>,
    removed: Seq<usize>,
    w: MeshBufferView,
)
    requires
        v.wf(),
        v.slots.len() <= usize::MAX,
        mid.len() == v.slots.len(),
        forall|i: int|
            0 <= i < removed.len() ==> (#[trigger] removed[i] < v.slots.len() && v.slots[
                removed[i] as int
            ] is Some),
        forall|i: int, j: int|
            #![trigger removed[i], removed[j]]
            0 <= i < j < removed.len() ==> removed[i] != removed[j],
        forall|k: int|
            0 <= k < v.slots.len() ==> #[trigger] mid[k] == (if removed.contains(k as usize) {
                None::<MeshSlot>
            } else {
                v.slots[k]
            }),
        w.slots.len() == v.slots.len(),
        w.free == v.free + removed,
        w.order == retain_live(v.order, removed),
        forall|q: int|
            0 <= q < w.order.len() ==> #[trigger] w.slots[w.order[q] as int] == Some(
                repacked(mid, w.order, q),
            ),
        forall|k: int|
            0 <= k < v.slots.len() && !w.order.contains(k as usize) ==> #[trigger] w.slots[k]
                == mid[k],
        w.base_len == base_sum(mid, w.order),
        w.skinned_len == skinned_sum(mid, w.order),
        w.index_len == index_sum(mid, w.order),
    ensures
        w.wf(),
        forall|k: int| 0 <= k < removed.len() ==> w.slots[#[trigger] removed[k] as int] is None,
        forall|k: int|
            0 <= k < v.slots.len() && !removed.contains(k as usize) ==> (match (
            v.slots[k],
            #[trigger] w.slots[k],
        ) {
            (Some(before), Some(after)) => {
                &&& after.base_count == before.base_count
                &&& after.skinned_count == before.skinned_count
                &&& after.index_count == before.index_count
                &&& after.metadata.index_count == before.metadata.index_count
            },
            (None, None) => true,
            _ => false,
        }),
        forall|j: int|
            #![trigger v.order[j]]
            0 <= j < v.order.len() && (forall|k: int|
                0 <= k <= j ==> !removed.contains(#[trigger] v.order[k])) ==> w.slots[v.order[j]
                as int] == v.slots[v.order[j] as int],
{
    lemma_surviving_order_facts(v, mid, removed);
    lemma_update_counts(v, mid, removed, w);
    lemma_update_occupancy(v, mid, removed, w);
    lemma_update_layout(v, mid, removed, w);
    lemma_update_prefix(v, mid, removed, w);
}


/// With nothing removed, the layout is kept as it is.
proof fn lemma_retain_nothing(order: Seq<usize>, removed: Seq<usize>)
    requires
        removed.len() == 0,
    ensures
        retain_live(order, removed) == order,
    decreases order.len(),
{
    if order.len() > 0 {
        lemma_retain_nothing(order.drop_last(), removed);
        assert(retain_live(order, removed) =~= order);
    }
}

/// The sums are never negative.
proof fn lemma_sums_nonneg(slots: Seq<Option<MeshSlot>>, order: Seq<usize>)
    ensures
        base_sum(slots, order) >= 0,
        skinned_sum(slots, order) >= 0,
        index_sum(slots, order) >= 0,
    decreases order.len(),
{
    if order.len() > 0 {
        lemma_sums_nonneg(slots, order.drop_last());
    }
}

/// The sums split over concatenation.
proof fn lemma_sums_append(slots: Seq<Option<MeshSlot>>, a: Seq<usize>, b: Seq<usize>)
    ensures
        base_sum(slots, a + b) == base_sum(slots, a) + base_sum(slots, b),
        skinned_sum(slots, a + b) == skinned_sum(slots, a) + skinned_sum(slots, b),
        index_sum(slots, a + b) == index_sum(slots, a) + index_sum(slots, b),
    decreases b.len(),
{
    if b.len() == 0 {
        assert(a + b =~= a);
    } else {
        assert((a + b).drop_last() =~= a + b.drop_last());
        lemma_sums_append(slots, a, b.drop_last());
    }
}

/// The sums of one slot are its counts.
proof fn lemma_sums_one(slots: Seq<Option<MeshSlot>>, e: usize)
    ensures
        base_sum(slots, seq![e]) == match slots[e as int] {
            Some(slot) => slot.base_count as int,
            None => 0,
        },
        skinned_sum(slots, seq![e]) == match slots[e as int] {
            Some(slot) => slot.skinned_count as int,
            None => 0,
        },
        index_sum(slots, seq![e]) == match slots[e as int] {
            Some(slot) => slot.index_count as int,
            None => 0,
        },
{
    reveal_with_fuel(base_sum, 2);
    reveal_with_fuel(skinned_sum, 2);
    reveal_with_fuel(index_sum, 2);
    assert(seq![e].drop_last() =~= Seq::<usize>::empty());
}

/// The sums read only the counts of the listed slots.
proof fn lemma_sums_congruent(
    s1: Seq<Option<MeshSlot>>,
    s2: Seq<Option<MeshSlot>>,
    order: Seq<usize>,
)
    requires
        forall|j: int|
            0 <= j < order.len() ==> counts_agree(
                s1[#[trigger] order[j] as int],
                s2[order[j] as int],
            ),
    ensures
        base_sum(s1, order) == base_sum(s2, order),
        skinned_sum(s1, order) == skinned_sum(s2, order),
        index_sum(s1, order) == index_sum(s2, order),
    decreases order.len(),
{
    if order.len() > 0 {
        assert forall|j: int| 0 <= j < order.len() - 1 implies counts_agree(
            s1[#[trigger] order.drop_last()[j] as int],
            s2[order.drop_last()[j] as int],
        ) by {
            assert(order.drop_last()[j] == order[j]);
        }
        lemma_sums_congruent(s1, s2, order.drop_last());
    }
}

/// Emptying some listed slots never raises a sum.
proof fn lemma_sums_dominated(
    s1: Seq<Option<MeshSlot>>,
    s2: Seq<Option<MeshSlot>>,
    order: Seq<usize>,
)
    requires
        forall|j: int|
            0 <= j < order.len() ==> (s1[#[trigger] order[j] as int] is None || counts_agree(
                s1[order[j] as int],
                s2[order[j] as int],
            )),
    ensures
        base_sum(s1, order) <= base_sum(s2, order),
        skinned_sum(s1, order) <= skinned_sum(s2, order),
        index_sum(s1, order) <= index_sum(s2, order),
    decreases order.len(),
{
    if order.len() > 0 {
        assert forall|j: int| 0 <= j < order.len() - 1 implies (s1[#[trigger] order.drop_last()[j]
            as int] is None || counts_agree(
            s1[order.drop_last()[j] as int],
            s2[order.drop_last()[j] as int],
        )) by {
            assert(order.drop_last()[j] == order[j]);
        }
        lemma_sums_dominated(s1, s2, order.drop_last());
    }
}

/// A prefix sums to no more than the whole.
proof fn lemma_sums_take_le(slots: Seq<Option<MeshSlot>>, order: Seq<usize>, j: int)
    requires
        0 <= j <= order.len(),
    ensures
        base_sum(slots, order.take(j)) <= base_sum(slots, order),
        skinned_sum(slots, order.take(j)) <= skinned_sum(slots, order),
        index_sum(slots, order.take(j)) <= index_sum(slots, order),
{
    assert(order =~= order.take(j) + order.skip(j));
    lemma_sums_append(slots, order.take(j), order.skip(j));
    lemma_sums_nonneg(slots, order.skip(j));
}

/// One more slot in the prefix adds exactly its counts.
proof fn lemma_sums_take_succ(slots: Seq<Option<MeshSlot>>, order: Seq<usize>, j: int)
    requires
        0 <= j < order.len(),
    ensures
        base_sum(slots, order.take(j + 1)) == base_sum(slots, order.take(j)) + match slots[
            order[j] as int
        ] {
            Some(slot) => slot.base_count as int,
            None => 0,
        },
        skinned_sum(slots, order.take(j + 1)) == skinned_sum(slots, order.take(j)) + match slots[
            order[j] as int
        ] {
            Some(slot) => slot.skinned_count as int,
            None => 0,
        },
        index_sum(slots, order.take(j + 1)) == index_sum(slots, order.take(j)) + match slots[
            order[j] as int
        ] {
            Some(slot) => slot.index_count as int,
            None => 0,
        },
{
    assert(order.take(j + 1).drop_last() =~= order.take(j));
    assert(order.take(j + 1).last() == order[j]);
}

/// A slot survives the removal exactly when it was laid out and not
/// removed.
proof fn lemma_retain_membership(order: Seq<usize>, removed: Seq<usize>, e: usize)
    ensures
        retain_live(order, removed).contains(e) <==> (order.contains(e) && !removed.contains(e)),
    decreases order.len(),
{
    if order.len() == 0 {
        assert(!order.contains(e));
        assert(!retain_live(order, removed).contains(e));
    } else {
        let rl = retain_live(order.drop_last(), removed);
        lemma_retain_membership(order.drop_last(), removed, e);
        let whole = retain_live(order, removed);
        if removed.contains(order.last()) {
            assert(whole =~= rl);
            assert(order.drop_last().contains(e) ==> order.contains(e)) by {
                if order.drop_last().contains(e) {
                    let j = choose|j: int|
                        0 <= j < order.len() - 1 && #[trigger] order.drop_last()[j] == e;
                    assert(order[j] == e);
                }
            }
            assert((order.contains(e) && !removed.contains(e)) ==> order.drop_last().contains(
                e,
            )) by {
                if order.contains(e) && !removed.contains(e) {
                    let j = choose|j: int| 0 <= j < order.len() && #[trigger] order[j] == e;
                    assert(j != order.len() - 1);
                    assert(order.drop_last()[j] == e);
                }
            }
        } else {
            assert(whole.contains(e) <==> (rl.contains(e) || e == order.last())) by {
                if whole.contains(e) {
                    let j = choose|j: int| 0 <= j < whole.len() && #[trigger] whole[j] == e;
                    if j < rl.len() {
                        assert(rl[j] == e);
                    } else {
                        assert(e == order.last());
                    }
                }
                if rl.contains(e) {
                    let j = choose|j: int| 0 <= j < rl.len() && #[trigger] rl[j] == e;
                    assert(whole[j] == e);
                }
                if e == order.last() {
                    assert(whole[whole.len() - 1] == e);
                }
            }
            assert(order.contains(e) <==> (order.drop_last().contains(e) || e == order.last()))
                by {
                if order.contains(e) {
                    let j = choose|j: int| 0 <= j < order.len() && #[trigger] order[j] == e;
                    if j < order.len() - 1 {
                        assert(order.drop_last()[j] == e);
                    }
                }
                if order.drop_last().contains(e) {
                    let j = choose|j: int|
                        0 <= j < order.len() - 1 && #[trigger] order.drop_last()[j] == e;
                    assert(order[j] == e);
                }
                if e == order.last() {
                    assert(order[order.len() - 1] == e);
                }
            }
        }
    }
}

/// The surviving layout points only at slots the removal left occupied.
proof fn lemma_retain_keeps_entries(order: Seq<usize>, removed: Seq<usize>)
    ensures
        forall|j: int|
            0 <= j < retain_live(order, removed).len() ==> (order.contains(
                #[trigger] retain_live(order, removed)[j],
            ) && !removed.contains(retain_live(order, removed)[j])),
{
    assert forall|j: int| 0 <= j < retain_live(order, removed).len() implies (order.contains(
        #[trigger] retain_live(order, removed)[j],
    ) && !removed.contains(retain_live(order, removed)[j])) by {
        assert(retain_live(order, removed).contains(retain_live(order, removed)[j]));
        lemma_retain_membership(order, removed, retain_live(order, removed)[j]);
    }
}

/// Survivors keep their relative order and stay pairwise distinct.
proof fn lemma_retain_distinct(order: Seq<usize>, removed: Seq<usize>)
    requires
        forall|i: int, j: int|
            #![trigger order[i], order[j]]
            0 <= i < j < order.len() ==> order[i] != order[j],
    ensures
        forall|i: int, j: int|
            #![trigger retain_live(order, removed)[i], retain_live(order, removed)[j]]
            0 <= i < j < retain_live(order, removed).len() ==> retain_live(order, removed)[i]
                != retain_live(order, removed)[j],
    decreases order.len(),
{
    if order.len() > 0 {
        let rl = retain_live(order.drop_last(), removed);
        assert forall|i: int, j: int|
            #![trigger order.drop_last()[i], order.drop_last()[j]]
            0 <= i < j < order.len() - 1 implies order.drop_last()[i] != order.drop_last()[j] by {
            assert(order[i] == order.drop_last()[i] && order[j] == order.drop_last()[j]);
        }
        lemma_retain_distinct(order.drop_last(), removed);
        let whole = retain_live(order, removed);
        if removed.contains(order.last()) {
            assert(whole =~= rl);
        } else {
            assert(!rl.contains(order.last())) by {
                lemma_retain_membership(order.drop_last(), removed, order.last());
                if order.drop_last().contains(order.last()) {
                    let j = choose|j: int|
                        0 <= j < order.len() - 1 && #[trigger] order.drop_last()[j]
                            == order.last();
                    assert(order[j] == order[order.len() - 1]);
                }
            }
            assert forall|i: int, j: int|
                #![trigger whole[i], whole[j]]
                0 <= i < j < whole.len() implies whole[i] != whole[j] by {
                if j == whole.len() - 1 {
                    assert(whole[j] == order.last());
                    assert(whole[i] == rl[i]);
                    assert(rl.contains(rl[i]));
                } else {
                    assert(whole[i] == rl[i] && whole[j] == rl[j]);
                }
            }
        }
    }
}

/// The survivors occupy no more than everything laid out before.
proof fn lemma_retain_sums_le(slots: Seq<Option<MeshSlot>>, order: Seq<usize>, removed: Seq<usize>)
    ensures
        base_sum(slots, retain_live(order, removed)) <= base_sum(slots, order),
        skinned_sum(slots, retain_live(order, removed)) <= skinned_sum(slots, order),
        index_sum(slots, retain_live(order, removed)) <= index_sum(slots, order),
    decreases order.len(),
{
    if order.len() > 0 {
        let rl = retain_live(order.drop_last(), removed);
        lemma_retain_sums_le(slots, order.drop_last(), removed);
        if removed.contains(order.last()) {
            assert(retain_live(order, removed) =~= rl);
        } else {
            lemma_sums_append(slots, rl, seq![order.last()]);
            lemma_sums_one(slots, order.last());
        }
    }
}

/// The layout of the survivors never grows.
proof fn lemma_retain_len(order: Seq<usize>, removed: Seq<usize>)
    ensures
        retain_live(order, removed).len() <= order.len(),
    decreases order.len(),
{
    if order.len() > 0 {
        lemma_retain_len(order.drop_last(), removed);
    }
}

/// As long as nothing removed has been laid out yet, the surviving layout
/// begins exactly as the old one did.
proof fn lemma_retain_prefix(order: Seq<usize>, removed: Seq<usize>, j: int)
    requires
        0 <= j <= order.len(),
        forall|k: int| 0 <= k < j ==> !removed.contains(#[trigger] order[k]),
    ensures
        retain_live(order, removed).len() >= j,
        retain_live(order, removed).take(j) == order.take(j),
    decreases order.len(),
{
    if order.len() == 0 {
        assert(retain_live(order, removed).take(j) =~= order.take(j));
    } else {
        let rl = retain_live(order.drop_last(), removed);
        let whole = retain_live(order, removed);
        if j <= order.len() - 1 {
            assert forall|k: int| 0 <= k < j implies !removed.contains(
                #[trigger] order.drop_last()[k],
            ) by {
                assert(order.drop_last()[k] == order[k]);
            }
            lemma_retain_prefix(order.drop_last(), removed, j);
            assert(whole.take(j) =~= rl.take(j));
            assert(rl.take(j) == order.drop_last().take(j));
            assert(order.drop_last().take(j) =~= order.take(j));
        } else {
            // Every laid-out slot survives: the layout is unchanged.
            assert(!removed.contains(order.last())) by {
                assert(order[order.len() - 1] == order.last());
            }
            assert forall|k: int| 0 <= k < order.len() - 1 implies !removed.contains(
                #[trigger] order.drop_last()[k],
            ) by {
                assert(order.drop_last()[k] == order[k]);
            }
            lemma_retain_prefix(order.drop_last(), removed, order.len() - 1);
            lemma_retain_len(order.drop_last(), removed);
            assert(rl.len() == order.len() - 1);
            assert(rl =~= order.drop_last()) by {
                assert(rl.take(order.len() - 1) == order.drop_last().take(order.len() - 1));
                assert(order.drop_last().take(order.len() - 1) =~= order.drop_last());
                assert(rl.take(order.len() - 1) =~= rl);
            }
            assert(whole =~= order);
            assert(whole.take(j) =~= order.take(j));
        }
    }
}

/// The free list never outgrows the table: its entries are distinct slot
/// numbers.
proof fn lemma_free_at_most_slots(v: MeshBufferView)
    requires
        v.wf(),
    ensures
        v.free.len() <= v.slots.len(),
{
    let free_ints = v.free.map_values(|u: usize| u as int);
    assert forall|i: int, j: int|
        #![trigger free_ints[i], free_ints[j]]
        0 <= i < free_ints.len() && 0 <= j < free_ints.len() && i != j implies free_ints[i]
        != free_ints[j] by {
        if i < j {
            assert(v.free[i] != v.free[j]);
        } else {
            assert(v.free[j] != v.free[i]);
        }
    }
    assert(free_ints.no_duplicates());
    free_ints.unique_seq_to_set();
    let n = v.slots.len() as int;
    assert(free_ints.to_set().subset_of(set_int_range(0, n))) by {
        assert forall|x: int| free_ints.to_set().contains(x) implies set_int_range(
            0,
            n,
        ).contains(x) by {
            let j = choose|j: int| #![auto] 0 <= j < free_ints.len() && free_ints[j] == x;
            assert(v.free[j] < v.slots.len());
        }
    }
    lemma_int_range(0, n);
    lemma_len_subset(free_ints.to_set(), set_int_range(0, n));
}

} // verus!

//! Bookkeeping of GPU buffers on the CPU side: queued writes into a
//! storage buffer and how it grows, buffer sizes rounded to powers of
//! two, merging of meshes into one vertex and index stream, and the slots
//! of per-frame instance data.
use crate::render::FRAMES_IN_FLIGHT;
use vstd::prelude::*;

verus! {

/// The most instances drawn in one frame.
pub const MAX_INSTANCES: usize = 8 * 1024;

/// `r` is a power of two.
pub open spec fn is_pow2(r: u64) -> bool {
    r != 0 && r & ((r - 1) as u64) == 0
}

/// `r` is the smallest power of two that is at least `n`.
pub open spec fn is_pow2_ceil(r: u64, n: u64) -> bool {
    &&& is_pow2(r)
    &&& n <= r
    &&& (r == 1 || r / 2 < n)
}

/// The smallest power of two that is at least `n`, as
/// `u64::next_power_of_two` gives it (which overflows above `2^63`).
fn next_power_of_two(n: u64) -> (r: u64)
    requires
        n <= 0x8000_0000_0000_0000,
    ensures
        is_pow2_ceil(r, n),
{
    let mut r: u64 = 1;
    assert(is_pow2(1u64)) by (bit_vector);
    while r < n
        invariant
            n <= 0x8000_0000_0000_0000,
            is_pow2(r),
            r == 1 || r / 2 < n,
            r <= 0x8000_0000_0000_0000,
        decreases 0x8000_0000_0000_0000 - r,
    {
        assert(is_pow2(r) && r < 0x8000_0000_0000_0000 ==> r <= 0x4000_0000_0000_0000 && is_pow2(
            (r * 2) as u64,
        )) by (bit_vector);
        r = r * 2;
    }
    r
}

/// The capacity a buffer of `capacity` elements (or bytes) is replaced
/// with when it must hold `needed`: none while it is big enough, else the
/// next power of two.
pub fn grow_to_fit(capacity: u64, needed: u64) -> (r: Option<u64>)
    requires
        capacity < needed ==> needed <= 0x8000_0000_0000_0000,
    ensures
        capacity >= needed ==> r is None,
        capacity < needed ==> r is Some && is_pow2_ceil(r.unwrap(), needed),
{
    if capacity < needed {
        Some(next_power_of_two(needed))
    } else {
        None
    }
}

/// What a storage buffer's resolve step asks of the GPU side.
pub enum ResolveAction<T> {
    /// The resize and upload task is still running.
    Wait,
    /// The task finished; the buffer now holds `new_size` bytes of data.
    Finished { new_size: u64 },
    /// Start a task that grows the buffer if it holds less than `new_size`
    /// bytes and performs `writes` (byte offset, data).
    Start { new_size: u64, writes: Vec<(u64, Vec<T>)> },
    /// Nothing to do.
    Idle,
}

/// The CPU side of a GPU storage buffer of `T`: the writes queued since
/// the last upload, the bytes they reach (`queue_size`), the bytes of data
/// in the buffer (`size`), and the data size of the upload task, if one
/// was started.
pub struct StorageBuffer<T> {
    pub writes: Vec<(u64, Vec<T>)>,
    pub size: u64,
    pub queue_size: u64,
    pub task_size: Option<u64>,
}

impl<T> StorageBuffer<T> {
    /// An empty buffer with nothing queued.
    pub fn new() -> (b: Self)
        ensures
            b.writes@.len() == 0,
            b.size == 0,
            b.queue_size == 0,
            b.task_size is None,
    {
        StorageBuffer { writes: Vec::new(), size: 0, queue_size: 0, task_size: None }
    }

    /// The number of elements of data in the buffer.
    pub fn len(&self) -> (n: usize)
        requires
            vstd::layout::size_of::<T>() > 0,
        ensures
            n == (self.size as usize) / (vstd::layout::size_of::<T>() as usize),
    {
        (self.size as usize) / core::mem::size_of::<T>()
    }

    /// Queues `data` to be written after everything queued so far, and
    /// returns the byte offset it goes to.
    pub fn queue_wirte(&mut self, data: Vec<T>) -> (offset: u64)
        requires
            data@.len() * vstd::layout::size_of::<T>() <= usize::MAX,
            old(self).queue_size + data@.len() * vstd::layout::size_of::<T>() <= u64::MAX,
        ensures
            offset == old(self).queue_size,
            final(self).queue_size == old(self).queue_size + data@.len() * vstd::layout::size_of::<T>(),
            final(self).writes@ == old(self).writes@.push((offset, data)),
            final(self).size == old(self).size,
            final(self).task_size == old(self).task_size,
    {
        let offset = self.queue_size;
        let n = data.len();
        let elem = core::mem::size_of::<T>();
        let data_size = (n * elem) as u64;
        self.writes.push((offset, data));
        self.queue_size = self.queue_size + data_size;
        offset
    }

    /// One resolve step. While an upload task runs, its completion
    /// (`task_ready`) sets the data size; the task stays recorded, so later
    /// writes wait. Without a task, queued writes start one that makes the
    /// buffer hold `queue_size` bytes.
    pub fn resolve_write(&mut self, task_ready: bool) -> (action: ResolveAction<T>)
        ensures
            final(self).queue_size == old(self).queue_size,
            match old(self).task_size {
                Some(n) => {
                    &&& final(self).task_size == old(self).task_size
                    &&& final(self).writes@ == old(self).writes@
                    &&& (task_ready ==> final(self).size == n && action == ResolveAction::<T>::Finished { new_size: n })
                    &&& (!task_ready ==> final(self).size == old(self).size && action == ResolveAction::<T>::Wait)
                },
                None => if old(self).writes@.len() > 0 {
                    &&& final(self).task_size == Some(old(self).queue_size)
                    &&& final(self).writes@.len() == 0
                    &&& final(self).size == old(self).size
                    &&& action matches ResolveAction::Start { new_size, writes } && new_size == old(self).queue_size
                        && writes@ == old(self).writes@
                } else {
                    &&& final(self).task_size is None
                    &&& final(self).writes@ == old(self).writes@
                    &&& final(self).size == old(self).size
                    &&& action == ResolveAction::<T>::Idle
                },
            },
    {
        match self.task_size {
            Some(n) => {
                if task_ready {
                    self.size = n;
                    ResolveAction::Finished { new_size: n }
                } else {
                    ResolveAction::Wait
                }
            },
            None => {
                if self.writes.len() > 0 {
                    let queue_size = self.queue_size;
                    let mut writes: Vec<(u64, Vec<T>)> = Vec::new();
                    core::mem::swap(&mut writes, &mut self.writes);
                    self.task_size = Some(queue_size);
                    ResolveAction::Start { new_size: queue_size, writes }
                } else {
                    ResolveAction::Idle
                }
            },
        }
    }
}

/// Appends a mesh to the vertices and indices of a frame: its vertices go
/// after the ones already there, and its indices are shifted by that
/// vertex count (taken as `u32`, truncating like an `as` cast).
pub fn append_mesh<V: Copy>(
    vertices: &mut Vec<V>,
    indices: &mut Vec<u32>,
    mesh_vertices: &Vec<V>,
    mesh_indices: &Vec<u32>,
)
    requires
        old(vertices)@.len() + mesh_vertices@.len() <= usize::MAX,
        old(indices)@.len() + mesh_indices@.len() <= usize::MAX,
        forall|i: int|
            0 <= i < mesh_indices@.len() ==> #[trigger] mesh_indices@[i] + (old(vertices)@.len() as u32)
                <= u32::MAX,
    ensures
        final(vertices)@ == old(vertices)@ + mesh_vertices@,
        final(indices)@.len() == old(indices)@.len() + mesh_indices@.len(),
        forall|i: int| 0 <= i < old(indices)@.len() ==> #[trigger] final(indices)@[i] == old(indices)@[i],
        forall|i: int|
            0 <= i < mesh_indices@.len() ==> #[trigger] final(indices)@[old(indices)@.len() + i]
                == mesh_indices@[i] + (old(vertices)@.len() as u32),
{
    #[verifier::truncate]
    let vertex_offset = vertices.len() as u32;
    let ghost base = indices@;
    let mut i: usize = 0;
    while i < mesh_indices.len()
        invariant
            i <= mesh_indices@.len(),
            vertex_offset == (old(vertices)@.len() as u32),
            base == old(indices)@,
            base.len() + mesh_indices@.len() <= usize::MAX,
            indices@.len() == base.len() + i,
            forall|k: int| 0 <= k < base.len() ==> #[trigger] indices@[k] == base[k],
            forall|k: int|
                0 <= k < mesh_indices@.len() ==> #[trigger] mesh_indices@[k] + vertex_offset <= u32::MAX,
            forall|k: int|
                0 <= k < i ==> #[trigger] indices@[base.len() + k] == mesh_indices@[k] + vertex_offset,
        decreases mesh_indices@.len() - i,
    {
        indices.push(mesh_indices[i] + vertex_offset);
        i = i + 1;
    }
    let ghost vbase = vertices@;
    let mut j: usize = 0;
    while j < mesh_vertices.len()
        invariant
            j <= mesh_vertices@.len(),
            vbase == old(vertices)@,
            vbase.len() + mesh_vertices@.len() <= usize::MAX,
            vertices@ == vbase + mesh_vertices@.subrange(0, j as int),
        decreases mesh_vertices@.len() - j,
    {
        vertices.push(mesh_vertices[j]);
        j = j + 1;
        proof {
            assert(vertices@ =~= vbase + mesh_vertices@.subrange(0, j as int));
        }
    }
    proof {
        assert(mesh_vertices@.subrange(0, mesh_vertices@.len() as int) =~= mesh_vertices@);
    }
}

/// Merged meshes keep their triangles: when a mesh's indices point at its
/// own vertices and the earlier vertices fit `u32`, the shifted indices
/// point at the mesh's vertices in the merged stream.
pub proof fn lemma_appended_indices_in_range(old_len: nat, mesh_len: nat, index: u32)
    requires
        old_len <= u32::MAX,
        index < mesh_len,
        index + old_len <= u32::MAX,
    ensures
        old_len <= index + (old_len as u32) < old_len + mesh_len,
{
    assert((old_len as u32) == old_len);
}

/// The slot of instance `slot` in the buffers of frame `frame_in_flight`:
/// each frame in flight owns its own `MAX_INSTANCES` slots, so frames never
/// share a slot while there are at most `MAX_INSTANCES` instances.
pub fn instance_slot(slot: usize, frame_in_flight: usize) -> (i: usize)
    requires
        frame_in_flight < FRAMES_IN_FLIGHT,
        slot + frame_in_flight * MAX_INSTANCES <= usize::MAX,
    ensures
        i == slot + frame_in_flight * MAX_INSTANCES,
        slot < MAX_INSTANCES ==> frame_in_flight * MAX_INSTANCES <= i < (frame_in_flight + 1)
            * MAX_INSTANCES,
{
    slot + frame_in_flight * MAX_INSTANCES
}

/// The addresses of an instance's meshlets and culling data: the mesh's
/// offsets from the address of its data.
pub fn instance_header(meshlet_offset: u32, cull_data_offset: u32, bvh_root: u64) -> (r: (u64, u64))
    requires
        meshlet_offset + bvh_root <= u64::MAX,
        cull_data_offset + bvh_root <= u64::MAX,
    ensures
        r.0 == meshlet_offset + bvh_root,
        r.1 == cull_data_offset + bvh_root,
{
    (meshlet_offset as u64 + bvh_root, cull_data_offset as u64 + bvh_root)
}

/// The flag bit of an instance drawn with an outline.
pub const OUTLINE: u32 = 1;

/// The flags an instance is drawn with: its own, plus the outline when it
/// is selected.
pub fn instance_flags(flags: u32, selected: bool) -> (f: u32)
    ensures
        f == if selected {
            flags | OUTLINE
        } else {
            flags
        },
{
    if selected {
        flags | OUTLINE
    } else {
        flags
    }
}

/// Whether the flags ask for an outline.
pub fn is_outlined(flags: u32) -> (b: bool)
    ensures
        b == (flags & OUTLINE == OUTLINE),
{
    flags & OUTLINE == OUTLINE
}

} // verus!

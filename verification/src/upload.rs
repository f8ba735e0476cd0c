//! Planning of uploads through a staging buffer: how an upload is split
//! into copies that fit the staging memory, when the staging buffer is
//! flushed, and when finished uploads are handed back.
use vstd::prelude::*;

verus! {

/// The size of the staging buffer in bytes.
pub const STAGING_BUFFER_SIZE: u64 = 16 * 1024 * 1024;

/// Where an upload goes: a buffer of `size` bytes, or an image.
#[derive(Copy, Clone, Debug, PartialEq, Eq, Structural)]
pub enum UploadDst {
    Buffer { size: u64 },
    Image,
}

/// One copy: `len` bytes at `staging_offset` in the staging buffer, which
/// go to `dst_offset` in a destination buffer (`None` for an image).
#[derive(Copy, Clone, Debug, PartialEq, Eq, Structural)]
pub struct UploadChunk {
    pub staging_offset: u64,
    pub len: u64,
    pub dst_offset: Option<u64>,
}

/// The copies of one upload, in order. The staging buffer is flushed
/// after every copy but the last; when it was flushed at all, the upload
/// and the deferred ones are handed back at once (`send_back_now`),
/// otherwise the upload is deferred until the next flush.
#[derive(Debug)]
pub struct UploadPlan {
    pub chunks: Vec<UploadChunk>,
    pub send_back_now: bool,
}

/// The upload thread's view of the staging buffer: its size, the free
/// bytes at its end, the copies recorded since the last flush and the
/// uploads waiting to be handed back.
#[derive(Copy, Clone, Debug)]
pub struct StagingState {
    pub capacity: u64,
    pub free: u64,
    pub pending_regions: usize,
    pub deferred: usize,
}

/// The copies of an upload with `rem` bytes left when the staging buffer
/// of `cap` bytes has `free` bytes left: each copy as (staging offset,
/// length, bytes of the upload left before it). A copy takes what fits;
/// when it fills the staging buffer, the buffer is flushed and the next
/// copy starts at its beginning.
pub open spec fn upload_chunks(free: int, cap: int, rem: int) -> Seq<(int, int, int)>
    decreases rem,
{
    if free <= 0 || cap <= 0 || rem < 0 {
        seq![]
    } else if rem < free {
        seq![(cap - free, rem, rem)]
    } else {
        seq![(cap - free, free, rem)] + upload_chunks(cap, cap, rem - free)
    }
}

/// The copies of an upload tile it without gaps or overlaps and each fits
/// the staging buffer: the first starts at the free position, every copy
/// but the last fills the staging buffer up (so it is flushed) and the next
/// starts at the beginning, and the last copy takes all that is left.
pub proof fn lemma_upload_chunks_tile(free: int, cap: int, rem: int)
    requires
        0 < free <= cap,
        0 <= rem,
    ensures
        ({
            let c = upload_chunks(free, cap, rem);
            &&& c.len() >= 1
            &&& c[0].0 == cap - free
            &&& c[0].2 == rem
            &&& c[c.len() - 1].1 == c[c.len() - 1].2
            &&& c[c.len() - 1].0 + c[c.len() - 1].1 < cap
            &&& forall|i: int| 0 <= i < c.len() ==> 0 <= (#[trigger] c[i]).0 && 0 <= c[i].1 && c[i].0 + c[i].1 <= cap
            &&& forall|i: int| 0 <= i < c.len() - 1 ==> (#[trigger] c[i]).0 + c[i].1 == cap && c[i + 1].0 == 0
                && c[i + 1].2 == c[i].2 - c[i].1
        }),
    decreases rem,
{
    let c = upload_chunks(free, cap, rem);
    if rem >= free {
        lemma_upload_chunks_tile(cap, cap, rem - free);
        let t = upload_chunks(cap, cap, rem - free);
        assert(c =~= seq![(cap - free, free, rem)] + t);
        assert forall|i: int| 0 <= i < c.len() implies 0 <= (#[trigger] c[i]).0 && 0 <= c[i].1 && c[i].0 + c[i].1 <= cap by {
            if i > 0 {
                assert(c[i] == t[i - 1]);
            }
        }
        assert forall|i: int| 0 <= i < c.len() - 1 implies (#[trigger] c[i]).0 + c[i].1 == cap && c[i + 1].0 == 0
            && c[i + 1].2 == c[i].2 - c[i].1 by {
            if i > 0 {
                assert(c[i] == t[i - 1]);
                assert(c[i + 1] == t[i]);
            } else {
                assert(c[1] == t[0]);
            }
        }
    }
}

impl StagingState {
    pub open spec fn wf(&self) -> bool {
        0 < self.free <= self.capacity
    }

    /// An empty staging buffer of `capacity` bytes.
    pub fn new(capacity: u64) -> (s: Self)
        requires
            capacity > 0,
        ensures
            s.wf(),
            s.capacity == capacity,
            s.free == capacity,
            s.pending_regions == 0,
            s.deferred == 0,
    {
        StagingState { capacity, free: capacity, pending_regions: 0, deferred: 0 }
    }

    /// Plans the upload of `src_len` bytes to `dst`. A buffer must hold the
    /// bytes, and an image's bytes must fit the staging buffer at once
    /// (larger image uploads are not supported and panic).
    pub fn plan_upload(&mut self, src_len: u64, dst: UploadDst) -> (plan: UploadPlan)
        requires
            old(self).wf(),
            match dst {
                UploadDst::Buffer { size } => src_len <= size,
                UploadDst::Image => src_len <= old(self).capacity,
            },
            old(self).pending_regions < usize::MAX,
            old(self).deferred < usize::MAX,
        ensures
            final(self).wf(),
            final(self).capacity == old(self).capacity,
            ({
                let spec_chunks = upload_chunks(
                    old(self).free as int,
                    old(self).capacity as int,
                    src_len as int,
                );
                let last = spec_chunks[spec_chunks.len() - 1];
                &&& spec_chunks.len() >= 1
                &&& plan.chunks@.len() == spec_chunks.len()
                &&& forall|i: int|
                    0 <= i < spec_chunks.len() ==> {
                        &&& (#[trigger] plan.chunks@[i]).staging_offset == spec_chunks[i].0
                        &&& plan.chunks@[i].len == spec_chunks[i].1
                        &&& plan.chunks@[i].dst_offset == match dst {
                            UploadDst::Buffer { size } => Some((size - spec_chunks[i].2) as u64),
                            UploadDst::Image => None,
                        }
                    }
                &&& plan.send_back_now == (spec_chunks.len() > 1)
                &&& final(self).free == old(self).capacity - (last.0 + last.1)
                &&& final(self).pending_regions == if spec_chunks.len() > 1 {
                    1
                } else {
                    old(self).pending_regions + 1
                }
                &&& final(self).deferred == if spec_chunks.len() > 1 {
                    0
                } else {
                    old(self).deferred + 1
                }
            }),
    {
        let cap = self.capacity;
        let ghost free0 = self.free as int;
        let ghost all = upload_chunks(free0, cap as int, src_len as int);
        let mut rem = src_len;
        let mut chunks: Vec<UploadChunk> = Vec::new();
        loop
            invariant_except_break
                0 < self.free <= cap,
                cap == self.capacity,
                rem <= src_len,
                self.pending_regions == old(self).pending_regions,
                self.deferred == old(self).deferred,
                old(self).pending_regions < usize::MAX,
                old(self).deferred < usize::MAX,
                chunks@.len() >= 1 ==> self.free == cap,
                all == upload_chunks(free0, cap as int, src_len as int),
                forall|i: int| 0 <= i < chunks@.len() ==> {
                    &&& (#[trigger] chunks@[i]).staging_offset == all[i].0
                    &&& chunks@[i].len == all[i].1
                    &&& chunks@[i].dst_offset == match dst {
                        UploadDst::Buffer { size } => Some((size - all[i].2) as u64),
                        UploadDst::Image => None,
                    }
                },
                all.subrange(chunks@.len() as int, all.len() as int) == upload_chunks(
                    self.free as int,
                    cap as int,
                    rem as int,
                ),
                chunks@.len() <= all.len(),
                match dst {
                    UploadDst::Buffer { size } => src_len <= size,
                    UploadDst::Image => src_len <= cap,
                },
            ensures
                chunks@.len() == all.len(),
                all.len() >= 1,
                0 < self.free <= cap,
                cap == self.capacity,
                self.pending_regions == old(self).pending_regions,
                self.deferred == old(self).deferred,
                old(self).pending_regions < usize::MAX,
                old(self).deferred < usize::MAX,
                self.free == cap - (all[all.len() - 1].0 + all[all.len() - 1].1),
                forall|i: int| 0 <= i < chunks@.len() ==> {
                    &&& (#[trigger] chunks@[i]).staging_offset == all[i].0
                    &&& chunks@[i].len == all[i].1
                    &&& chunks@[i].dst_offset == match dst {
                        UploadDst::Buffer { size } => Some((size - all[i].2) as u64),
                        UploadDst::Image => None,
                    }
                },
            decreases rem,
        {
            let free = self.free;
            let copy = if rem < free {
                rem
            } else {
                free
            };
            let dst_offset = match dst {
                UploadDst::Buffer { size } => Some(size - rem),
                UploadDst::Image => None,
            };
            let ghost before = chunks@;
            proof {
                assert(upload_chunks(free as int, cap as int, rem as int).len() >= 1);
            }
            chunks.push(UploadChunk { staging_offset: cap - free, len: copy, dst_offset });
            proof {
                let tail = all.subrange(before.len() as int, all.len() as int);
                assert(tail[0] == all[before.len() as int]);
                assert(tail[0] == (cap - free, copy as int, rem as int));
                if rem >= free {
                    assert(tail.subrange(1, tail.len() as int) =~= upload_chunks(
                        cap as int,
                        cap as int,
                        rem - free,
                    ));
                    assert(all.subrange(chunks@.len() as int, all.len() as int) =~= tail.subrange(
                        1,
                        tail.len() as int,
                    ));
                } else {
                    assert(tail.len() == 1);
                }
            }
            self.free = free - copy;
            rem = if rem < free {
                0
            } else {
                rem - free
            };
            if self.free == 0 {
                self.free = cap;
            } else {
                proof {
                    assert(chunks@.len() == all.len());
                }
                break ;
            }
        }
        let send_back_now = chunks.len() > 1;
        if send_back_now {
            self.pending_regions = 1;
            self.deferred = 0;
        } else {
            self.pending_regions = self.pending_regions + 1;
            self.deferred = self.deferred + 1;
        }
        UploadPlan { chunks, send_back_now }
    }

    /// No upload arrived for a while: copies waiting in the staging buffer
    /// are flushed and the deferred uploads handed back (returns whether).
    /// The staging position stays where it is.
    pub fn on_idle(&mut self) -> (flush: bool)
        ensures
            flush == (old(self).pending_regions > 0),
            final(self).capacity == old(self).capacity,
            final(self).free == old(self).free,
            flush ==> final(self).pending_regions == 0 && final(self).deferred == 0,
            !flush ==> final(self).pending_regions == old(self).pending_regions && final(self).deferred
                == old(self).deferred,
    {
        if self.pending_regions > 0 {
            self.pending_regions = 0;
            self.deferred = 0;
            true
        } else {
            false
        }
    }
}

} // verus!

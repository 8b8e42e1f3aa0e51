//! What a task registers before it is recorded: the images, buffers and
//! samplers it uses, each at most once, with the pipeline stage and access
//! (and, for images, layout) it needs them in.
use vstd::prelude::*;
use ahash::{AHashMap, AHashSet};
use crate::error::ResourceError;
use crate::maps::{
    image_req_map, image_req_map_new, image_req_map_insert, image_req_map_get, image_req_map_keys, buffer_req_map,
    buffer_req_map_new, buffer_req_map_insert, buffer_req_map_get, buffer_req_map_keys, sampler_set, sampler_set_new,
    sampler_set_insert, sampler_set_contains, sampler_set_keys,
};
use crate::res_states::{AnyResKey, BufferKey, ImageKey, SamplerKey, ResBuffer, ResImage};
use crate::resources::Resources;
use crate::maps::{slot_canon, image_slots_get, image_slots_set, buffer_slots_get, buffer_slots_set};

verus! {


/// A memory barrier that brings a resource from its last use to the use a
/// task requested: the stages it waits on and blocks, the access masks (both
/// 0 where the access mask stays) and, for images, the layouts (both 0,
/// undefined, where the layout stays).
#[derive(Clone, Copy, Debug, PartialEq, Eq, Structural)]
pub struct Transition {
    pub res: AnyResKey,
    pub src_stage: u64,
    pub dst_stage: u64,
    pub src_access: u64,
    pub dst_access: u64,
    pub old_layout: i32,
    pub new_layout: i32,
}

/// The resources one task uses.
pub struct ResourceRegistry {
    /// Requested images by key: stage mask, access mask and layout.
    pub images: AHashMap<u64, (u64, u64, i32)>,
    /// Requested buffers by key: stage mask and access mask.
    pub buffers: AHashMap<u64, (u64, u64)>,
    /// Requested samplers by key.
    pub sampler: AHashSet<u64>,
    /// Foreign binary semaphores to signal after execution.
    pub binary_signal_sem: Vec<u64>,
    /// Foreign binary semaphores to wait for before execution.
    pub binary_wait_sem: Vec<u64>,
}

/// Pipeline stage flag: all commands.
pub const STAGE_ALL_COMMANDS: u64 = 0x1_0000;

/// Appends `(semaphore, STAGE_ALL_COMMANDS)` for each semaphore of `sems`.
fn append_semaphore_infos(sems: &Vec<u64>, infos: &mut Vec<(u64, u64)>)
    ensures
        final(infos)@ == old(infos)@ + sems@.map_values(|s: u64| (s, STAGE_ALL_COMMANDS)),
{
    let ghost start = infos@;
    let mut i: usize = 0;
    while i < sems.len()
        invariant
            0 <= i <= sems@.len(),
            infos@ == start + sems@.take(i as int).map_values(|s: u64| (s, STAGE_ALL_COMMANDS)),
        decreases sems@.len() - i,
    {
        infos.push((sems[i], STAGE_ALL_COMMANDS));
        proof {
            assert(sems@.take(i + 1).map_values(|s: u64| (s, STAGE_ALL_COMMANDS))
                =~= sems@.take(i as int).map_values(|s: u64| (s, STAGE_ALL_COMMANDS)).push((sems@[i as int], STAGE_ALL_COMMANDS)));
        }
        i = i + 1;
    }
    proof {
        assert(sems@.take(sems@.len() as int) =~= sems@);
    }
}

/// Images, then buffers, then samplers.
pub open spec fn kind_rank(r: AnyResKey) -> int {
    match r {
        AnyResKey::Image(_) => 0,
        AnyResKey::Buffer(_) => 1,
        AnyResKey::Sampler(_) => 2,
    }
}

impl ResourceRegistry {
    /// The requested images.
    pub open spec fn image_requests(&self) -> Map<u64, (u64, u64, i32)> {
        image_req_map(self.images)
    }

    /// The requested buffers.
    pub open spec fn buffer_requests(&self) -> Map<u64, (u64, u64)> {
        buffer_req_map(self.buffers)
    }

    /// The requested samplers.
    pub open spec fn sampler_requests(&self) -> Set<u64> {
        sampler_set(self.sampler)
    }

    /// Resource `r` is requested.
    pub open spec fn requested(&self, r: AnyResKey) -> bool {
        match r {
            AnyResKey::Image(k) => self.image_requests().contains_key(k.0),
            AnyResKey::Buffer(k) => self.buffer_requests().contains_key(k.0),
            AnyResKey::Sampler(k) => self.sampler_requests().contains(k.0),
        }
    }

    /// A registry with nothing requested.
    pub fn new() -> (r: ResourceRegistry)
        ensures
            r.image_requests() == Map::<u64, (u64, u64, i32)>::empty(),
            r.buffer_requests() == Map::<u64, (u64, u64)>::empty(),
            r.sampler_requests() == Set::<u64>::empty(),
            r.binary_signal_sem@.len() == 0,
            r.binary_wait_sem@.len() == 0,
    {
        let r = ResourceRegistry {
            images: image_req_map_new(),
            buffers: buffer_req_map_new(),
            sampler: sampler_set_new(),
            binary_signal_sem: Vec::new(),
            binary_wait_sem: Vec::new(),
        };
        proof {
            assert(r.image_requests() =~= Map::<u64, (u64, u64, i32)>::empty());
            assert(r.buffer_requests() =~= Map::<u64, (u64, u64)>::empty());
        }
        r
    }

    /// Registers `image` as needed: it is made available in `stage` for
    /// `access`, in `layout`. Fails if the image was requested before; the
    /// request is still replaced by the new one.
    pub fn request_image(&mut self, image: ImageKey, stage: u64, access: u64, layout: i32) -> (r: Result<(), ResourceError>)
        ensures
            final(self).image_requests() == old(self).image_requests().insert(image.0, (stage, access, layout)),
            r == (if old(self).image_requests().contains_key(image.0) {
                Err::<(), ResourceError>(ResourceError::ResourceAlreadyRequested)
            } else {
                Ok::<(), ResourceError>(())
            }),
            final(self).buffers == old(self).buffers,
            final(self).sampler == old(self).sampler,
            final(self).binary_signal_sem == old(self).binary_signal_sem,
            final(self).binary_wait_sem == old(self).binary_wait_sem,
    {
        if image_req_map_insert(&mut self.images, image.0, (stage, access, layout)).is_some() {
            return Err(ResourceError::ResourceAlreadyRequested);
        }
        Ok(())
    }

    /// Registers `buffer` as needed: it is made available in `stage` for
    /// `access`. Fails if the buffer was requested before; the request is still
    /// replaced by the new one.
    pub fn request_buffer(&mut self, buffer: BufferKey, stage: u64, access: u64) -> (r: Result<(), ResourceError>)
        ensures
            final(self).buffer_requests() == old(self).buffer_requests().insert(buffer.0, (stage, access)),
            r == (if old(self).buffer_requests().contains_key(buffer.0) {
                Err::<(), ResourceError>(ResourceError::ResourceAlreadyRequested)
            } else {
                Ok::<(), ResourceError>(())
            }),
            final(self).images == old(self).images,
            final(self).sampler == old(self).sampler,
            final(self).binary_signal_sem == old(self).binary_signal_sem,
            final(self).binary_wait_sem == old(self).binary_wait_sem,
    {
        if buffer_req_map_insert(&mut self.buffers, buffer.0, (stage, access)).is_some() {
            return Err(ResourceError::ResourceAlreadyRequested);
        }
        Ok(())
    }

    /// Registers `sampler` as needed. Fails if it was requested before.
    pub fn request_sampler(&mut self, sampler: SamplerKey) -> (r: Result<(), ResourceError>)
        ensures
            final(self).sampler_requests() == old(self).sampler_requests().insert(sampler.0),
            r == (if old(self).sampler_requests().contains(sampler.0) {
                Err::<(), ResourceError>(ResourceError::ResourceAlreadyRequested)
            } else {
                Ok::<(), ResourceError>(())
            }),
            final(self).images == old(self).images,
            final(self).buffers == old(self).buffers,
            final(self).binary_signal_sem == old(self).binary_signal_sem,
            final(self).binary_wait_sem == old(self).binary_wait_sem,
    {
        if !sampler_set_insert(&mut self.sampler, sampler.0) {
            return Err(ResourceError::ResourceAlreadyRequested);
        }
        Ok(())
    }

    /// Registers a foreign binary semaphore that is signalled after execution.
    pub fn register_binary_signal_semaphore(&mut self, semaphore: u64)
        ensures
            final(self).binary_signal_sem@ == old(self).binary_signal_sem@.push(semaphore),
            final(self).images == old(self).images,
            final(self).buffers == old(self).buffers,
            final(self).sampler == old(self).sampler,
            final(self).binary_wait_sem == old(self).binary_wait_sem,
    {
        self.binary_signal_sem.push(semaphore);
    }

    /// Registers a foreign binary semaphore that is waited for before execution.
    pub fn register_binary_wait_semaphore(&mut self, semaphore: u64)
        ensures
            final(self).binary_wait_sem@ == old(self).binary_wait_sem@.push(semaphore),
            final(self).images == old(self).images,
            final(self).buffers == old(self).buffers,
            final(self).sampler == old(self).sampler,
            final(self).binary_signal_sem == old(self).binary_signal_sem,
    {
        self.binary_wait_sem.push(semaphore);
    }

    /// Appends a submit entry for each foreign semaphore to be signalled, in
    /// the order they were registered: the semaphore, at every command stage.
    pub fn append_binary_signal_semaphores(&self, infos: &mut Vec<(u64, u64)>)
        ensures
            final(infos)@ == old(infos)@ + self.binary_signal_sem@.map_values(|s: u64| (s, STAGE_ALL_COMMANDS)),
    {
        append_semaphore_infos(&self.binary_signal_sem, infos);
    }

    /// Appends a submit entry for each foreign semaphore to be waited for, in
    /// the order they were registered: the semaphore, at every command stage.
    pub fn append_binary_wait_semaphores(&self, infos: &mut Vec<(u64, u64)>)
        ensures
            final(infos)@ == old(infos)@ + self.binary_wait_sem@.map_values(|s: u64| (s, STAGE_ALL_COMMANDS)),
    {
        append_semaphore_infos(&self.binary_wait_sem, infos);
    }

    /// All requested resources, each once: the images, then the buffers, then
    /// the samplers.
    pub fn any_res_iter(&self) -> (r: Vec<AnyResKey>)
        ensures
            r@.no_duplicates(),
            forall|x: AnyResKey| r@.contains(x) <==> self.requested(x),
            forall|i: int, j: int| 0 <= i < j < r@.len() ==> kind_rank(#[trigger] r@[i]) <= kind_rank(#[trigger] r@[j]),
    {
        let mut out: Vec<AnyResKey> = Vec::new();
        let imgs = image_req_map_keys(&self.images);
        let bufs = buffer_req_map_keys(&self.buffers);
        let sams = sampler_set_keys(&self.sampler);
        let mut i: usize = 0;
        while i < imgs.len()
            invariant
                i <= imgs@.len(),
                imgs@.no_duplicates(),
                out@.len() == i,
                forall|p: int| 0 <= p < i ==> #[trigger] out@[p] == AnyResKey::Image(ImageKey(imgs@[p])),
            decreases imgs@.len() - i,
        {
            out.push(AnyResKey::Image(ImageKey(imgs[i])));
            i = i + 1;
        }
        let n1 = out.len();
        let mut i: usize = 0;
        while i < bufs.len()
            invariant
                i <= bufs@.len(),
                n1 == imgs@.len(),
                out@.len() == n1 + i,
                forall|p: int| 0 <= p < n1 ==> #[trigger] out@[p] == AnyResKey::Image(ImageKey(imgs@[p])),
                forall|p: int| n1 <= p < n1 + i ==> #[trigger] out@[p] == AnyResKey::Buffer(BufferKey(bufs@[p - n1])),
            decreases bufs@.len() - i,
        {
            out.push(AnyResKey::Buffer(BufferKey(bufs[i])));
            i = i + 1;
        }
        let n2 = out.len();
        let mut i: usize = 0;
        while i < sams.len()
            invariant
                i <= sams@.len(),
                n1 == imgs@.len(),
                n2 == n1 + bufs@.len(),
                out@.len() == n2 + i,
                forall|p: int| 0 <= p < n1 ==> #[trigger] out@[p] == AnyResKey::Image(ImageKey(imgs@[p])),
                forall|p: int| n1 <= p < n2 ==> #[trigger] out@[p] == AnyResKey::Buffer(BufferKey(bufs@[p - n1])),
                forall|p: int| n2 <= p < n2 + i ==> #[trigger] out@[p] == AnyResKey::Sampler(SamplerKey(sams@[p - n2])),
            decreases sams@.len() - i,
        {
            out.push(AnyResKey::Sampler(SamplerKey(sams[i])));
            i = i + 1;
        }
        proof {
            let o = out@;
            assert forall|i: int, j: int| 0 <= i < j < o.len() implies o[i] != o[j] by {
                if j < n1 {
                    assert(imgs@[i] != imgs@[j]);
                } else if n1 <= i && j < n2 {
                    assert(bufs@[i - n1] != bufs@[j - n1]);
                } else if n2 <= i {
                    assert(sams@[i - n2] != sams@[j - n2]);
                }
            }
            assert forall|x: AnyResKey| o.contains(x) <==> self.requested(x) by {
                if o.contains(x) {
                    let p = choose|p: int| 0 <= p < o.len() && o[p] == x;
                    if p < n1 {
                        assert(imgs@.to_set().contains(imgs@[p]));
                    } else if p < n2 {
                        assert(bufs@.to_set().contains(bufs@[p - n1]));
                    } else {
                        assert(sams@.to_set().contains(sams@[p - n2]));
                    }
                }
                if self.requested(x) {
                    match x {
                        AnyResKey::Image(k) => {
                            assert(imgs@.to_set().contains(k.0));
                            let q = choose|q: int| 0 <= q < imgs@.len() && imgs@[q] == k.0;
                            assert(o[q] == x);
                        },
                        AnyResKey::Buffer(k) => {
                            assert(bufs@.to_set().contains(k.0));
                            let q = choose|q: int| 0 <= q < bufs@.len() && bufs@[q] == k.0;
                            assert(o[n1 + q] == x);
                        },
                        AnyResKey::Sampler(k) => {
                            assert(sams@.to_set().contains(k.0));
                            let q = choose|q: int| 0 <= q < sams@.len() && sams@[q] == k.0;
                            assert(o[n2 + q] == x);
                        },
                    }
                }
            }
        }
        out
    }

    /// The stage mask a resource is requested for; none for samplers and for
    /// resources that are not requested.
    pub fn get_stage_mask(&self, resource: AnyResKey) -> (r: Option<u64>)
        ensures
            r == match resource {
                AnyResKey::Image(k) => if self.image_requests().contains_key(k.0) {
                    Some(self.image_requests()[k.0].0)
                } else {
                    None
                },
                AnyResKey::Buffer(k) => if self.buffer_requests().contains_key(k.0) {
                    Some(self.buffer_requests()[k.0].0)
                } else {
                    None
                },
                AnyResKey::Sampler(_) => None::<u64>,
            },
    {
        match resource {
            AnyResKey::Buffer(buf) => match buffer_req_map_get(&self.buffers, buf.0) {
                Some(st) => Some(st.0),
                None => None,
            },
            AnyResKey::Image(img) => match image_req_map_get(&self.images, img.0) {
                Some(st) => Some(st.0),
                None => None,
            },
            AnyResKey::Sampler(_) => None,
        }
    }

    /// True if `resource` is requested.
    pub fn contains_key(&self, resource: AnyResKey) -> (r: bool)
        ensures
            r == self.requested(resource),
    {
        match resource {
            AnyResKey::Buffer(buf) => buffer_req_map_get(&self.buffers, buf.0).is_some(),
            AnyResKey::Image(img) => image_req_map_get(&self.images, img.0).is_some(),
            AnyResKey::Sampler(sam) => sampler_set_contains(&self.sampler, sam.0),
        }
    }

    /// The barrier that brings `resource` from its current state to the state
    /// it is requested in, waiting on `src_stage`, if the two differ: in the
    /// access mask or, for an image, in the layout; none if they are the same.
    /// Either way the resource takes the requested access mask and layout.
    /// Samplers have no state: none.
    pub fn add_diff_transition(&self, res: &mut Resources, resource: AnyResKey, src_stage: u64) -> (r: Option<Transition>)
        requires
            old(res).wf(),
            old(res).holds(resource),
            self.requested(resource),
        ensures
            final(res).wf(),
            final(res).bindless == old(res).bindless,
            final(res).sampler_states() == old(res).sampler_states(),
            match resource {
                AnyResKey::Buffer(k) => {
                    let st = old(res).buffer_states()[slot_canon(k.0)];
                    let (stage, access) = self.buffer_requests()[k.0];
                    let changes = st.mask != access;
                    &&& r == if changes {
                        Some(Transition {
                            res: resource,
                            src_stage,
                            dst_stage: stage,
                            src_access: st.mask,
                            dst_access: access,
                            old_layout: 0,
                            new_layout: 0,
                        })
                    } else {
                        None
                    }
                    &&& final(res).buffer_states() == old(res).buffer_states().insert(slot_canon(k.0), ResBuffer { mask: access, ..st })
                    &&& final(res).image_states() == old(res).image_states()
                },
                AnyResKey::Image(k) => {
                    let st = old(res).image_states()[slot_canon(k.0)];
                    let (stage, access, layout) = self.image_requests()[k.0];
                    let changes = st.mask != access;
                    let relayout = st.layout != layout;
                    &&& r == if changes || relayout {
                        Some(Transition {
                            res: resource,
                            src_stage,
                            dst_stage: stage,
                            src_access: if changes { st.mask } else { 0 },
                            dst_access: if changes { access } else { 0 },
                            old_layout: if relayout { st.layout } else { 0 },
                            new_layout: if relayout { layout } else { 0 },
                        })
                    } else {
                        None
                    }
                    &&& final(res).image_states() == old(res).image_states().insert(slot_canon(k.0),
                        ResImage { mask: access, layout, ..st })
                    &&& final(res).buffer_states() == old(res).buffer_states()
                },
                AnyResKey::Sampler(_) => r is None && *final(res) == *old(res),
            },
    {
        match resource {
            AnyResKey::Buffer(buf) => {
                let mut state = buffer_slots_get(&res.buffer, buf.0).unwrap();
                let target = buffer_req_map_get(&self.buffers, buf.0).unwrap();
                let mut barrier = Transition {
                    res: resource,
                    src_stage: 0,
                    dst_stage: 0,
                    src_access: 0,
                    dst_access: 0,
                    old_layout: 0,
                    new_layout: 0,
                };
                let differs = state.mask != target.1;
                if differs {
                    barrier.src_access = state.mask;
                    barrier.dst_access = target.1;
                    state.mask = target.1;
                }
                barrier.src_stage = src_stage;
                barrier.dst_stage = target.0;
                buffer_slots_set(&mut res.buffer, buf.0, state);
                if differs { Some(barrier) } else { None }
            },
            AnyResKey::Image(img) => {
                let mut state = image_slots_get(&res.images, img.0).unwrap();
                let target = image_req_map_get(&self.images, img.0).unwrap();
                let mut barrier = Transition {
                    res: resource,
                    src_stage: 0,
                    dst_stage: 0,
                    src_access: 0,
                    dst_access: 0,
                    old_layout: 0,
                    new_layout: 0,
                };
                let differs = state.mask != target.1 || state.layout != target.2;
                if state.mask != target.1 {
                    barrier.src_access = state.mask;
                    barrier.dst_access = target.1;
                    state.mask = target.1;
                }
                if state.layout != target.2 {
                    barrier.old_layout = state.layout;
                    barrier.new_layout = target.2;
                    state.layout = target.2;
                }
                barrier.src_stage = src_stage;
                barrier.dst_stage = target.0;
                image_slots_set(&mut res.images, img.0, state);
                if differs { Some(barrier) } else { None }
            },
            AnyResKey::Sampler(_) => None,
        }
    }
}

} // verus!

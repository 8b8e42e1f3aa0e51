//! A register for passes that use many resources at once: each image, buffer
//! and sampler is noted once, with the use it is needed for, and the whole set
//! is handed to a task's registry in one go.
use vstd::prelude::*;
use ahash::{AHashMap, AHashSet};
use crate::maps::{
    image_req_map, image_req_map_new, image_req_map_insert, image_req_map_get, image_req_map_keys, buffer_req_map,
    buffer_req_map_new, buffer_req_map_insert, buffer_req_map_get, buffer_req_map_keys, sampler_set, sampler_set_new,
    sampler_set_insert, sampler_set_keys,
};
use crate::registry::ResourceRegistry;
use crate::res_states::{BufferKey, ImageKey, SamplerKey};

verus! {

/// The images (stage mask, access mask, layout), buffers (stage mask, access
/// mask) and samplers a pass uses.
pub struct ResourceRegister {
    pub images: AHashMap<u64, (u64, u64, i32)>,
    pub buffers: AHashMap<u64, (u64, u64)>,
    pub samplers: AHashSet<u64>,
}

impl ResourceRegister {
    /// The registered images by key.
    pub open spec fn image_states(&self) -> Map<u64, (u64, u64, i32)> {
        image_req_map(self.images)
    }

    /// The registered buffers by key.
    pub open spec fn buffer_states(&self) -> Map<u64, (u64, u64)> {
        buffer_req_map(self.buffers)
    }

    /// The registered samplers.
    pub open spec fn sampler_keys(&self) -> Set<u64> {
        sampler_set(self.samplers)
    }

    /// Nothing is registered.
    pub open spec fn is_empty(&self) -> bool {
        &&& self.image_states() == Map::<u64, (u64, u64, i32)>::empty()
        &&& self.buffer_states() == Map::<u64, (u64, u64)>::empty()
        &&& self.sampler_keys() == Set::<u64>::empty()
    }

    /// An empty register.
    pub fn new() -> (r: ResourceRegister)
        ensures
            r.is_empty(),
    {
        let r = ResourceRegister {
            images: image_req_map_new(),
            buffers: buffer_req_map_new(),
            samplers: sampler_set_new(),
        };
        proof {
            assert(r.image_states() =~= Map::<u64, (u64, u64, i32)>::empty());
            assert(r.buffer_states() =~= Map::<u64, (u64, u64)>::empty());
        }
        r
    }

    /// Notes that `image` is used in `stage` for `access`, in `layout`. If the
    /// image was registered before, the former use is replaced and returned.
    pub fn register_image(&mut self, image: ImageKey, stage: u64, access: u64, layout: i32) -> (r: Option<(u64, u64, i32)>)
        ensures
            final(self).image_states() == old(self).image_states().insert(image.0, (stage, access, layout)),
            r == (if old(self).image_states().contains_key(image.0) {
                Some(old(self).image_states()[image.0])
            } else {
                None
            }),
            final(self).buffers == old(self).buffers,
            final(self).samplers == old(self).samplers,
    {
        image_req_map_insert(&mut self.images, image.0, (stage, access, layout))
    }

    /// Notes that `buffer` is used in `stage` for `access`. If the buffer was
    /// registered before, the former use is replaced and returned.
    pub fn register_buffer(&mut self, buffer: BufferKey, stage: u64, access: u64) -> (r: Option<(u64, u64)>)
        ensures
            final(self).buffer_states() == old(self).buffer_states().insert(buffer.0, (stage, access)),
            r == (if old(self).buffer_states().contains_key(buffer.0) {
                Some(old(self).buffer_states()[buffer.0])
            } else {
                None
            }),
            final(self).images == old(self).images,
            final(self).samplers == old(self).samplers,
    {
        buffer_req_map_insert(&mut self.buffers, buffer.0, (stage, access))
    }

    /// Notes that `sampler` is used. True if it was registered before.
    pub fn register_sampler(&mut self, sampler: SamplerKey) -> (r: bool)
        ensures
            final(self).sampler_keys() == old(self).sampler_keys().insert(sampler.0),
            r == old(self).sampler_keys().contains(sampler.0),
            final(self).images == old(self).images,
            final(self).buffers == old(self).buffers,
    {
        !sampler_set_insert(&mut self.samplers, sampler.0)
    }

    /// Forgets everything registered.
    pub fn reset(&mut self)
        ensures
            final(self).is_empty(),
    {
        *self = ResourceRegister::new();
    }

    /// Requests every registered resource from `registry`, with the use it was
    /// registered for. None of them may be requested there already.
    pub fn register_all(&self, registry: &mut ResourceRegistry)
        requires
            forall|k: u64| #[trigger] self.image_states().contains_key(k)
                ==> !old(registry).image_requests().contains_key(k),
            forall|k: u64| #[trigger] self.buffer_states().contains_key(k)
                ==> !old(registry).buffer_requests().contains_key(k),
            forall|k: u64| #[trigger] self.sampler_keys().contains(k)
                ==> !old(registry).sampler_requests().contains(k),
        ensures
            final(registry).image_requests() == old(registry).image_requests().union_prefer_right(self.image_states()),
            final(registry).buffer_requests() == old(registry).buffer_requests().union_prefer_right(self.buffer_states()),
            final(registry).sampler_requests() == old(registry).sampler_requests().union(self.sampler_keys()),
            final(registry).binary_signal_sem == old(registry).binary_signal_sem,
            final(registry).binary_wait_sem == old(registry).binary_wait_sem,
    {
        let ghost reg0 = *registry;
        let keys = buffer_req_map_keys(&self.buffers);
        let mut i: usize = 0;
        while i < keys.len()
            invariant
                0 <= i <= keys@.len(),
                keys@.no_duplicates(),
                keys@.to_set() == self.buffer_states().dom(),
                forall|k: u64| #[trigger] self.buffer_states().contains_key(k)
                    ==> !reg0.buffer_requests().contains_key(k),
                registry.buffer_requests() == reg0.buffer_requests().union_prefer_right(
                    self.buffer_states().restrict(keys@.take(i as int).to_set()),
                ),
                registry.images == reg0.images,
                registry.sampler == reg0.sampler,
                registry.binary_signal_sem == reg0.binary_signal_sem,
                registry.binary_wait_sem == reg0.binary_wait_sem,
            decreases keys@.len() - i,
        {
            let k = keys[i];
            proof {
                assert(keys@.to_set().contains(k));
            }
            let v = buffer_req_map_get(&self.buffers, k).unwrap();
            proof {
                assert(!keys@.take(i as int).to_set().contains(k)) by {
                    if keys@.take(i as int).to_set().contains(k) {
                        let j = choose|j: int| 0 <= j < i && #[trigger] keys@.take(i as int)[j] == k;
                        assert(keys@[j] == keys@[i as int]);
                    }
                }
                assert(keys@.take(i + 1).to_set() =~= keys@.take(i as int).to_set().insert(k)) by {
                    assert(keys@.take(i + 1) =~= keys@.take(i as int).push(k));
                    keys@.take(i as int).lemma_push_to_set_commute(k);
                }
            }
            let _ = registry.request_buffer(BufferKey(k), v.0, v.1);
            proof {
                assert(registry.buffer_requests() =~= reg0.buffer_requests().union_prefer_right(
                    self.buffer_states().restrict(keys@.take(i + 1).to_set()),
                ));
            }
            i = i + 1;
        }
        proof {
            assert(keys@.take(keys@.len() as int) =~= keys@);
            assert(self.buffer_states().restrict(keys@.to_set()) =~= self.buffer_states());
        }
        self.register_images(registry);
        self.register_samplers(registry);
    }

    /// The image part of `register_all`.
    fn register_images(&self, registry: &mut ResourceRegistry)
        requires
            forall|k: u64| #[trigger] self.image_states().contains_key(k)
                ==> !old(registry).image_requests().contains_key(k),
        ensures
            final(registry).image_requests() == old(registry).image_requests().union_prefer_right(self.image_states()),
            final(registry).buffers == old(registry).buffers,
            final(registry).sampler == old(registry).sampler,
            final(registry).binary_signal_sem == old(registry).binary_signal_sem,
            final(registry).binary_wait_sem == old(registry).binary_wait_sem,
    {
        let ghost reg0 = *registry;
        let keys = image_req_map_keys(&self.images);
        let mut i: usize = 0;
        while i < keys.len()
            invariant
                0 <= i <= keys@.len(),
                keys@.no_duplicates(),
                keys@.to_set() == self.image_states().dom(),
                forall|k: u64| #[trigger] self.image_states().contains_key(k)
                    ==> !reg0.image_requests().contains_key(k),
                registry.image_requests() == reg0.image_requests().union_prefer_right(
                    self.image_states().restrict(keys@.take(i as int).to_set()),
                ),
                registry.buffers == reg0.buffers,
                registry.sampler == reg0.sampler,
                registry.binary_signal_sem == reg0.binary_signal_sem,
                registry.binary_wait_sem == reg0.binary_wait_sem,
            decreases keys@.len() - i,
        {
            let k = keys[i];
            proof {
                assert(keys@.to_set().contains(k));
            }
            let v = image_req_map_get(&self.images, k).unwrap();
            proof {
                assert(!keys@.take(i as int).to_set().contains(k)) by {
                    if keys@.take(i as int).to_set().contains(k) {
                        let j = choose|j: int| 0 <= j < i && #[trigger] keys@.take(i as int)[j] == k;
                        assert(keys@[j] == keys@[i as int]);
                    }
                }
                assert(keys@.take(i + 1).to_set() =~= keys@.take(i as int).to_set().insert(k)) by {
                    assert(keys@.take(i + 1) =~= keys@.take(i as int).push(k));
                    keys@.take(i as int).lemma_push_to_set_commute(k);
                }
            }
            let _ = registry.request_image(ImageKey(k), v.0, v.1, v.2);
            proof {
                assert(registry.image_requests() =~= reg0.image_requests().union_prefer_right(
                    self.image_states().restrict(keys@.take(i + 1).to_set()),
                ));
            }
            i = i + 1;
        }
        proof {
            assert(keys@.take(keys@.len() as int) =~= keys@);
            assert(self.image_states().restrict(keys@.to_set()) =~= self.image_states());
        }
    }

    /// The sampler part of `register_all`.
    fn register_samplers(&self, registry: &mut ResourceRegistry)
        requires
            forall|k: u64| #[trigger] self.sampler_keys().contains(k)
                ==> !old(registry).sampler_requests().contains(k),
        ensures
            final(registry).sampler_requests() == old(registry).sampler_requests().union(self.sampler_keys()),
            final(registry).images == old(registry).images,
            final(registry).buffers == old(registry).buffers,
            final(registry).binary_signal_sem == old(registry).binary_signal_sem,
            final(registry).binary_wait_sem == old(registry).binary_wait_sem,
    {
        let ghost reg0 = *registry;
        let keys = sampler_set_keys(&self.samplers);
        let mut i: usize = 0;
        while i < keys.len()
            invariant
                0 <= i <= keys@.len(),
                keys@.no_duplicates(),
                keys@.to_set() == self.sampler_keys(),
                forall|k: u64| #[trigger] self.sampler_keys().contains(k)
                    ==> !reg0.sampler_requests().contains(k),
                registry.sampler_requests() == reg0.sampler_requests().union(keys@.take(i as int).to_set()),
                registry.images == reg0.images,
                registry.buffers == reg0.buffers,
                registry.binary_signal_sem == reg0.binary_signal_sem,
                registry.binary_wait_sem == reg0.binary_wait_sem,
            decreases keys@.len() - i,
        {
            let k = keys[i];
            proof {
                assert(keys@.to_set().contains(k));
                assert(!keys@.take(i as int).to_set().contains(k)) by {
                    if keys@.take(i as int).to_set().contains(k) {
                        let j = choose|j: int| 0 <= j < i && #[trigger] keys@.take(i as int)[j] == k;
                        assert(keys@[j] == keys@[i as int]);
                    }
                }
                assert(keys@.take(i + 1).to_set() =~= keys@.take(i as int).to_set().insert(k)) by {
                    assert(keys@.take(i + 1) =~= keys@.take(i as int).push(k));
                    keys@.take(i as int).lemma_push_to_set_commute(k);
                }
            }
            let _ = registry.request_sampler(SamplerKey(k));
            proof {
                assert(registry.sampler_requests() =~= reg0.sampler_requests().union(keys@.take(i + 1).to_set()));
            }
            i = i + 1;
        }
        proof {
            assert(keys@.take(keys@.len() as int) =~= keys@);
        }
    }
}


/// The image uses in `m` after registering each `(image, use)` of `regs` in
/// turn.
pub open spec fn registered_after(m: Map<u64, (u64, u64, i32)>, regs: Seq<(u64, (u64, u64, i32))>) -> Map<u64, (u64, u64, i32)>
    decreases regs.len(),
{
    if regs.len() == 0 {
        m
    } else {
        registered_after(m, regs.drop_last()).insert(regs.last().0, regs.last().1)
    }
}

/// Registering other images keeps an image's last registered use, so the
/// next registration of the image returns that use; an image that was not
/// registered stays unregistered, so its first registration returns none.
pub proof fn lemma_last_registration_kept(m: Map<u64, (u64, u64, i32)>, image: u64, regs: Seq<(u64, (u64, u64, i32))>)
    requires
        forall|k: int| 0 <= k < regs.len() ==> (#[trigger] regs[k]).0 != image,
    ensures
        registered_after(m, regs).contains_key(image) == m.contains_key(image),
        m.contains_key(image) ==> registered_after(m, regs)[image] == m[image],
    decreases regs.len(),
{
    if regs.len() > 0 {
        let d = regs.drop_last();
        assert forall|k: int| 0 <= k < d.len() implies (#[trigger] d[k]).0 != image by {
            assert(d[k] == regs[k]);
        }
        lemma_last_registration_kept(m, image, d);
        assert(regs.last() == regs[regs.len() - 1]);
    }
}

} // verus!

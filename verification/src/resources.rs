//! The resources the graph manages: images, buffers and samplers, each with
//! its queue ownership, access state, execution guard and bindless binding.
use vstd::prelude::*;
use crate::bindless::{Bindless, BindlessDeviceInfo, BindlessError, SetManager, setup_error, IMAGE_USAGE_SAMPLED, IMAGE_USAGE_STORAGE};
use crate::error::ResourceError;
use crate::handle::ResourceHandle;
use crate::maps::{
    SlotStore, slot_canon, image_slots, image_slots_new, image_slots_insert, image_slots_get,
    image_slots_set, buffer_slots, buffer_slots_new, buffer_slots_insert, buffer_slots_get,
    buffer_slots_set, sampler_slots, sampler_slots_new, sampler_slots_insert, sampler_slots_get,
    sampler_slots_set, track_map, image_slots_remove, buffer_slots_remove, sampler_slots_remove,
};
use crate::res_states::{
    AnyHandle, AnyResKey, BufferKey, ImageKey, QueueOwnership, ResBuffer, ResImage, ResSampler, SamplerKey,
};
use crate::track::{Guard, Track, TrackId, Tracks};

verus! {

/// The image layout of an image whose content is undefined.
pub const IMAGE_LAYOUT_UNDEFINED: i32 = 0;

/// The resource store.
pub struct Resources {
    pub bindless: Bindless,
    pub images: SlotStore<ResImage>,
    pub buffer: SlotStore<ResBuffer>,
    pub sampler: SlotStore<ResSampler>,
}

/// A resource as it is added: not owned by any queue, no access yet, no
/// guard, not bound.
pub open spec fn fresh_image(usage: u32) -> ResImage {
    ResImage {
        usage,
        ownership: QueueOwnership::Uninitialized,
        mask: 0,
        layout: IMAGE_LAYOUT_UNDEFINED,
        guard: None,
        descriptor_handle: None,
    }
}

impl Resources {
    /// The image states by key.
    pub open spec fn image_states(&self) -> Map<u64, ResImage> {
        image_slots(self.images)
    }

    /// The buffer states by key.
    pub open spec fn buffer_states(&self) -> Map<u64, ResBuffer> {
        buffer_slots(self.buffer)
    }

    /// The sampler states by key.
    pub open spec fn sampler_states(&self) -> Map<u64, ResSampler> {
        sampler_slots(self.sampler)
    }

    /// The bindless sets are well formed and the stores are finite.
    pub open spec fn wf(&self) -> bool {
        &&& self.bindless.wf()
        &&& self.image_states().dom().finite()
        &&& self.buffer_states().dom().finite()
        &&& self.sampler_states().dom().finite()
        &&& self.handles_bound()
    }

    /// The set an image with usage `usage` is bound in: sampled images in
    /// the sampled image set, others in the storage image set.
    pub open spec fn image_set(&self, usage: u32) -> SetManager {
        if usage & IMAGE_USAGE_SAMPLED != 0 { self.bindless.saimage } else { self.bindless.stimage }
    }

    /// Every resource with a bindless handle is bound under that handle, in
    /// the set of its kind, to its own slot.
    pub open spec fn handles_bound(&self) -> bool {
        &&& forall|c: u64| #[trigger] self.image_states().contains_key(c)
            && self.image_states()[c].descriptor_handle is Some ==> {
            let h = self.image_states()[c].descriptor_handle->0;
            let set = self.image_set(self.image_states()[c].usage);
            set.bound().contains_key(h@) && slot_canon(set.bound()[h@]) == c
        }
        &&& forall|c: u64| #[trigger] self.buffer_states().contains_key(c)
            && self.buffer_states()[c].descriptor_handle is Some ==> {
            let h = self.buffer_states()[c].descriptor_handle->0;
            self.bindless.stbuffer.bound().contains_key(h@) && slot_canon(self.bindless.stbuffer.bound()[h@]) == c
        }
        &&& forall|c: u64| #[trigger] self.sampler_states().contains_key(c)
            && self.sampler_states()[c].descriptor_handle is Some ==> {
            let h = self.sampler_states()[c].descriptor_handle->0;
            self.bindless.sampler.bound().contains_key(h@) && slot_canon(self.bindless.sampler.bound()[h@]) == c
        }
    }

    /// Resource `res` is in the store.
    pub open spec fn holds(&self, res: AnyResKey) -> bool {
        match res {
            AnyResKey::Image(k) => self.image_states().contains_key(slot_canon(k.0)),
            AnyResKey::Buffer(k) => self.buffer_states().contains_key(slot_canon(k.0)),
            AnyResKey::Sampler(k) => self.sampler_states().contains_key(slot_canon(k.0)),
        }
    }

    /// An empty store with default bindless sets for the device.
    pub fn new(info: &BindlessDeviceInfo) -> (r: Result<Resources, BindlessError>)
        ensures
            setup_error(*info) matches Some(e) ==> r == Err::<Resources, BindlessError>(e),
            setup_error(*info) is None ==> r is Ok,
            r matches Ok(res) ==> {
                &&& res.wf()
                &&& Bindless::default_for(res.bindless, *info)
                &&& res.image_states().dom() == Set::<u64>::empty()
                &&& res.buffer_states().dom() == Set::<u64>::empty()
                &&& res.sampler_states().dom() == Set::<u64>::empty()
            },
    {
        let bindless = match Bindless::new_default(info) {
            Ok(b) => b,
            Err(e) => {
                return Err(e);
            },
        };
        Ok(Resources {
            bindless,
            images: image_slots_new(),
            buffer: buffer_slots_new(),
            sampler: sampler_slots_new(),
        })
    }

    /// Adds an image with the given usage flags, assuming it is uninitialised.
    pub fn add_image(&mut self, usage: u32) -> (r: ImageKey)
        requires
            old(self).wf(),
            old(self).image_states().dom().len() + 1 < u32::MAX,
        ensures
            final(self).wf(),
            !old(self).image_states().contains_key(r.0),
            slot_canon(r.0) == r.0,
            final(self).image_states() == old(self).image_states().insert(r.0, fresh_image(usage)),
            final(self).buffer_states() == old(self).buffer_states(),
            final(self).sampler_states() == old(self).sampler_states(),
            final(self).bindless == old(self).bindless,
    {
        let key = image_slots_insert(&mut self.images, ResImage {
            usage,
            ownership: QueueOwnership::Uninitialized,
            mask: 0,
            layout: IMAGE_LAYOUT_UNDEFINED,
            guard: None,
            descriptor_handle: None,
        });
        ImageKey(key)
    }

    /// Adds a sampler.
    pub fn add_sampler(&mut self) -> (r: SamplerKey)
        requires
            old(self).wf(),
            old(self).sampler_states().dom().len() + 1 < u32::MAX,
        ensures
            final(self).wf(),
            !old(self).sampler_states().contains_key(r.0),
            slot_canon(r.0) == r.0,
            final(self).sampler_states() == old(self).sampler_states().insert(r.0, ResSampler { descriptor_handle: None }),
            final(self).image_states() == old(self).image_states(),
            final(self).buffer_states() == old(self).buffer_states(),
            final(self).bindless == old(self).bindless,
    {
        let key = sampler_slots_insert(&mut self.sampler, ResSampler { descriptor_handle: None });
        SamplerKey(key)
    }

    /// Adds a buffer with the given usage flags, assuming it is uninitialised.
    pub fn add_buffer(&mut self, usage: u32) -> (r: BufferKey)
        requires
            old(self).wf(),
            old(self).buffer_states().dom().len() + 1 < u32::MAX,
        ensures
            final(self).wf(),
            !old(self).buffer_states().contains_key(r.0),
            slot_canon(r.0) == r.0,
            final(self).buffer_states() == old(self).buffer_states().insert(r.0, ResBuffer {
                usage,
                ownership: QueueOwnership::Uninitialized,
                mask: 0,
                guard: None,
                descriptor_handle: None,
            }),
            final(self).image_states() == old(self).image_states(),
            final(self).sampler_states() == old(self).sampler_states(),
            final(self).bindless == old(self).bindless,
    {
        let key = buffer_slots_insert(&mut self.buffer, ResBuffer {
            usage,
            ownership: QueueOwnership::Uninitialized,
            mask: 0,
            guard: None,
            descriptor_handle: None,
        });
        BufferKey(key)
    }

    /// Imports a buffer: owned by `queue_family` if given, else uninitialised,
    /// with the given access mask (none if not given). Fails if no track works
    /// on that queue family.
    pub fn import_buffer(&mut self, tracks: &Tracks, usage: u32, queue_family: Option<u32>, access_flags: Option<u64>) -> (r: Result<BufferKey, ResourceError>)
        requires
            old(self).wf(),
            old(self).buffer_states().dom().len() + 1 < u32::MAX,
        ensures
            final(self).wf(),
            r is Err <==> (queue_family matches Some(fam) && forall|k: u32| #[trigger] track_map(tracks.0).contains_key(k)
                ==> track_map(tracks.0)[k].queue_idx != fam),
            r matches Err(e) ==> e == ResourceError::NoTrackForQueueFamily(queue_family->0)
                && *final(self) == *old(self),
            r matches Ok(key) ==> {
                &&& !old(self).buffer_states().contains_key(key.0)
                &&& slot_canon(key.0) == key.0
                &&& final(self).buffer_states() == old(self).buffer_states().insert(key.0, ResBuffer {
                    usage,
                    ownership: match queue_family {
                        Some(fam) => QueueOwnership::Owned(fam),
                        None => QueueOwnership::Uninitialized,
                    },
                    mask: match access_flags {
                        Some(a) => a,
                        None => 0,
                    },
                    guard: None,
                    descriptor_handle: None,
                })
                &&& final(self).image_states() == old(self).image_states()
                &&& final(self).sampler_states() == old(self).sampler_states()
                &&& final(self).bindless == old(self).bindless
            },
    {
        let owner = match queue_family {
            Some(fam) => {
                match tracks.queue_idx_to_trackid(fam) {
                    Some(_t) => QueueOwnership::Owned(fam),
                    None => {
                        return Err(ResourceError::NoTrackForQueueFamily(fam));
                    },
                }
            },
            None => QueueOwnership::Uninitialized,
        };
        let access = match access_flags {
            Some(a) => a,
            None => 0,
        };
        let key = buffer_slots_insert(&mut self.buffer, ResBuffer {
            usage,
            ownership: owner,
            mask: access,
            guard: None,
            descriptor_handle: None,
        });
        Ok(BufferKey(key))
    }

    /// The state of image `key`, which must be in the store.
    pub fn get_image_state(&self, key: ImageKey) -> (r: ResImage)
        requires
            self.image_states().contains_key(slot_canon(key.0)),
        ensures
            r == self.image_states()[slot_canon(key.0)],
    {
        image_slots_get(&self.images, key.0).unwrap()
    }

    /// The state of buffer `key`, which must be in the store.
    pub fn get_buffer_state(&self, key: BufferKey) -> (r: ResBuffer)
        requires
            self.buffer_states().contains_key(slot_canon(key.0)),
        ensures
            r == self.buffer_states()[slot_canon(key.0)],
    {
        buffer_slots_get(&self.buffer, key.0).unwrap()
    }

    /// The state of sampler `key`, which must be in the store.
    pub fn get_sampler_state(&self, key: SamplerKey) -> (r: ResSampler)
        requires
            self.sampler_states().contains_key(slot_canon(key.0)),
        ensures
            r == self.sampler_states()[slot_canon(key.0)],
    {
        sampler_slots_get(&self.sampler, key.0).unwrap()
    }

    /// One binding step on resource `res`: what `bind` returns as `r` and how
    /// the store goes from `old` to `new`.
    pub open spec fn bind_step(old: Resources, new: Resources, res: AnyResKey, r: Result<ResourceHandle, ResourceError>) -> bool {
        match res {
            AnyResKey::Buffer(k) => {
                let st = old.buffer_states()[slot_canon(k.0)];
                &&& st.descriptor_handle matches Some(h) ==> r == Err::<ResourceHandle, ResourceError>(
                    ResourceError::AlreadyBound(AnyHandle { atomic_ref: None, key: res }, h)) && new == old
                &&& st.descriptor_handle is None ==> {
                    &&& r == match old.bindless.stbuffer.next_handle() {
                        Some(raw) => Ok::<ResourceHandle, ResourceError>(ResourceHandle(raw)),
                        None => Err::<ResourceHandle, ResourceError>(ResourceError::BindingFailed),
                    }
                    &&& SetManager::binds_next(old.bindless.stbuffer, new.bindless.stbuffer, k.0)
                    &&& new.bindless.stimage == old.bindless.stimage
                    &&& new.bindless.saimage == old.bindless.saimage
                    &&& new.bindless.sampler == old.bindless.sampler
                    &&& new.bindless.push_constant_size == old.bindless.push_constant_size
                    &&& new.buffer_states() == match r {
                        Ok(h) => old.buffer_states().insert(slot_canon(k.0), ResBuffer { descriptor_handle: Some(h), ..st }),
                        Err(_) => old.buffer_states(),
                    }
                    &&& new.image_states() == old.image_states()
                    &&& new.sampler_states() == old.sampler_states()
                }
            },
            AnyResKey::Image(k) => {
                let st = old.image_states()[slot_canon(k.0)];
                let sampled = st.usage & IMAGE_USAGE_SAMPLED != 0;
                &&& st.descriptor_handle matches Some(h) ==> r == Err::<ResourceHandle, ResourceError>(
                    ResourceError::AlreadyBound(AnyHandle { atomic_ref: None, key: res }, h)) && new == old
                &&& st.descriptor_handle is None && sampled ==> {
                    &&& r == match old.bindless.saimage.next_handle() {
                        Some(raw) => Ok::<ResourceHandle, ResourceError>(ResourceHandle(raw)),
                        None => Err::<ResourceHandle, ResourceError>(ResourceError::BindingFailed),
                    }
                    &&& SetManager::binds_next(old.bindless.saimage, new.bindless.saimage, k.0)
                    &&& new.bindless.stimage == old.bindless.stimage
                }
                &&& st.descriptor_handle is None && !sampled && st.usage & IMAGE_USAGE_STORAGE == 0 ==> {
                    &&& r == Err::<ResourceHandle, ResourceError>(ResourceError::BindingFailed)
                    &&& new == old
                }
                &&& st.descriptor_handle is None && !sampled && st.usage & IMAGE_USAGE_STORAGE != 0 ==> {
                    &&& r == match old.bindless.stimage.next_handle() {
                        Some(raw) => Ok::<ResourceHandle, ResourceError>(ResourceHandle(raw)),
                        None => Err::<ResourceHandle, ResourceError>(ResourceError::BindingFailed),
                    }
                    &&& SetManager::binds_next(old.bindless.stimage, new.bindless.stimage, k.0)
                    &&& new.bindless.saimage == old.bindless.saimage
                }
                &&& st.descriptor_handle is None ==> {
                    &&& new.bindless.stbuffer == old.bindless.stbuffer
                    &&& new.bindless.sampler == old.bindless.sampler
                    &&& new.bindless.push_constant_size == old.bindless.push_constant_size
                    &&& new.image_states() == match r {
                        Ok(h) => old.image_states().insert(slot_canon(k.0), ResImage { descriptor_handle: Some(h), ..st }),
                        Err(_) => old.image_states(),
                    }
                    &&& new.buffer_states() == old.buffer_states()
                    &&& new.sampler_states() == old.sampler_states()
                }
            },
            AnyResKey::Sampler(k) => {
                let st = old.sampler_states()[slot_canon(k.0)];
                &&& st.descriptor_handle matches Some(h) ==> r == Err::<ResourceHandle, ResourceError>(
                    ResourceError::AlreadyBound(AnyHandle { atomic_ref: None, key: res }, h)) && new == old
                &&& st.descriptor_handle is None ==> {
                    &&& r == match old.bindless.sampler.next_handle() {
                        Some(raw) => Ok::<ResourceHandle, ResourceError>(ResourceHandle(raw)),
                        None => Err::<ResourceHandle, ResourceError>(ResourceError::BindingFailed),
                    }
                    &&& SetManager::binds_next(old.bindless.sampler, new.bindless.sampler, k.0)
                    &&& new.bindless.stbuffer == old.bindless.stbuffer
                    &&& new.bindless.stimage == old.bindless.stimage
                    &&& new.bindless.saimage == old.bindless.saimage
                    &&& new.bindless.push_constant_size == old.bindless.push_constant_size
                    &&& new.sampler_states() == match r {
                        Ok(h) => old.sampler_states().insert(slot_canon(k.0), ResSampler { descriptor_handle: Some(h) }),
                        Err(_) => old.sampler_states(),
                    }
                    &&& new.image_states() == old.image_states()
                    &&& new.buffer_states() == old.buffer_states()
                }
            },
        }
    }

    /// The bindless handle resource `res` is bound under, if any.
    pub open spec fn bound_handle(&self, res: AnyResKey) -> Option<ResourceHandle> {
        match res {
            AnyResKey::Buffer(k) => self.buffer_states()[slot_canon(k.0)].descriptor_handle,
            AnyResKey::Image(k) => self.image_states()[slot_canon(k.0)].descriptor_handle,
            AnyResKey::Sampler(k) => self.sampler_states()[slot_canon(k.0)].descriptor_handle,
        }
    }

    /// Binds resource `res`, which must be in the store, for use on the GPU:
    /// a buffer as storage buffer, an image as sampled image if its usage has
    /// the sampled bit and as storage image otherwise, a sampler as sampler.
    /// Fails if it is bound already, or if binding fails.
    fn bind(&mut self, res: AnyResKey) -> (r: Result<ResourceHandle, ResourceError>)
        requires
            old(self).wf(),
            old(self).holds(res),
        ensures
            final(self).wf(),
            Resources::bind_step(*old(self), *final(self), res, r),
    {
        match res {
            AnyResKey::Buffer(buf) => {
                let mut buffer = buffer_slots_get(&self.buffer, buf.0).unwrap();
                if let Some(hdl) = buffer.descriptor_handle {
                    return Err(ResourceError::AlreadyBound(AnyHandle::from(res), hdl));
                }
                let hdl = match self.bindless.bind_storage_buffer(buf.0) {
                    Ok(h) => h,
                    Err(_) => {
                        return Err(ResourceError::BindingFailed);
                    },
                };
                buffer.descriptor_handle = Some(hdl);
                buffer_slots_set(&mut self.buffer, buf.0, buffer);
                Ok(hdl)
            },
            AnyResKey::Image(img) => {
                let mut image = image_slots_get(&self.images, img.0).unwrap();
                if let Some(hdl) = image.descriptor_handle {
                    return Err(ResourceError::AlreadyBound(AnyHandle::from(res), hdl));
                }
                let bound = if image.is_sampled_image() {
                    self.bindless.bind_sampled_image(img.0, image.usage)
                } else {
                    self.bindless.bind_storage_image(img.0, image.usage)
                };
                let hdl = match bound {
                    Ok(h) => h,
                    Err(_) => {
                        return Err(ResourceError::BindingFailed);
                    },
                };
                image.descriptor_handle = Some(hdl);
                image_slots_set(&mut self.images, img.0, image);
                Ok(hdl)
            },
            AnyResKey::Sampler(sam) => {
                let mut sampler = sampler_slots_get(&self.sampler, sam.0).unwrap();
                if let Some(hdl) = sampler.descriptor_handle {
                    return Err(ResourceError::AlreadyBound(AnyHandle::from(res), hdl));
                }
                let hdl = match self.bindless.bind_sampler(sam.0) {
                    Ok(h) => h,
                    Err(_) => {
                        return Err(ResourceError::BindingFailed);
                    },
                };
                sampler.descriptor_handle = Some(hdl);
                sampler_slots_set(&mut self.sampler, sam.0, sampler);
                Ok(hdl)
            },
        }
    }

    /// The bindless handle of `res`, which must be in the store; binds it
    /// first if it is not bound yet.
    pub fn get_resource_handle(&mut self, res: AnyHandle) -> (r: Result<ResourceHandle, ResourceError>)
        requires
            old(self).wf(),
            old(self).holds(res.key),
        ensures
            final(self).wf(),
            old(self).bound_handle(res.key) matches Some(h) ==> r == Ok::<ResourceHandle, ResourceError>(h)
                && *final(self) == *old(self),
            old(self).bound_handle(res.key) is None ==> Resources::bind_step(*old(self), *final(self), res.key, r),
    {
        let hdl = match res.key {
            AnyResKey::Buffer(buf) => buffer_slots_get(&self.buffer, buf.0).unwrap().descriptor_handle,
            AnyResKey::Image(img) => image_slots_get(&self.images, img.0).unwrap().descriptor_handle,
            AnyResKey::Sampler(sam) => sampler_slots_get(&self.sampler, sam.0).unwrap().descriptor_handle,
        };
        if let Some(hdl) = hdl {
            return Ok(hdl);
        }
        self.bind(res.key)
    }
}

/// The ownership and guard of a resource in the store; none for samplers and
/// for resources that are not in the store.
pub open spec fn owned_state(res: Resources, key: AnyResKey) -> Option<(QueueOwnership, Option<Guard>)> {
    match key {
        AnyResKey::Image(k) => if res.image_states().contains_key(slot_canon(k.0)) {
            Some((res.image_states()[slot_canon(k.0)].ownership, res.image_states()[slot_canon(k.0)].guard))
        } else {
            None
        },
        AnyResKey::Buffer(k) => if res.buffer_states().contains_key(slot_canon(k.0)) {
            Some((res.buffer_states()[slot_canon(k.0)].ownership, res.buffer_states()[slot_canon(k.0)].guard))
        } else {
            None
        },
        AnyResKey::Sampler(_) => None,
    }
}

/// The queue family that owns the resource, if it is in the store and owned
/// (not uninitialised, not released).
pub open spec fn owner_family(res: Resources, key: AnyResKey) -> Option<u32> {
    match owned_state(res, key) {
        Some((QueueOwnership::Owned(f), _)) => Some(f),
        _ => None,
    }
}

impl AnyResKey {
    /// The ownership and guard of this resource, if it is an image or buffer
    /// in the store.
    pub(crate) fn owned_state(&self, res: &Resources) -> (r: Option<(QueueOwnership, Option<Guard>)>)
        ensures
            r == owned_state(*res, *self),
    {
        match self {
            AnyResKey::Image(k) => match image_slots_get(&res.images, k.0) {
                Some(img) => Some((img.ownership, img.guard)),
                None => None,
            },
            AnyResKey::Buffer(k) => match buffer_slots_get(&res.buffer, k.0) {
                Some(buf) => Some((buf.ownership, buf.guard)),
                None => None,
            },
            AnyResKey::Sampler(_) => None,
        }
    }

    /// The track that owns the resource: none if it is not in the store, not
    /// owned (uninitialised or released), a sampler, or if no track works on
    /// the owning queue family.
    pub fn current_owner(&self, res: &Resources, tracks: &Tracks) -> (r: Option<TrackId>)
        ensures
            owner_family(*res, *self) is None ==> r is None,
            owner_family(*res, *self) matches Some(f) ==> {
                &&& r is None <==> (forall|k: u32| #[trigger] track_map(tracks.0).contains_key(k)
                    ==> track_map(tracks.0)[k].queue_idx != f)
                &&& r matches Some(id) ==> track_map(tracks.0).contains_key(id.0) && track_map(tracks.0)[id.0].queue_idx == f
            },
    {
        match self.owned_state(res) {
            Some((ownership, _)) => match ownership.owner() {
                Some(qf) => tracks.queue_idx_to_trackid(qf),
                None => None,
            },
            None => None,
        }
    }

    /// True if the resource holds defined content: a sampler always; an image
    /// or buffer in the store once some queue took it over (and, for an image,
    /// its layout is not undefined).
    pub fn is_initialised(&self, res: &Resources) -> (r: bool)
        ensures
            r == match *self {
                AnyResKey::Image(k) => res.image_states().contains_key(slot_canon(k.0))
                    && !(res.image_states()[slot_canon(k.0)].ownership is Uninitialized)
                    && res.image_states()[slot_canon(k.0)].layout != IMAGE_LAYOUT_UNDEFINED,
                AnyResKey::Buffer(k) => res.buffer_states().contains_key(slot_canon(k.0))
                    && !(res.buffer_states()[slot_canon(k.0)].ownership is Uninitialized),
                AnyResKey::Sampler(_) => true,
            },
    {
        match self {
            AnyResKey::Image(k) => match image_slots_get(&res.images, k.0) {
                Some(img) => img.ownership.is_initalised() && img.layout != IMAGE_LAYOUT_UNDEFINED,
                None => false,
            },
            AnyResKey::Buffer(k) => match buffer_slots_get(&res.buffer, k.0) {
                Some(buf) => buf.ownership.is_initalised(),
                None => false,
            },
            AnyResKey::Sampler(_) => true,
        }
    }

    /// The timeline value the resource's guard waits for; 0 without a guard.
    pub fn guarded_until(&self, res: &Resources) -> (r: u64)
        ensures
            r == match owned_state(*res, *self) {
                Some((_, Some(g))) => g.target_value,
                _ => 0,
            },
    {
        match self.owned_state(res) {
            Some((_, Some(g))) => g.wait_value(),
            _ => 0,
        }
    }

    /// True if the resource has no guard, or its guard has expired, where
    /// `sem_value` is the current value of the guarded track's semaphore.
    pub fn guard_expired(&self, res: &Resources, tracks: &Tracks, sem_value: u64) -> (r: bool)
        ensures
            r == match owned_state(*res, *self) {
                Some((_, Some(g))) => !track_map(tracks.0).contains_key(g.track.0) || sem_value >= g.target_value,
                _ => true,
            },
    {
        match self.owned_state(res) {
            Some((_, Some(g))) => g.expired(tracks, sem_value),
            _ => true,
        }
    }
}

/// The semaphore value that `sv` lists last for track `t`; 0 if it lists none.
pub open spec fn sem_value_of(sv: Seq<(TrackId, u64)>, t: TrackId) -> u64
    decreases sv.len(),
{
    if sv.len() == 0 {
        0
    } else if sv.last().0 == t {
        sv.last().1
    } else {
        sem_value_of(sv.drop_last(), t)
    }
}

/// The semaphore value of track `t` as `sv` lists it.
fn sem_value_for(sv: &Vec<(TrackId, u64)>, t: TrackId) -> (r: u64)
    ensures
        r == sem_value_of(sv@, t),
{
    let mut r: u64 = 0;
    let mut i: usize = 0;
    while i < sv.len()
        invariant
            i <= sv@.len(),
            r == sem_value_of(sv@.take(i as int), t),
        decreases sv@.len() - i,
    {
        proof {
            assert(sv@.take(i + 1).drop_last() =~= sv@.take(i as int));
            assert(sv@.take(i + 1).last() == sv@[i as int]);
        }
        if sv[i].0 == t {
            r = sv[i].1;
        }
        i = i + 1;
    }
    proof {
        assert(sv@.take(i as int) =~= sv@);
    }
    r
}

/// A resource under guard `g` may go: it has no guard, the guard's track is
/// not in `tm`, or that track's semaphore value in `sv` reached the guard.
pub open spec fn guard_done(tm: Map<u32, Track>, sv: Seq<(TrackId, u64)>, g: Option<Guard>) -> bool {
    match g {
        None => true,
        Some(g) => !tm.contains_key(g.track.0) || sem_value_of(sv, g.track) >= g.target_value,
    }
}

/// Where resource `key` is kept: its kind (0 image, 1 buffer, 2 sampler)
/// and its slot.
pub open spec fn store_slot(key: AnyResKey) -> (u8, u64) {
    match key {
        AnyResKey::Image(k) => (0u8, slot_canon(k.0)),
        AnyResKey::Buffer(k) => (1u8, slot_canon(k.0)),
        AnyResKey::Sampler(k) => (2u8, slot_canon(k.0)),
    }
}

/// `keys` names slot `c` of kind `tag`.
pub open spec fn names_slot(keys: Seq<AnyResKey>, tag: u8, c: u64) -> bool {
    exists|j: int| 0 <= j < keys.len() && #[trigger] store_slot(keys[j]) == (tag, c)
}

proof fn lemma_names_slot_push(keys: Seq<AnyResKey>, key: AnyResKey, tag: u8, c: u64)
    ensures
        names_slot(keys.push(key), tag, c) <==> names_slot(keys, tag, c) || store_slot(key) == (tag, c),
{
    let q = keys.push(key);
    if names_slot(q, tag, c) {
        let j = choose|j: int| 0 <= j < q.len() && #[trigger] store_slot(q[j]) == (tag, c);
        if j < keys.len() {
            assert(keys[j] == q[j]);
        }
    }
    if names_slot(keys, tag, c) {
        let j = choose|j: int| 0 <= j < keys.len() && #[trigger] store_slot(keys[j]) == (tag, c);
        assert(q[j] == keys[j]);
    }
    if store_slot(key) == (tag, c) {
        assert(q[keys.len() as int] == key);
    }
}

/// Set `new` is `old` after unbinding the raw handles `freed`: they are no
/// longer bound, and each is put in front of the free list once (the order
/// among them is left open); the rest of the set is unchanged.
pub open spec fn unbinds_all(old: SetManager, new: SetManager, freed: Set<u32>) -> bool {
    &&& new.ty == old.ty
    &&& new.max_idx == old.max_idx
    &&& new.head_idx == old.head_idx
    &&& new.bound() == old.bound().remove_keys(freed)
    &&& exists|f: Seq<ResourceHandle>| #[trigger] (f + old.free@) == new.free@ && f.no_duplicates()
        && forall|h: ResourceHandle| f.contains(h) <==> freed.contains(h@)
}

/// The unbinding so far: set `new` is `old` with the raw handles `freed`
/// unbound and put in front of its free list as `f`.
pub open spec fn unbinds_so_far(old: SetManager, new: SetManager, freed: Set<u32>, f: Seq<ResourceHandle>) -> bool {
    &&& new.ty == old.ty
    &&& new.max_idx == old.max_idx
    &&& new.head_idx == old.head_idx
    &&& new.bound() == old.bound().remove_keys(freed)
    &&& new.free@ == f + old.free@
    &&& f.no_duplicates()
    &&& forall|h: ResourceHandle| f.contains(h) <==> freed.contains(h@)
}

/// Unbinding one more raw handle `h`, which was bound.
proof fn lemma_unbinds_step(old: SetManager, mid: SetManager, new: SetManager, freed: Set<u32>, f: Seq<ResourceHandle>, h: ResourceHandle)
    requires
        unbinds_so_far(old, mid, freed, f),
        mid.bound().contains_key(h@),
        SetManager::unbinds(mid, new, h@),
    ensures
        unbinds_so_far(old, new, freed.insert(h@), seq![h] + f),
{
    assert(!freed.contains(h@));
    assert(new.bound() =~= old.bound().remove_keys(freed.insert(h@)));
    assert(new.free@ =~= (seq![h] + f) + old.free@);
    let nf = seq![h] + f;
    assert forall|x: ResourceHandle| nf.contains(x) <==> freed.insert(h@).contains(x@) by {
        if nf.contains(x) {
            let j = choose|j: int| 0 <= j < nf.len() && nf[j] == x;
            if j > 0 {
                assert(f[j - 1] == x);
                assert(f.contains(x));
            }
        }
        if freed.insert(h@).contains(x@) {
            if x@ == h@ {
                assert(x == h);
                assert(nf[0] == x);
            } else {
                assert(freed.contains(x@));
                assert(f.contains(x));
                let j = choose|j: int| 0 <= j < f.len() && f[j] == x;
                assert(nf[j + 1] == x);
            }
        }
    }
    assert forall|a: int, b: int| 0 <= a < b < nf.len() implies nf[a] != nf[b] by {
        if a == 0 {
            assert(nf[b] == f[b - 1]);
            assert(f.contains(f[b - 1]));
        } else {
            assert(nf[a] == f[a - 1] && nf[b] == f[b - 1]);
        }
    }
}

impl Resources {
    /// Image slot `c` is dropped by a tick: it is in the store, `orphaned`
    /// names it, and its guard is done.
    pub open spec fn image_drops(&self, tm: Map<u32, Track>, sv: Seq<(TrackId, u64)>, orphaned: Seq<AnyResKey>, c: u64) -> bool {
        &&& self.image_states().contains_key(c)
        &&& names_slot(orphaned, 0u8, c)
        &&& guard_done(tm, sv, self.image_states()[c].guard)
    }

    /// Buffer slot `c` is dropped by a tick.
    pub open spec fn buffer_drops(&self, tm: Map<u32, Track>, sv: Seq<(TrackId, u64)>, orphaned: Seq<AnyResKey>, c: u64) -> bool {
        &&& self.buffer_states().contains_key(c)
        &&& names_slot(orphaned, 1u8, c)
        &&& guard_done(tm, sv, self.buffer_states()[c].guard)
    }

    /// Sampler slot `c` is dropped by a tick: samplers have no guard.
    pub open spec fn sampler_drops(&self, orphaned: Seq<AnyResKey>, c: u64) -> bool {
        &&& self.sampler_states().contains_key(c)
        &&& names_slot(orphaned, 2u8, c)
    }

    /// The raw handles of the dropped images, sampled ones or the others.
    pub open spec fn freed_image_handles(&self, tm: Map<u32, Track>, sv: Seq<(TrackId, u64)>, orphaned: Seq<AnyResKey>, sampled: bool) -> Set<u32> {
        Set::new(|raw: u32| exists|c: u64| #[trigger] self.image_drops(tm, sv, orphaned, c)
            && (self.image_states()[c].usage & IMAGE_USAGE_SAMPLED != 0) == sampled
            && self.image_states()[c].descriptor_handle == Some(ResourceHandle(raw)))
    }

    /// The raw handles of the dropped buffers.
    pub open spec fn freed_buffer_handles(&self, tm: Map<u32, Track>, sv: Seq<(TrackId, u64)>, orphaned: Seq<AnyResKey>) -> Set<u32> {
        Set::new(|raw: u32| exists|c: u64| #[trigger] self.buffer_drops(tm, sv, orphaned, c)
            && self.buffer_states()[c].descriptor_handle == Some(ResourceHandle(raw)))
    }

    /// The raw handles of the dropped samplers.
    pub open spec fn freed_sampler_handles(&self, orphaned: Seq<AnyResKey>) -> Set<u32> {
        Set::new(|raw: u32| exists|c: u64| #[trigger] self.sampler_drops(orphaned, c)
            && self.sampler_states()[c].descriptor_handle == Some(ResourceHandle(raw)))
    }

    /// The store after dropping, of the orphaned resources named so far
    /// (`p`), those whose guard is done: `o` is the store before.
    pub open spec fn dropped_so_far(&self, o: Resources, tm: Map<u32, Track>, sv: Seq<(TrackId, u64)>, p: Seq<AnyResKey>,
        fsa: Seq<ResourceHandle>, fst: Seq<ResourceHandle>, fbu: Seq<ResourceHandle>, fsm: Seq<ResourceHandle>) -> bool {
        &&& self.image_states() == o.image_states().remove_keys(Set::new(|c: u64| o.image_drops(tm, sv, p, c)))
        &&& self.buffer_states() == o.buffer_states().remove_keys(Set::new(|c: u64| o.buffer_drops(tm, sv, p, c)))
        &&& self.sampler_states() == o.sampler_states().remove_keys(Set::new(|c: u64| o.sampler_drops(p, c)))
        &&& self.bindless.push_constant_size == o.bindless.push_constant_size
        &&& unbinds_so_far(o.bindless.saimage, self.bindless.saimage, o.freed_image_handles(tm, sv, p, true), fsa)
        &&& unbinds_so_far(o.bindless.stimage, self.bindless.stimage, o.freed_image_handles(tm, sv, p, false), fst)
        &&& unbinds_so_far(o.bindless.stbuffer, self.bindless.stbuffer, o.freed_buffer_handles(tm, sv, p), fbu)
        &&& unbinds_so_far(o.bindless.sampler, self.bindless.sampler, o.freed_sampler_handles(p), fsm)
    }
}

/// Two lists of orphans that drop the same images free the same handles.
proof fn lemma_same_image_drops(o: Resources, tm: Map<u32, Track>, sv: Seq<(TrackId, u64)>, p: Seq<AnyResKey>, q: Seq<AnyResKey>)
    requires
        forall|x: u64| o.image_drops(tm, sv, q, x) <==> o.image_drops(tm, sv, p, x),
    ensures
        Set::new(|x: u64| o.image_drops(tm, sv, q, x)) == Set::new(|x: u64| o.image_drops(tm, sv, p, x)),
        o.freed_image_handles(tm, sv, q, true) == o.freed_image_handles(tm, sv, p, true),
        o.freed_image_handles(tm, sv, q, false) == o.freed_image_handles(tm, sv, p, false),
{
    assert(Set::new(|x: u64| o.image_drops(tm, sv, q, x)) =~= Set::new(|x: u64| o.image_drops(tm, sv, p, x)));
    assert forall|b: bool| o.freed_image_handles(tm, sv, q, b) =~= o.freed_image_handles(tm, sv, p, b) by {
        assert forall|raw: u32| o.freed_image_handles(tm, sv, q, b).contains(raw)
            <==> o.freed_image_handles(tm, sv, p, b).contains(raw) by {
            if o.freed_image_handles(tm, sv, q, b).contains(raw) {
                let c2 = choose|c2: u64| #[trigger] o.image_drops(tm, sv, q, c2)
                    && (o.image_states()[c2].usage & IMAGE_USAGE_SAMPLED != 0) == b
                    && o.image_states()[c2].descriptor_handle == Some(ResourceHandle(raw));
                assert(o.image_drops(tm, sv, p, c2));
            }
            if o.freed_image_handles(tm, sv, p, b).contains(raw) {
                let c2 = choose|c2: u64| #[trigger] o.image_drops(tm, sv, p, c2)
                    && (o.image_states()[c2].usage & IMAGE_USAGE_SAMPLED != 0) == b
                    && o.image_states()[c2].descriptor_handle == Some(ResourceHandle(raw));
                assert(o.image_drops(tm, sv, q, c2));
            }
        }
    }
    assert(o.freed_image_handles(tm, sv, q, true) =~= o.freed_image_handles(tm, sv, p, true));
    assert(o.freed_image_handles(tm, sv, q, false) =~= o.freed_image_handles(tm, sv, p, false));
}

/// Two lists of orphans that drop the same buffers free the same handles.
proof fn lemma_same_buffer_drops(o: Resources, tm: Map<u32, Track>, sv: Seq<(TrackId, u64)>, p: Seq<AnyResKey>, q: Seq<AnyResKey>)
    requires
        forall|x: u64| o.buffer_drops(tm, sv, q, x) <==> o.buffer_drops(tm, sv, p, x),
    ensures
        Set::new(|x: u64| o.buffer_drops(tm, sv, q, x)) == Set::new(|x: u64| o.buffer_drops(tm, sv, p, x)),
        o.freed_buffer_handles(tm, sv, q) == o.freed_buffer_handles(tm, sv, p),
{
    assert(Set::new(|x: u64| o.buffer_drops(tm, sv, q, x)) =~= Set::new(|x: u64| o.buffer_drops(tm, sv, p, x)));
    assert forall|raw: u32| o.freed_buffer_handles(tm, sv, q).contains(raw)
        <==> o.freed_buffer_handles(tm, sv, p).contains(raw) by {
        if o.freed_buffer_handles(tm, sv, q).contains(raw) {
            let c2 = choose|c2: u64| #[trigger] o.buffer_drops(tm, sv, q, c2)
                && o.buffer_states()[c2].descriptor_handle == Some(ResourceHandle(raw));
            assert(o.buffer_drops(tm, sv, p, c2));
        }
        if o.freed_buffer_handles(tm, sv, p).contains(raw) {
            let c2 = choose|c2: u64| #[trigger] o.buffer_drops(tm, sv, p, c2)
                && o.buffer_states()[c2].descriptor_handle == Some(ResourceHandle(raw));
            assert(o.buffer_drops(tm, sv, q, c2));
        }
    }
    assert(o.freed_buffer_handles(tm, sv, q) =~= o.freed_buffer_handles(tm, sv, p));
}

/// Two lists of orphans that drop the same samplers free the same handles.
proof fn lemma_same_sampler_drops(o: Resources, p: Seq<AnyResKey>, q: Seq<AnyResKey>)
    requires
        forall|x: u64| o.sampler_drops(q, x) <==> o.sampler_drops(p, x),
    ensures
        Set::new(|x: u64| o.sampler_drops(q, x)) == Set::new(|x: u64| o.sampler_drops(p, x)),
        o.freed_sampler_handles(q) == o.freed_sampler_handles(p),
{
    assert(Set::new(|x: u64| o.sampler_drops(q, x)) =~= Set::new(|x: u64| o.sampler_drops(p, x)));
    assert forall|raw: u32| o.freed_sampler_handles(q).contains(raw) <==> o.freed_sampler_handles(p).contains(raw) by {
        if o.freed_sampler_handles(q).contains(raw) {
            let c2 = choose|c2: u64| #[trigger] o.sampler_drops(q, c2)
                && o.sampler_states()[c2].descriptor_handle == Some(ResourceHandle(raw));
            assert(o.sampler_drops(p, c2));
        }
        if o.freed_sampler_handles(p).contains(raw) {
            let c2 = choose|c2: u64| #[trigger] o.sampler_drops(p, c2)
                && o.sampler_states()[c2].descriptor_handle == Some(ResourceHandle(raw));
            assert(o.sampler_drops(q, c2));
        }
    }
    assert(o.freed_sampler_handles(q) =~= o.freed_sampler_handles(p));
}

impl Resources {
    /// Tick step for image `k`: drops it if the store holds it and its guard
    /// is done, unbinding its handle. `p` lists the orphans handled before.
    fn drop_image_if_done(
        &mut self,
        k: ImageKey,
        tracks: &Tracks,
        sem_values: &Vec<(TrackId, u64)>,
        Ghost(o): Ghost<Resources>,
        Ghost(p): Ghost<Seq<AnyResKey>>,
        Ghost(fsa): Ghost<Seq<ResourceHandle>>,
        Ghost(fst): Ghost<Seq<ResourceHandle>>,
        Ghost(fbu): Ghost<Seq<ResourceHandle>>,
        Ghost(fsm): Ghost<Seq<ResourceHandle>>,
    ) -> (r: (Ghost<Seq<ResourceHandle>>, Ghost<Seq<ResourceHandle>>))
        requires
            old(self).wf(),
            o.wf(),
            old(self).dropped_so_far(o, track_map(tracks.0), sem_values@, p, fsa, fst, fbu, fsm),
        ensures
            final(self).wf(),
            final(self).dropped_so_far(o, track_map(tracks.0), sem_values@, p.push(AnyResKey::Image(k)), r.0@, r.1@, fbu, fsm),
    {
        let ghost tm = track_map(tracks.0);
        let ghost sv = sem_values@;
        let ghost key = AnyResKey::Image(k);
        let ghost q = p.push(key);
        let ghost c = slot_canon(k.0);
        let ghost s0 = *self;
        proof {
            assert forall|tag: u8, x: u64| names_slot(q, tag, x) <==> names_slot(p, tag, x) || store_slot(key) == (tag, x) by {
                lemma_names_slot_push(p, key, tag, x);
            }
            lemma_same_buffer_drops(o, tm, sv, p, q);
            lemma_same_sampler_drops(o, p, q);
        }
        let img = match image_slots_get(&self.images, k.0) {
            Some(img) => img,
            None => {
                proof {
                    assert forall|x: u64| o.image_drops(tm, sv, q, x) <==> o.image_drops(tm, sv, p, x) by {
                        if x == c && o.image_drops(tm, sv, q, x) {
                            assert(!s0.image_states().contains_key(c));
                        }
                    }
                    lemma_same_image_drops(o, tm, sv, p, q);
                }
                return (Ghost(fsa), Ghost(fst));
            },
        };
        assert(img == o.image_states()[c] && !o.image_drops(tm, sv, p, c));
        let done = match img.guard {
            None => true,
            Some(g) => g.expired(tracks, sem_value_for(sem_values, g.track)),
        };
        if !done {
            proof {
                assert forall|x: u64| o.image_drops(tm, sv, q, x) <==> o.image_drops(tm, sv, p, x) by {}
                lemma_same_image_drops(o, tm, sv, p, q);
            }
            return (Ghost(fsa), Ghost(fst));
        }
        proof {
            assert forall|x: u64| o.image_drops(tm, sv, q, x) <==> o.image_drops(tm, sv, p, x) || x == c by {}
            assert(Set::new(|x: u64| o.image_drops(tm, sv, q, x)) =~= Set::new(|x: u64| o.image_drops(tm, sv, p, x)).insert(c));
        }
        let sampled = img.is_sampled_image();
        let ghost mut nsa = fsa;
        let ghost mut nst = fst;
        match img.descriptor_handle {
            Some(h) => {
                proof {
                    assert(o.image_set(img.usage).bound().contains_key(h@));
                    assert(slot_canon(o.image_set(img.usage).bound()[h@]) == c);
                    if o.freed_image_handles(tm, sv, p, sampled).contains(h@) {
                        let c2 = choose|c2: u64| #[trigger] o.image_drops(tm, sv, p, c2)
                            && (o.image_states()[c2].usage & IMAGE_USAGE_SAMPLED != 0) == sampled
                            && o.image_states()[c2].descriptor_handle == Some(ResourceHandle(h@));
                        assert(slot_canon(o.image_set(o.image_states()[c2].usage).bound()[h@]) == c2);
                    }
                    assert(!o.freed_image_handles(tm, sv, p, sampled).contains(h@));
                    assert(o.freed_image_handles(tm, sv, q, sampled) =~= o.freed_image_handles(tm, sv, p, sampled).insert(h@)) by {
                        assert forall|raw: u32| o.freed_image_handles(tm, sv, q, sampled).contains(raw)
                            <==> o.freed_image_handles(tm, sv, p, sampled).insert(h@).contains(raw) by {
                            if o.freed_image_handles(tm, sv, q, sampled).contains(raw) {
                                let c2 = choose|c2: u64| #[trigger] o.image_drops(tm, sv, q, c2)
                                    && (o.image_states()[c2].usage & IMAGE_USAGE_SAMPLED != 0) == sampled
                                    && o.image_states()[c2].descriptor_handle == Some(ResourceHandle(raw));
                                if c2 != c {
                                    assert(o.image_drops(tm, sv, p, c2));
                                }
                            }
                            if raw == h@ {
                                assert(o.image_drops(tm, sv, q, c));
                            } else if o.freed_image_handles(tm, sv, p, sampled).contains(raw) {
                                let c2 = choose|c2: u64| #[trigger] o.image_drops(tm, sv, p, c2)
                                    && (o.image_states()[c2].usage & IMAGE_USAGE_SAMPLED != 0) == sampled
                                    && o.image_states()[c2].descriptor_handle == Some(ResourceHandle(raw));
                                assert(o.image_drops(tm, sv, q, c2));
                            }
                        }
                    }
                    let ns = !sampled;
                    assert(o.freed_image_handles(tm, sv, q, ns) =~= o.freed_image_handles(tm, sv, p, ns)) by {
                        assert forall|raw: u32| o.freed_image_handles(tm, sv, q, ns).contains(raw)
                            <==> o.freed_image_handles(tm, sv, p, ns).contains(raw) by {
                            if o.freed_image_handles(tm, sv, q, ns).contains(raw) {
                                let c2 = choose|c2: u64| #[trigger] o.image_drops(tm, sv, q, c2)
                                    && (o.image_states()[c2].usage & IMAGE_USAGE_SAMPLED != 0) == ns
                                    && o.image_states()[c2].descriptor_handle == Some(ResourceHandle(raw));
                                assert(c2 != c);
                                assert(o.image_drops(tm, sv, p, c2));
                            }
                            if o.freed_image_handles(tm, sv, p, ns).contains(raw) {
                                let c2 = choose|c2: u64| #[trigger] o.image_drops(tm, sv, p, c2)
                                    && (o.image_states()[c2].usage & IMAGE_USAGE_SAMPLED != 0) == ns
                                    && o.image_states()[c2].descriptor_handle == Some(ResourceHandle(raw));
                                assert(o.image_drops(tm, sv, q, c2));
                            }
                        }
                    }
                }
                if sampled {
                    let ghost mid = self.bindless.saimage;
                    self.bindless.remove_sampled_image(h);
                    proof {
                        lemma_unbinds_step(o.bindless.saimage, mid, self.bindless.saimage,
                            o.freed_image_handles(tm, sv, p, true), fsa, h);
                        nsa = seq![h] + fsa;
                    }
                } else {
                    let ghost mid = self.bindless.stimage;
                    self.bindless.remove_storage_image(h);
                    proof {
                        lemma_unbinds_step(o.bindless.stimage, mid, self.bindless.stimage,
                            o.freed_image_handles(tm, sv, p, false), fst, h);
                        nst = seq![h] + fst;
                    }
                }
            },
            None => {
                proof {
                    assert forall|b: bool| o.freed_image_handles(tm, sv, q, b) =~= o.freed_image_handles(tm, sv, p, b) by {
                        assert forall|raw: u32| o.freed_image_handles(tm, sv, q, b).contains(raw)
                            <==> o.freed_image_handles(tm, sv, p, b).contains(raw) by {
                            if o.freed_image_handles(tm, sv, q, b).contains(raw) {
                                let c2 = choose|c2: u64| #[trigger] o.image_drops(tm, sv, q, c2)
                                    && (o.image_states()[c2].usage & IMAGE_USAGE_SAMPLED != 0) == b
                                    && o.image_states()[c2].descriptor_handle == Some(ResourceHandle(raw));
                                assert(c2 != c);
                                assert(o.image_drops(tm, sv, p, c2));
                            }
                            if o.freed_image_handles(tm, sv, p, b).contains(raw) {
                                let c2 = choose|c2: u64| #[trigger] o.image_drops(tm, sv, p, c2)
                                    && (o.image_states()[c2].usage & IMAGE_USAGE_SAMPLED != 0) == b
                                    && o.image_states()[c2].descriptor_handle == Some(ResourceHandle(raw));
                                assert(o.image_drops(tm, sv, q, c2));
                            }
                        }
                    }
                    assert(o.freed_image_handles(tm, sv, q, true) =~= o.freed_image_handles(tm, sv, p, true));
                    assert(o.freed_image_handles(tm, sv, q, false) =~= o.freed_image_handles(tm, sv, p, false));
                }
            },
        }
        let ghost s1 = *self;
        image_slots_remove(&mut self.images, k.0);
        proof {
            assert(self.image_states() =~= o.image_states().remove_keys(Set::new(|x: u64| o.image_drops(tm, sv, q, x))));
            assert forall|x: u64| #[trigger] self.image_states().contains_key(x)
                && self.image_states()[x].descriptor_handle is Some implies {
                let hx = self.image_states()[x].descriptor_handle->0;
                let set = self.image_set(self.image_states()[x].usage);
                set.bound().contains_key(hx@) && slot_canon(set.bound()[hx@]) == x
            } by {
                let hx = self.image_states()[x].descriptor_handle->0;
                assert(s0.image_states()[x] == self.image_states()[x]);
                assert(s0.image_set(s0.image_states()[x].usage).bound().contains_key(hx@));
                if let Some(h) = img.descriptor_handle {
                    if h@ == hx@ && (img.usage & IMAGE_USAGE_SAMPLED != 0) == (self.image_states()[x].usage & IMAGE_USAGE_SAMPLED != 0) {
                        assert(slot_canon(s0.image_set(img.usage).bound()[h@]) == c);
                    }
                }
            }
        }
        (Ghost(nsa), Ghost(nst))
    }
}

impl Resources {
    /// Tick step for buffer `k`: drops it if the store holds it and its guard
    /// is done, unbinding its handle. `p` lists the orphans handled before.
    fn drop_buffer_if_done(
        &mut self,
        k: BufferKey,
        tracks: &Tracks,
        sem_values: &Vec<(TrackId, u64)>,
        Ghost(o): Ghost<Resources>,
        Ghost(p): Ghost<Seq<AnyResKey>>,
        Ghost(fsa): Ghost<Seq<ResourceHandle>>,
        Ghost(fst): Ghost<Seq<ResourceHandle>>,
        Ghost(fbu): Ghost<Seq<ResourceHandle>>,
        Ghost(fsm): Ghost<Seq<ResourceHandle>>,
    ) -> (r: Ghost<Seq<ResourceHandle>>)
        requires
            old(self).wf(),
            o.wf(),
            old(self).dropped_so_far(o, track_map(tracks.0), sem_values@, p, fsa, fst, fbu, fsm),
        ensures
            final(self).wf(),
            final(self).dropped_so_far(o, track_map(tracks.0), sem_values@, p.push(AnyResKey::Buffer(k)), fsa, fst, r@, fsm),
    {
        let ghost tm = track_map(tracks.0);
        let ghost sv = sem_values@;
        let ghost key = AnyResKey::Buffer(k);
        let ghost q = p.push(key);
        let ghost c = slot_canon(k.0);
        let ghost s0 = *self;
        proof {
            assert forall|tag: u8, x: u64| names_slot(q, tag, x) <==> names_slot(p, tag, x) || store_slot(key) == (tag, x) by {
                lemma_names_slot_push(p, key, tag, x);
            }
            lemma_same_image_drops(o, tm, sv, p, q);
            lemma_same_sampler_drops(o, p, q);
        }
        let buf = match buffer_slots_get(&self.buffer, k.0) {
            Some(b) => b,
            None => {
                proof {
                    assert forall|x: u64| o.buffer_drops(tm, sv, q, x) <==> o.buffer_drops(tm, sv, p, x) by {
                        if x == c && o.buffer_drops(tm, sv, q, x) {
                            assert(!s0.buffer_states().contains_key(c));
                        }
                    }
                    lemma_same_buffer_drops(o, tm, sv, p, q);
                }
                return Ghost(fbu);
            },
        };
        assert(buf == o.buffer_states()[c] && !o.buffer_drops(tm, sv, p, c));
        let done = match buf.guard {
            None => true,
            Some(g) => g.expired(tracks, sem_value_for(sem_values, g.track)),
        };
        if !done {
            proof {
                assert forall|x: u64| o.buffer_drops(tm, sv, q, x) <==> o.buffer_drops(tm, sv, p, x) by {}
                lemma_same_buffer_drops(o, tm, sv, p, q);
            }
            return Ghost(fbu);
        }
        proof {
            assert forall|x: u64| o.buffer_drops(tm, sv, q, x) <==> o.buffer_drops(tm, sv, p, x) || x == c by {}
            assert(Set::new(|x: u64| o.buffer_drops(tm, sv, q, x)) =~= Set::new(|x: u64| o.buffer_drops(tm, sv, p, x)).insert(c));
        }
        let ghost mut nbu = fbu;
        match buf.descriptor_handle {
            Some(h) => {
                proof {
                    assert(o.bindless.stbuffer.bound().contains_key(h@));
                    if o.freed_buffer_handles(tm, sv, p).contains(h@) {
                        let c2 = choose|c2: u64| #[trigger] o.buffer_drops(tm, sv, p, c2)
                            && o.buffer_states()[c2].descriptor_handle == Some(ResourceHandle(h@));
                        assert(slot_canon(o.bindless.stbuffer.bound()[h@]) == c2);
                    }
                    assert(o.freed_buffer_handles(tm, sv, q) =~= o.freed_buffer_handles(tm, sv, p).insert(h@)) by {
                        assert forall|raw: u32| o.freed_buffer_handles(tm, sv, q).contains(raw)
                            <==> o.freed_buffer_handles(tm, sv, p).insert(h@).contains(raw) by {
                            if o.freed_buffer_handles(tm, sv, q).contains(raw) {
                                let c2 = choose|c2: u64| #[trigger] o.buffer_drops(tm, sv, q, c2)
                                    && o.buffer_states()[c2].descriptor_handle == Some(ResourceHandle(raw));
                                if c2 != c {
                                    assert(o.buffer_drops(tm, sv, p, c2));
                                }
                            }
                            if raw == h@ {
                                assert(o.buffer_drops(tm, sv, q, c));
                            } else if o.freed_buffer_handles(tm, sv, p).contains(raw) {
                                let c2 = choose|c2: u64| #[trigger] o.buffer_drops(tm, sv, p, c2)
                                    && o.buffer_states()[c2].descriptor_handle == Some(ResourceHandle(raw));
                                assert(o.buffer_drops(tm, sv, q, c2));
                            }
                        }
                    }
                }
                let ghost mid = self.bindless.stbuffer;
                self.bindless.remove_storage_buffer(h);
                proof {
                    lemma_unbinds_step(o.bindless.stbuffer, mid, self.bindless.stbuffer,
                        o.freed_buffer_handles(tm, sv, p), fbu, h);
                    nbu = seq![h] + fbu;
                }
            },
            None => {
                proof {
                    assert forall|raw: u32| o.freed_buffer_handles(tm, sv, q).contains(raw)
                        <==> o.freed_buffer_handles(tm, sv, p).contains(raw) by {
                        if o.freed_buffer_handles(tm, sv, q).contains(raw) {
                            let c2 = choose|c2: u64| #[trigger] o.buffer_drops(tm, sv, q, c2)
                                && o.buffer_states()[c2].descriptor_handle == Some(ResourceHandle(raw));
                            assert(c2 != c);
                            assert(o.buffer_drops(tm, sv, p, c2));
                        }
                        if o.freed_buffer_handles(tm, sv, p).contains(raw) {
                            let c2 = choose|c2: u64| #[trigger] o.buffer_drops(tm, sv, p, c2)
                                && o.buffer_states()[c2].descriptor_handle == Some(ResourceHandle(raw));
                            assert(o.buffer_drops(tm, sv, q, c2));
                        }
                    }
                    assert(o.freed_buffer_handles(tm, sv, q) =~= o.freed_buffer_handles(tm, sv, p));
                }
            },
        }
        buffer_slots_remove(&mut self.buffer, k.0);
        proof {
            assert(self.buffer_states() =~= o.buffer_states().remove_keys(Set::new(|x: u64| o.buffer_drops(tm, sv, q, x))));
            assert forall|x: u64| #[trigger] self.buffer_states().contains_key(x)
                && self.buffer_states()[x].descriptor_handle is Some implies {
                let hx = self.buffer_states()[x].descriptor_handle->0;
                self.bindless.stbuffer.bound().contains_key(hx@) && slot_canon(self.bindless.stbuffer.bound()[hx@]) == x
            } by {
                let hx = self.buffer_states()[x].descriptor_handle->0;
                assert(s0.buffer_states()[x] == self.buffer_states()[x]);
                if let Some(h) = buf.descriptor_handle {
                    if h@ == hx@ {
                        assert(slot_canon(s0.bindless.stbuffer.bound()[h@]) == c);
                    }
                }
            }
        }
        Ghost(nbu)
    }

    /// Tick step for sampler `k`: drops it if the store holds it, unbinding
    /// its handle. `p` lists the orphans handled before.
    fn drop_sampler(
        &mut self,
        k: SamplerKey,
        Ghost(tm): Ghost<Map<u32, Track>>,
        Ghost(sv): Ghost<Seq<(TrackId, u64)>>,
        Ghost(o): Ghost<Resources>,
        Ghost(p): Ghost<Seq<AnyResKey>>,
        Ghost(fsa): Ghost<Seq<ResourceHandle>>,
        Ghost(fst): Ghost<Seq<ResourceHandle>>,
        Ghost(fbu): Ghost<Seq<ResourceHandle>>,
        Ghost(fsm): Ghost<Seq<ResourceHandle>>,
    ) -> (r: Ghost<Seq<ResourceHandle>>)
        requires
            old(self).wf(),
            o.wf(),
            old(self).dropped_so_far(o, tm, sv, p, fsa, fst, fbu, fsm),
        ensures
            final(self).wf(),
            final(self).dropped_so_far(o, tm, sv, p.push(AnyResKey::Sampler(k)), fsa, fst, fbu, r@),
    {
        let ghost key = AnyResKey::Sampler(k);
        let ghost q = p.push(key);
        let ghost c = slot_canon(k.0);
        let ghost s0 = *self;
        proof {
            assert forall|tag: u8, x: u64| names_slot(q, tag, x) <==> names_slot(p, tag, x) || store_slot(key) == (tag, x) by {
                lemma_names_slot_push(p, key, tag, x);
            }
            lemma_same_image_drops(o, tm, sv, p, q);
            lemma_same_buffer_drops(o, tm, sv, p, q);
        }
        let sam = match sampler_slots_get(&self.sampler, k.0) {
            Some(x) => x,
            None => {
                proof {
                    assert forall|x: u64| o.sampler_drops(q, x) <==> o.sampler_drops(p, x) by {
                        if x == c && o.sampler_drops(q, x) {
                            assert(!s0.sampler_states().contains_key(c));
                        }
                    }
                    lemma_same_sampler_drops(o, p, q);
                }
                return Ghost(fsm);
            },
        };
        assert(sam == o.sampler_states()[c] && !o.sampler_drops(p, c));
        proof {
            assert forall|x: u64| o.sampler_drops(q, x) <==> o.sampler_drops(p, x) || x == c by {}
            assert(Set::new(|x: u64| o.sampler_drops(q, x)) =~= Set::new(|x: u64| o.sampler_drops(p, x)).insert(c));
        }
        let ghost mut nsm = fsm;
        match sam.descriptor_handle {
            Some(h) => {
                proof {
                    assert(o.bindless.sampler.bound().contains_key(h@));
                    if o.freed_sampler_handles(p).contains(h@) {
                        let c2 = choose|c2: u64| #[trigger] o.sampler_drops(p, c2)
                            && o.sampler_states()[c2].descriptor_handle == Some(ResourceHandle(h@));
                        assert(slot_canon(o.bindless.sampler.bound()[h@]) == c2);
                    }
                    assert(o.freed_sampler_handles(q) =~= o.freed_sampler_handles(p).insert(h@)) by {
                        assert forall|raw: u32| o.freed_sampler_handles(q).contains(raw)
                            <==> o.freed_sampler_handles(p).insert(h@).contains(raw) by {
                            if o.freed_sampler_handles(q).contains(raw) {
                                let c2 = choose|c2: u64| #[trigger] o.sampler_drops(q, c2)
                                    && o.sampler_states()[c2].descriptor_handle == Some(ResourceHandle(raw));
                                if c2 != c {
                                    assert(o.sampler_drops(p, c2));
                                }
                            }
                            if raw == h@ {
                                assert(o.sampler_drops(q, c));
                            } else if o.freed_sampler_handles(p).contains(raw) {
                                let c2 = choose|c2: u64| #[trigger] o.sampler_drops(p, c2)
                                    && o.sampler_states()[c2].descriptor_handle == Some(ResourceHandle(raw));
                                assert(o.sampler_drops(q, c2));
                            }
                        }
                    }
                }
                let ghost mid = self.bindless.sampler;
                self.bindless.remove_sampler(h);
                proof {
                    lemma_unbinds_step(o.bindless.sampler, mid, self.bindless.sampler, o.freed_sampler_handles(p), fsm, h);
                    nsm = seq![h] + fsm;
                }
            },
            None => {
                proof {
                    assert forall|raw: u32| o.freed_sampler_handles(q).contains(raw) <==> o.freed_sampler_handles(p).contains(raw) by {
                        if o.freed_sampler_handles(q).contains(raw) {
                            let c2 = choose|c2: u64| #[trigger] o.sampler_drops(q, c2)
                                && o.sampler_states()[c2].descriptor_handle == Some(ResourceHandle(raw));
                            assert(c2 != c);
                            assert(o.sampler_drops(p, c2));
                        }
                        if o.freed_sampler_handles(p).contains(raw) {
                            let c2 = choose|c2: u64| #[trigger] o.sampler_drops(p, c2)
                                && o.sampler_states()[c2].descriptor_handle == Some(ResourceHandle(raw));
                            assert(o.sampler_drops(q, c2));
                        }
                    }
                    assert(o.freed_sampler_handles(q) =~= o.freed_sampler_handles(p));
                }
            },
        }
        sampler_slots_remove(&mut self.sampler, k.0);
        proof {
            assert(self.sampler_states() =~= o.sampler_states().remove_keys(Set::new(|x: u64| o.sampler_drops(q, x))));
            assert forall|x: u64| #[trigger] self.sampler_states().contains_key(x)
                && self.sampler_states()[x].descriptor_handle is Some implies {
                let hx = self.sampler_states()[x].descriptor_handle->0;
                self.bindless.sampler.bound().contains_key(hx@) && slot_canon(self.bindless.sampler.bound()[hx@]) == x
            } by {
                let hx = self.sampler_states()[x].descriptor_handle->0;
                assert(s0.sampler_states()[x] == self.sampler_states()[x]);
                if let Some(h) = sam.descriptor_handle {
                    if h@ == hx@ {
                        assert(slot_canon(s0.bindless.sampler.bound()[h@]) == c);
                    }
                }
            }
        }
        Ghost(nsm)
    }
}

impl Resources {
    /// Drops, of the resources in `orphaned` (those that no handle refers to
    /// any more), the ones the store holds whose guard is done, with
    /// `sem_values` giving the current semaphore value of each track; and
    /// frees their bindless slots. Samplers have no guard.
    pub fn tick_record(&mut self, tracks: &Tracks, orphaned: &Vec<AnyResKey>, sem_values: &Vec<(TrackId, u64)>)
        requires
            old(self).wf(),
        ensures
            final(self).wf(),
            final(self).image_states() == old(self).image_states().remove_keys(
                Set::new(|c: u64| old(self).image_drops(track_map(tracks.0), sem_values@, orphaned@, c))),
            final(self).buffer_states() == old(self).buffer_states().remove_keys(
                Set::new(|c: u64| old(self).buffer_drops(track_map(tracks.0), sem_values@, orphaned@, c))),
            final(self).sampler_states() == old(self).sampler_states().remove_keys(
                Set::new(|c: u64| old(self).sampler_drops(orphaned@, c))),
            final(self).bindless.push_constant_size == old(self).bindless.push_constant_size,
            unbinds_all(old(self).bindless.saimage, final(self).bindless.saimage,
                old(self).freed_image_handles(track_map(tracks.0), sem_values@, orphaned@, true)),
            unbinds_all(old(self).bindless.stimage, final(self).bindless.stimage,
                old(self).freed_image_handles(track_map(tracks.0), sem_values@, orphaned@, false)),
            unbinds_all(old(self).bindless.stbuffer, final(self).bindless.stbuffer,
                old(self).freed_buffer_handles(track_map(tracks.0), sem_values@, orphaned@)),
            unbinds_all(old(self).bindless.sampler, final(self).bindless.sampler,
                old(self).freed_sampler_handles(orphaned@)),
    {
        let ghost o = *self;
        let ghost tm = track_map(tracks.0);
        let ghost sv = sem_values@;
        let ghost mut fsa: Seq<ResourceHandle> = Seq::empty();
        let ghost mut fst: Seq<ResourceHandle> = Seq::empty();
        let ghost mut fbu: Seq<ResourceHandle> = Seq::empty();
        let ghost mut fsm: Seq<ResourceHandle> = Seq::empty();
        proof {
            let e = orphaned@.take(0);
            assert forall|tag: u8, x: u64| !names_slot(e, tag, x) by {}
            assert(Set::new(|x: u64| o.image_drops(tm, sv, e, x)) =~= Set::<u64>::empty());
            assert(Set::new(|x: u64| o.buffer_drops(tm, sv, e, x)) =~= Set::<u64>::empty());
            assert(Set::new(|x: u64| o.sampler_drops(e, x)) =~= Set::<u64>::empty());
            assert(o.freed_image_handles(tm, sv, e, true) =~= Set::<u32>::empty());
            assert(o.freed_image_handles(tm, sv, e, false) =~= Set::<u32>::empty());
            assert(o.freed_buffer_handles(tm, sv, e) =~= Set::<u32>::empty());
            assert(o.freed_sampler_handles(e) =~= Set::<u32>::empty());
            assert(o.image_states() =~= o.image_states().remove_keys(Set::<u64>::empty()));
            assert(o.buffer_states() =~= o.buffer_states().remove_keys(Set::<u64>::empty()));
            assert(o.sampler_states() =~= o.sampler_states().remove_keys(Set::<u64>::empty()));
            assert(o.bindless.saimage.bound() =~= o.bindless.saimage.bound().remove_keys(Set::<u32>::empty()));
            assert(o.bindless.stimage.bound() =~= o.bindless.stimage.bound().remove_keys(Set::<u32>::empty()));
            assert(o.bindless.stbuffer.bound() =~= o.bindless.stbuffer.bound().remove_keys(Set::<u32>::empty()));
            assert(o.bindless.sampler.bound() =~= o.bindless.sampler.bound().remove_keys(Set::<u32>::empty()));
            assert(o.bindless.saimage.free@ =~= fsa + o.bindless.saimage.free@);
            assert(o.bindless.stimage.free@ =~= fst + o.bindless.stimage.free@);
            assert(o.bindless.stbuffer.free@ =~= fbu + o.bindless.stbuffer.free@);
            assert(o.bindless.sampler.free@ =~= fsm + o.bindless.sampler.free@);
        }
        let mut i: usize = 0;
        while i < orphaned.len()
            invariant
                i <= orphaned@.len(),
                o.wf(),
                self.wf(),
                tm == track_map(tracks.0),
                sv == sem_values@,
                self.dropped_so_far(o, tm, sv, orphaned@.take(i as int), fsa, fst, fbu, fsm),
            decreases orphaned@.len() - i,
        {
            let ghost p = orphaned@.take(i as int);
            proof {
                assert(orphaned@.take(i + 1) =~= p.push(orphaned@[i as int]));
            }
            match orphaned[i] {
                AnyResKey::Image(k) => {
                    let (Ghost(a), Ghost(b)) = self.drop_image_if_done(k, tracks, sem_values, Ghost(o), Ghost(p),
                        Ghost(fsa), Ghost(fst), Ghost(fbu), Ghost(fsm));
                    proof {
                        fsa = a;
                        fst = b;
                    }
                },
                AnyResKey::Buffer(k) => {
                    let Ghost(b) = self.drop_buffer_if_done(k, tracks, sem_values, Ghost(o), Ghost(p),
                        Ghost(fsa), Ghost(fst), Ghost(fbu), Ghost(fsm));
                    proof {
                        fbu = b;
                    }
                },
                AnyResKey::Sampler(k) => {
                    let Ghost(b) = self.drop_sampler(k, Ghost(tm), Ghost(sv), Ghost(o), Ghost(p),
                        Ghost(fsa), Ghost(fst), Ghost(fbu), Ghost(fsm));
                    proof {
                        fsm = b;
                    }
                },
            }
            i = i + 1;
        }
        proof {
            assert(orphaned@.take(i as int) =~= orphaned@);
            assert((fsa + o.bindless.saimage.free@) == self.bindless.saimage.free@);
            assert((fst + o.bindless.stimage.free@) == self.bindless.stimage.free@);
            assert((fbu + o.bindless.stbuffer.free@) == self.bindless.stbuffer.free@);
            assert((fsm + o.bindless.sampler.free@) == self.bindless.sampler.free@);
        }
    }
}

} // verus!

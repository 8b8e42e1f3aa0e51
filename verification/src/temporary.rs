//! Temporary resources: resources created for a while, which can be dropped
//! once they have not been used for their timeout.
use vstd::prelude::*;
use fxhash::FxHashMap;
use crate::error::ResourceError;
use crate::maps::{temp_map, temp_map_new, temp_map_insert, temp_map_remove, temp_map_entries};
use crate::res_states::{AnyHandle, AnyResKey, BufferKey, ImageKey, SamplerKey, res_code};

verus! {

/// When a temporary resource was used last, and after how many epochs
/// without use it can be dropped.
#[derive(Clone, Copy, Debug, PartialEq, Eq, Structural)]
pub struct RuntimeInfo {
    pub last_use: u64,
    pub timeout: u64,
}

impl RuntimeInfo {
    /// The epoch from which on the resource can be dropped.
    pub fn timeout_epoch(&self) -> (r: u64)
        requires
            self.last_use + self.timeout <= u64::MAX,
        ensures
            r == self.last_use + self.timeout,
    {
        self.last_use + self.timeout
    }
}

/// Keeps track of resources that were created temporarily, and when they
/// were used last.
pub struct TempResources {
    /// The current epoch.
    pub epoch: u64,
    /// Runtime info by resource code.
    pub res_map: FxHashMap<(u8, u64), RuntimeInfo>,
}

impl TempResources {
    /// Default timeout, in epochs.
    pub const DEFAULT_TIMEOUT: u64 = 31;

    /// The runtime infos of the resources, by code.
    pub open spec fn infos(&self) -> Map<(u8, u64), RuntimeInfo> {
        temp_map(self.res_map)
    }

    /// Every code held is the code of a resource key.
    pub open spec fn wf(&self) -> bool {
        &&& self.infos().dom().finite()
        &&& forall|c: (u8, u64)| #[trigger] self.infos().contains_key(c) ==> c.0 <= 2
    }

    /// Resource `c` has reached its timeout epoch at epoch `epoch`.
    pub open spec fn timed_out(info: RuntimeInfo, epoch: u64) -> bool {
        info.last_use + info.timeout <= epoch
    }

    /// No resources, at epoch 0.
    pub fn new() -> (r: TempResources)
        ensures
            r.wf(),
            r.epoch == 0,
            r.infos() == Map::<(u8, u64), RuntimeInfo>::empty(),
    {
        let r = TempResources { epoch: 0, res_map: temp_map_new() };
        proof {
            assert(r.infos() =~= Map::<(u8, u64), RuntimeInfo>::empty());
        }
        r
    }

    /// Keeps `res` as used now, with the given timeout. Fails if `res` was
    /// kept already; its info is replaced all the same.
    pub fn register(&mut self, res: AnyResKey, timeout: u64) -> (r: Result<(), ResourceError>)
        requires
            old(self).wf(),
        ensures
            final(self).wf(),
            final(self).epoch == old(self).epoch,
            final(self).infos() == old(self).infos().insert(res_code(res), RuntimeInfo { last_use: old(self).epoch, timeout }),
            r == (if old(self).infos().contains_key(res_code(res)) {
                Err::<(), ResourceError>(ResourceError::ResourceExists(AnyHandle { atomic_ref: None, key: res }))
            } else {
                Ok::<(), ResourceError>(())
            }),
    {
        let previous = temp_map_insert(&mut self.res_map, res.code(), RuntimeInfo { last_use: self.epoch, timeout });
        proof {
            assert(self.infos().dom() == old(self).infos().dom().insert(res_code(res)));
        }
        if previous.is_some() {
            Err(ResourceError::ResourceExists(AnyHandle::from(res)))
        } else {
            Ok(())
        }
    }

    /// Moves to the next epoch, forgets every resource that has
    /// reached its timeout epoch, and appends those to `drop_list`, in the
    /// map's own order, each once.
    pub fn tick(&mut self, drop_list: &mut Vec<AnyResKey>)
        requires
            old(self).wf(),
            old(self).epoch < u64::MAX,
            forall|c: (u8, u64)| #[trigger] old(self).infos().contains_key(c)
                ==> old(self).infos()[c].last_use + old(self).infos()[c].timeout <= u64::MAX,
        ensures
            final(self).wf(),
            final(self).epoch == old(self).epoch + 1,
            final(self).infos() == old(self).infos().restrict(
                old(self).infos().dom().filter(|c: (u8, u64)| !TempResources::timed_out(old(self).infos()[c], final(self).epoch))),
            final(drop_list)@.len() >= old(drop_list)@.len(),
            final(drop_list)@.take(old(drop_list)@.len() as int) == old(drop_list)@,
            final(drop_list)@.skip(old(drop_list)@.len() as int).no_duplicates(),
            forall|k: AnyResKey| final(drop_list)@.skip(old(drop_list)@.len() as int).contains(k)
                <==> old(self).infos().contains_key(res_code(k))
                    && TempResources::timed_out(old(self).infos()[res_code(k)], final(self).epoch),
    {
        self.epoch = self.epoch + 1;
        let ghost m0 = self.infos();
        let ghost n0 = drop_list@.len();
        let entries = temp_map_entries(&self.res_map);
        let mut i: usize = 0;
        while i < entries.len()
            invariant
                m0 == old(self).infos(),
                self.epoch == old(self).epoch + 1,
                n0 == old(drop_list)@.len(),
                i <= entries@.len(),
                entries@.len() == m0.dom().len(),
                forall|j: int| 0 <= j < entries@.len() ==> #[trigger] m0.contains_key(entries@[j].0)
                    && m0[entries@[j].0] == entries@[j].1,
                forall|a: int, b: int| 0 <= a < b < entries@.len() ==> #[trigger] entries@[a].0 != #[trigger] entries@[b].0,
                forall|c: (u8, u64)| #[trigger] m0.contains_key(c) ==> exists|j: int| 0 <= j < entries@.len() && #[trigger] entries@[j].0 == c,
                forall|c: (u8, u64)| #[trigger] m0.contains_key(c) ==> c.0 <= 2 && m0[c].last_use + m0[c].timeout <= u64::MAX,
                m0.dom().finite(),
                drop_list@.len() >= n0,
                drop_list@.take(n0 as int) == old(drop_list)@,
                drop_list@.skip(n0 as int).no_duplicates(),
                self.infos() == m0.restrict(m0.dom().filter(|c: (u8, u64)|
                    !((exists|j: int| 0 <= j < i && entries@[j].0 == c) && TempResources::timed_out(m0[c], self.epoch)))),
                forall|k: AnyResKey| drop_list@.skip(n0 as int).contains(k) <==> m0.contains_key(res_code(k))
                    && (exists|j: int| 0 <= j < i && entries@[j].0 == res_code(k))
                    && TempResources::timed_out(m0[res_code(k)], self.epoch),
            decreases entries@.len() - i,
        {
            let (code, info) = entries[i];
            proof {
                assert(m0.contains_key(entries@[i as int].0) && m0[entries@[i as int].0] == entries@[i as int].1);
            }
            if info.timeout_epoch() <= self.epoch {
                let removed = temp_map_remove(&mut self.res_map, code);
                let key = if code.0 == 0 {
                    AnyResKey::Image(ImageKey(code.1))
                } else if code.0 == 1 {
                    AnyResKey::Buffer(BufferKey(code.1))
                } else {
                    AnyResKey::Sampler(SamplerKey(code.1))
                };
                let ghost before = drop_list@;
                drop_list.push(key);
                proof {
                    assert(res_code(key) == code);
                    assert(drop_list@.take(n0 as int) =~= before.take(n0 as int));
                    assert(drop_list@.skip(n0 as int) =~= before.skip(n0 as int).push(key));
                    assert(!before.skip(n0 as int).contains(key)) by {
                        if before.skip(n0 as int).contains(key) {
                            let j = choose|j: int| 0 <= j < i && entries@[j].0 == res_code(key);
                        }
                    }
                    assert forall|k: AnyResKey| drop_list@.skip(n0 as int).contains(k) <==> m0.contains_key(res_code(k))
                        && (exists|j: int| 0 <= j < i + 1 && entries@[j].0 == res_code(k))
                        && TempResources::timed_out(m0[res_code(k)], self.epoch) by {
                        crate::res_states::lemma_res_code_injective(k, key);
                        if drop_list@.skip(n0 as int).contains(k) && k != key {
                            assert(before.skip(n0 as int).contains(k));
                        }
                        if m0.contains_key(res_code(k)) && (exists|j: int| 0 <= j < i + 1 && entries@[j].0 == res_code(k))
                            && TempResources::timed_out(m0[res_code(k)], self.epoch) && k != key {
                            let j = choose|j: int| 0 <= j < i + 1 && entries@[j].0 == res_code(k);
                            assert(j < i);
                            assert(before.skip(n0 as int).contains(k));
                            let q = choose|q: int| 0 <= q < before.skip(n0 as int).len() && before.skip(n0 as int)[q] == k;
                            assert(drop_list@.skip(n0 as int)[q] == k);
                        }
                        if k == key {
                            assert(drop_list@.skip(n0 as int)[drop_list@.skip(n0 as int).len() - 1] == key);
                        }
                    }
                    assert(self.infos() =~= m0.restrict(m0.dom().filter(|c: (u8, u64)|
                        !((exists|j: int| 0 <= j < i + 1 && entries@[j].0 == c) && TempResources::timed_out(m0[c], self.epoch)))));
                }
            } else {
                proof {
                    assert(self.infos() =~= m0.restrict(m0.dom().filter(|c: (u8, u64)|
                        !((exists|j: int| 0 <= j < i + 1 && entries@[j].0 == c) && TempResources::timed_out(m0[c], self.epoch)))));
                    assert forall|k: AnyResKey| drop_list@.skip(n0 as int).contains(k) <==> m0.contains_key(res_code(k))
                        && (exists|j: int| 0 <= j < i + 1 && entries@[j].0 == res_code(k))
                        && TempResources::timed_out(m0[res_code(k)], self.epoch) by {
                        if m0.contains_key(res_code(k)) && (exists|j: int| 0 <= j < i + 1 && entries@[j].0 == res_code(k))
                            && TempResources::timed_out(m0[res_code(k)], self.epoch) {
                            let j = choose|j: int| 0 <= j < i + 1 && entries@[j].0 == res_code(k);
                            assert(j < i);
                        }
                    }
                }
            }
            i = i + 1;
        }
        proof {
            assert(self.infos() =~= m0.restrict(m0.dom().filter(|c: (u8, u64)|
                !TempResources::timed_out(m0[c], self.epoch)))) by {
                assert forall|c: (u8, u64)| m0.contains_key(c) implies
                    (exists|j: int| 0 <= j < i && entries@[j].0 == c) by {
                    let j = choose|j: int| 0 <= j < entries@.len() && #[trigger] entries@[j].0 == c;
                }
            }
            assert forall|k: AnyResKey| drop_list@.skip(n0 as int).contains(k) <==> m0.contains_key(res_code(k))
                && TempResources::timed_out(m0[res_code(k)], self.epoch) by {
                if m0.contains_key(res_code(k)) {
                    let j = choose|j: int| 0 <= j < entries@.len() && #[trigger] entries@[j].0 == res_code(k);
                }
            }
            assert(self.infos().dom().subset_of(m0.dom()));
            vstd::set_lib::lemma_set_subset_finite(m0.dom(), self.infos().dom());
        }
    }
}

} // verus!

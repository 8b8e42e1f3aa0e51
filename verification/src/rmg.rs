//! Top level errors and the device feature check the graph needs.
use vstd::prelude::*;
use crate::error::{RecordError, ResourceError};
use crate::bindless::{IMAGE_USAGE_SAMPLED, IMAGE_USAGE_STORAGE};

verus! {

/// Top level error.
#[derive(Debug)]
pub enum RmgError {
    /// A Vulkan call failed with this result code.
    VkError(i32),
    /// Recording failed.
    RecordingError(RecordError),
    /// A resource operation failed.
    ResourceError(ResourceError),
    /// Device features that the graph needs but the device does not offer,
    /// each written as `<struct>::<feature>`.
    MissingFeatures(Vec<String>),
}

/// The core (Vulkan 1.0) device features the graph checks, as the device
/// reports them (`0` is false).
#[derive(Clone, Copy, Debug)]
pub struct Vk10Features {
    pub shader_int16: u32,
    pub shader_float64: u32,
    pub shader_storage_buffer_array_dynamic_indexing: u32,
    pub shader_storage_image_array_dynamic_indexing: u32,
    pub shader_uniform_buffer_array_dynamic_indexing: u32,
    pub shader_sampled_image_array_dynamic_indexing: u32,
    pub robust_buffer_access: u32,
}

/// The Vulkan 1.2 device features the graph checks.
#[derive(Clone, Copy, Debug)]
pub struct Vk12Features {
    pub shader_int8: u32,
    pub runtime_descriptor_array: u32,
    pub timeline_semaphore: u32,
    pub descriptor_indexing: u32,
    pub descriptor_binding_partially_bound: u32,
    pub descriptor_binding_sampled_image_update_after_bind: u32,
    pub descriptor_binding_storage_image_update_after_bind: u32,
    pub descriptor_binding_storage_buffer_update_after_bind: u32,
    pub descriptor_binding_variable_descriptor_count: u32,
    pub shader_storage_buffer_array_non_uniform_indexing: u32,
    pub shader_storage_image_array_non_uniform_indexing: u32,
    pub shader_sampled_image_array_non_uniform_indexing: u32,
    pub vulkan_memory_model: u32,
}

/// The Vulkan 1.3 device features the graph checks.
#[derive(Clone, Copy, Debug)]
pub struct Vk13Features {
    pub maintenance4: u32,
    pub dynamic_rendering: u32,
    pub synchronization2: u32,
}

/// Every feature the graph needs, in the order it is checked: the flag the
/// device reported, and the feature's name.
pub open spec fn required_features(vk10: Vk10Features, vk12: Vk12Features, vk13: Vk13Features) -> Seq<(u32, Seq<char>)> {
    seq![
        (vk10.shader_int16, "vk10::shader_int16"@),
        (vk10.shader_float64, "vk10::shader_float64"@),
        (vk10.shader_storage_buffer_array_dynamic_indexing, "vk10::shader_storage_buffer_array_dynamic_indexing"@),
        (vk10.shader_storage_image_array_dynamic_indexing, "vk10::shader_storage_image_array_dynamic_indexing"@),
        (vk10.shader_uniform_buffer_array_dynamic_indexing, "vk10::shader_uniform_buffer_array_dynamic_indexing"@),
        (vk10.shader_sampled_image_array_dynamic_indexing, "vk10::shader_sampled_image_array_dynamic_indexing"@),
        (vk10.robust_buffer_access, "vk10::robust_buffer_access"@),
        (vk12.shader_int8, "vk12::shader_int8"@),
        (vk12.runtime_descriptor_array, "vk12::runtime_descriptor_array"@),
        (vk12.timeline_semaphore, "vk12::timeline_semaphore"@),
        (vk12.descriptor_indexing, "vk12::descriptor_indexing"@),
        (vk12.descriptor_binding_partially_bound, "vk12::descriptor_binding_partially_bound"@),
        (vk12.descriptor_binding_sampled_image_update_after_bind, "vk12::descriptor_binding_sampled_image_update_after_bind"@),
        (vk12.descriptor_binding_storage_image_update_after_bind, "vk12::descriptor_binding_storage_image_update_after_bind"@),
        (vk12.descriptor_binding_storage_buffer_update_after_bind, "vk12::descriptor_binding_storage_buffer_update_after_bind"@),
        (vk12.descriptor_binding_variable_descriptor_count, "vk12::descriptor_binding_variable_descriptor_count"@),
        (vk12.shader_storage_buffer_array_non_uniform_indexing, "vk12::shader_storage_buffer_array_non_uniform_indexing"@),
        (vk12.shader_storage_image_array_non_uniform_indexing, "vk12::shader_storage_image_array_non_uniform_indexing"@),
        (vk12.shader_sampled_image_array_non_uniform_indexing, "vk12::shader_sampled_image_array_non_uniform_indexing"@),
        (vk12.vulkan_memory_model, "vk12::vulkan_memory_model"@),
        (vk13.maintenance4, "vk13::maintenance4"@),
        (vk13.dynamic_rendering, "vk13::dynamic_rendering"@),
        (vk13.synchronization2, "vk13::synchronization2"@),
    ]
}

/// The names of the entries whose flag is `0`, in order.
pub open spec fn missing_names(table: Seq<(u32, Seq<char>)>) -> Seq<Seq<char>>
    decreases table.len(),
{
    if table.len() == 0 {
        seq![]
    } else {
        let rest = missing_names(table.drop_last());
        if table.last().0 == 0 {
            rest.push(table.last().1)
        } else {
            rest
        }
    }
}

/// Nothing is missing exactly when every flag is set.
pub proof fn lemma_missing_empty(table: Seq<(u32, Seq<char>)>)
    ensures
        missing_names(table).len() == 0 <==> (forall|i: int| 0 <= i < table.len() ==> #[trigger] table[i].0 != 0),
    decreases table.len(),
{
    if table.len() > 0 {
        lemma_missing_empty(table.drop_last());
        if missing_names(table).len() == 0 {
            assert forall|i: int| 0 <= i < table.len() implies #[trigger] table[i].0 != 0 by {
                if i < table.len() - 1 {
                    assert(table[i] == table.drop_last()[i]);
                }
            }
        } else if forall|i: int| 0 <= i < table.len() ==> #[trigger] table[i].0 != 0 {
            assert forall|i: int| 0 <= i < table.drop_last().len() implies #[trigger] table.drop_last()[i].0 != 0 by {
                assert(table[i] == table.drop_last()[i]);
            }
            assert(table[table.len() - 1].0 != 0);
        }
    }
}

/// The table of `required_features` as executable values.
fn feature_table(vk10: &Vk10Features, vk12: &Vk12Features, vk13: &Vk13Features) -> (t: Vec<(u32, &'static str)>)
    ensures
        t@.len() == required_features(*vk10, *vk12, *vk13).len(),
        forall|i: int| 0 <= i < t@.len() ==> (#[trigger] t@[i]).0 == required_features(*vk10, *vk12, *vk13)[i].0
            && t@[i].1@ == required_features(*vk10, *vk12, *vk13)[i].1,
{
    let t = vec![
        (vk10.shader_int16, "vk10::shader_int16"),
        (vk10.shader_float64, "vk10::shader_float64"),
        (vk10.shader_storage_buffer_array_dynamic_indexing, "vk10::shader_storage_buffer_array_dynamic_indexing"),
        (vk10.shader_storage_image_array_dynamic_indexing, "vk10::shader_storage_image_array_dynamic_indexing"),
        (vk10.shader_uniform_buffer_array_dynamic_indexing, "vk10::shader_uniform_buffer_array_dynamic_indexing"),
        (vk10.shader_sampled_image_array_dynamic_indexing, "vk10::shader_sampled_image_array_dynamic_indexing"),
        (vk10.robust_buffer_access, "vk10::robust_buffer_access"),
        (vk12.shader_int8, "vk12::shader_int8"),
        (vk12.runtime_descriptor_array, "vk12::runtime_descriptor_array"),
        (vk12.timeline_semaphore, "vk12::timeline_semaphore"),
        (vk12.descriptor_indexing, "vk12::descriptor_indexing"),
        (vk12.descriptor_binding_partially_bound, "vk12::descriptor_binding_partially_bound"),
        (vk12.descriptor_binding_sampled_image_update_after_bind, "vk12::descriptor_binding_sampled_image_update_after_bind"),
        (vk12.descriptor_binding_storage_image_update_after_bind, "vk12::descriptor_binding_storage_image_update_after_bind"),
        (vk12.descriptor_binding_storage_buffer_update_after_bind, "vk12::descriptor_binding_storage_buffer_update_after_bind"),
        (vk12.descriptor_binding_variable_descriptor_count, "vk12::descriptor_binding_variable_descriptor_count"),
        (vk12.shader_storage_buffer_array_non_uniform_indexing, "vk12::shader_storage_buffer_array_non_uniform_indexing"),
        (vk12.shader_storage_image_array_non_uniform_indexing, "vk12::shader_storage_image_array_non_uniform_indexing"),
        (vk12.shader_sampled_image_array_non_uniform_indexing, "vk12::shader_sampled_image_array_non_uniform_indexing"),
        (vk12.vulkan_memory_model, "vk12::vulkan_memory_model"),
        (vk13.maintenance4, "vk13::maintenance4"),
        (vk13.dynamic_rendering, "vk13::dynamic_rendering"),
        (vk13.synchronization2, "vk13::synchronization2"),
    ];
    t
}

/// Checks that the device offers every feature the graph needs. Fails with
/// `MissingFeatures`, listing the name of each missing one in the order they
/// are checked, exactly when at least one is missing.
pub fn check_features(vk10: &Vk10Features, vk12: &Vk12Features, vk13: &Vk13Features) -> (r: Result<(), RmgError>)
    ensures
        r is Ok <==> (forall|i: int| 0 <= i < required_features(*vk10, *vk12, *vk13).len()
            ==> #[trigger] required_features(*vk10, *vk12, *vk13)[i].0 != 0),
        match r {
            Ok(()) => true,
            Err(RmgError::MissingFeatures(m)) => m@.map_values(|s: String| s@)
                == missing_names(required_features(*vk10, *vk12, *vk13)),
            Err(_) => false,
        },
{
    let table = feature_table(vk10, vk12, vk13);
    let ghost req = required_features(*vk10, *vk12, *vk13);
    let mut missing: Vec<String> = Vec::new();
    let mut i: usize = 0;
    while i < table.len()
        invariant
            0 <= i <= table@.len(),
            table@.len() == req.len(),
            forall|k: int| 0 <= k < table@.len() ==> (#[trigger] table@[k]).0 == req[k].0 && table@[k].1@ == req[k].1,
            missing@.map_values(|s: String| s@) == missing_names(req.take(i as int)),
        decreases table@.len() - i,
    {
        let (flag, name) = table[i];
        proof {
            assert(req.take(i + 1).drop_last() =~= req.take(i as int));
            assert(req.take(i + 1).last() == req[i as int]);
        }
        if flag == 0 {
            let s = name.to_string();
            missing.push(s);
            proof {
                assert(missing@.map_values(|s: String| s@) =~= missing_names(req.take(i as int)).push(req[i as int].1));
            }
        }
        i = i + 1;
    }
    proof {
        assert(req.take(table@.len() as int) =~= req);
        lemma_missing_empty(req);
    }
    if missing.len() > 0 {
        Err(RmgError::MissingFeatures(missing))
    } else {
        Ok(())
    }
}


/// Checks the usage flags of an image about to be created: the graph only
/// handles images that can be sampled or used as storage images, so an image
/// with neither usage bit is refused.
pub fn check_image_usage(usage: u32) -> (r: Result<(), RmgError>)
    ensures
        (usage & IMAGE_USAGE_SAMPLED == IMAGE_USAGE_SAMPLED || usage & IMAGE_USAGE_STORAGE == IMAGE_USAGE_STORAGE)
            <==> r is Ok,
        r is Err ==> r matches Err(RmgError::ResourceError(ResourceError::ImageNoUsageFlags)),
{
    if usage & IMAGE_USAGE_SAMPLED != IMAGE_USAGE_SAMPLED && usage & IMAGE_USAGE_STORAGE != IMAGE_USAGE_STORAGE {
        return Err(RmgError::ResourceError(ResourceError::ImageNoUsageFlags));
    }
    Ok(())
}


/// An entry whose flag is `0` has its name among the missing names.
proof fn lemma_missing_contains(table: Seq<(u32, Seq<char>)>, i: int)
    requires
        0 <= i < table.len(),
        table[i].0 == 0,
    ensures
        missing_names(table).contains(table[i].1),
    decreases table.len(),
{
    if i < table.len() - 1 {
        lemma_missing_contains(table.drop_last(), i);
        assert(table.drop_last()[i] == table[i]);
        let rest = missing_names(table.drop_last());
        let j = choose|j: int| 0 <= j < rest.len() && rest[j] == table[i].1;
        if table.last().0 == 0 {
            assert(rest.push(table.last().1)[j] == table[i].1);
        }
    } else {
        let rest = missing_names(table.drop_last());
        assert(rest.push(table.last().1)[rest.len() as int] == table[i].1);
    }
}

/// The graph needs each of these 23 device features: the check passes only
/// when every one of them is nonzero, and each one that is `0` is reported
/// under its name.
pub proof fn lemma_each_feature_required(vk10: Vk10Features, vk12: Vk12Features, vk13: Vk13Features)
    ensures
        (forall|i: int| 0 <= i < required_features(vk10, vk12, vk13).len()
            ==> #[trigger] required_features(vk10, vk12, vk13)[i].0 != 0) <==> (
vk10.shader_int16 != 0
            && vk10.shader_float64 != 0
            && vk10.shader_storage_buffer_array_dynamic_indexing != 0
            && vk10.shader_storage_image_array_dynamic_indexing != 0
            && vk10.shader_uniform_buffer_array_dynamic_indexing != 0
            && vk10.shader_sampled_image_array_dynamic_indexing != 0
            && vk10.robust_buffer_access != 0
            && vk12.shader_int8 != 0
            && vk12.runtime_descriptor_array != 0
            && vk12.timeline_semaphore != 0
            && vk12.descriptor_indexing != 0
            && vk12.descriptor_binding_partially_bound != 0
            && vk12.descriptor_binding_sampled_image_update_after_bind != 0
            && vk12.descriptor_binding_storage_image_update_after_bind != 0
            && vk12.descriptor_binding_storage_buffer_update_after_bind != 0
            && vk12.descriptor_binding_variable_descriptor_count != 0
            && vk12.shader_storage_buffer_array_non_uniform_indexing != 0
            && vk12.shader_storage_image_array_non_uniform_indexing != 0
            && vk12.shader_sampled_image_array_non_uniform_indexing != 0
            && vk12.vulkan_memory_model != 0
            && vk13.maintenance4 != 0
            && vk13.dynamic_rendering != 0
            && vk13.synchronization2 != 0),
        vk10.shader_int16 == 0 ==> missing_names(required_features(vk10, vk12, vk13)).contains("vk10::shader_int16"@),
        vk10.shader_float64 == 0 ==> missing_names(required_features(vk10, vk12, vk13)).contains("vk10::shader_float64"@),
        vk10.shader_storage_buffer_array_dynamic_indexing == 0 ==> missing_names(required_features(vk10, vk12, vk13)).contains("vk10::shader_storage_buffer_array_dynamic_indexing"@),
        vk10.shader_storage_image_array_dynamic_indexing == 0 ==> missing_names(required_features(vk10, vk12, vk13)).contains("vk10::shader_storage_image_array_dynamic_indexing"@),
        vk10.shader_uniform_buffer_array_dynamic_indexing == 0 ==> missing_names(required_features(vk10, vk12, vk13)).contains("vk10::shader_uniform_buffer_array_dynamic_indexing"@),
        vk10.shader_sampled_image_array_dynamic_indexing == 0 ==> missing_names(required_features(vk10, vk12, vk13)).contains("vk10::shader_sampled_image_array_dynamic_indexing"@),
        vk10.robust_buffer_access == 0 ==> missing_names(required_features(vk10, vk12, vk13)).contains("vk10::robust_buffer_access"@),
        vk12.shader_int8 == 0 ==> missing_names(required_features(vk10, vk12, vk13)).contains("vk12::shader_int8"@),
        vk12.runtime_descriptor_array == 0 ==> missing_names(required_features(vk10, vk12, vk13)).contains("vk12::runtime_descriptor_array"@),
        vk12.timeline_semaphore == 0 ==> missing_names(required_features(vk10, vk12, vk13)).contains("vk12::timeline_semaphore"@),
        vk12.descriptor_indexing == 0 ==> missing_names(required_features(vk10, vk12, vk13)).contains("vk12::descriptor_indexing"@),
        vk12.descriptor_binding_partially_bound == 0 ==> missing_names(required_features(vk10, vk12, vk13)).contains("vk12::descriptor_binding_partially_bound"@),
        vk12.descriptor_binding_sampled_image_update_after_bind == 0 ==> missing_names(required_features(vk10, vk12, vk13)).contains("vk12::descriptor_binding_sampled_image_update_after_bind"@),
        vk12.descriptor_binding_storage_image_update_after_bind == 0 ==> missing_names(required_features(vk10, vk12, vk13)).contains("vk12::descriptor_binding_storage_image_update_after_bind"@),
        vk12.descriptor_binding_storage_buffer_update_after_bind == 0 ==> missing_names(required_features(vk10, vk12, vk13)).contains("vk12::descriptor_binding_storage_buffer_update_after_bind"@),
        vk12.descriptor_binding_variable_descriptor_count == 0 ==> missing_names(required_features(vk10, vk12, vk13)).contains("vk12::descriptor_binding_variable_descriptor_count"@),
        vk12.shader_storage_buffer_array_non_uniform_indexing == 0 ==> missing_names(required_features(vk10, vk12, vk13)).contains("vk12::shader_storage_buffer_array_non_uniform_indexing"@),
        vk12.shader_storage_image_array_non_uniform_indexing == 0 ==> missing_names(required_features(vk10, vk12, vk13)).contains("vk12::shader_storage_image_array_non_uniform_indexing"@),
        vk12.shader_sampled_image_array_non_uniform_indexing == 0 ==> missing_names(required_features(vk10, vk12, vk13)).contains("vk12::shader_sampled_image_array_non_uniform_indexing"@),
        vk12.vulkan_memory_model == 0 ==> missing_names(required_features(vk10, vk12, vk13)).contains("vk12::vulkan_memory_model"@),
        vk13.maintenance4 == 0 ==> missing_names(required_features(vk10, vk12, vk13)).contains("vk13::maintenance4"@),
        vk13.dynamic_rendering == 0 ==> missing_names(required_features(vk10, vk12, vk13)).contains("vk13::dynamic_rendering"@),
        vk13.synchronization2 == 0 ==> missing_names(required_features(vk10, vk12, vk13)).contains("vk13::synchronization2"@),
{
    let t = required_features(vk10, vk12, vk13);
    assert(t[0].0 == vk10.shader_int16 && t[0].1 == "vk10::shader_int16"@);
    if vk10.shader_int16 == 0 { lemma_missing_contains(t, 0); }
    assert(t[1].0 == vk10.shader_float64 && t[1].1 == "vk10::shader_float64"@);
    if vk10.shader_float64 == 0 { lemma_missing_contains(t, 1); }
    assert(t[2].0 == vk10.shader_storage_buffer_array_dynamic_indexing && t[2].1 == "vk10::shader_storage_buffer_array_dynamic_indexing"@);
    if vk10.shader_storage_buffer_array_dynamic_indexing == 0 { lemma_missing_contains(t, 2); }
    assert(t[3].0 == vk10.shader_storage_image_array_dynamic_indexing && t[3].1 == "vk10::shader_storage_image_array_dynamic_indexing"@);
    if vk10.shader_storage_image_array_dynamic_indexing == 0 { lemma_missing_contains(t, 3); }
    assert(t[4].0 == vk10.shader_uniform_buffer_array_dynamic_indexing && t[4].1 == "vk10::shader_uniform_buffer_array_dynamic_indexing"@);
    if vk10.shader_uniform_buffer_array_dynamic_indexing == 0 { lemma_missing_contains(t, 4); }
    assert(t[5].0 == vk10.shader_sampled_image_array_dynamic_indexing && t[5].1 == "vk10::shader_sampled_image_array_dynamic_indexing"@);
    if vk10.shader_sampled_image_array_dynamic_indexing == 0 { lemma_missing_contains(t, 5); }
    assert(t[6].0 == vk10.robust_buffer_access && t[6].1 == "vk10::robust_buffer_access"@);
    if vk10.robust_buffer_access == 0 { lemma_missing_contains(t, 6); }
    assert(t[7].0 == vk12.shader_int8 && t[7].1 == "vk12::shader_int8"@);
    if vk12.shader_int8 == 0 { lemma_missing_contains(t, 7); }
    assert(t[8].0 == vk12.runtime_descriptor_array && t[8].1 == "vk12::runtime_descriptor_array"@);
    if vk12.runtime_descriptor_array == 0 { lemma_missing_contains(t, 8); }
    assert(t[9].0 == vk12.timeline_semaphore && t[9].1 == "vk12::timeline_semaphore"@);
    if vk12.timeline_semaphore == 0 { lemma_missing_contains(t, 9); }
    assert(t[10].0 == vk12.descriptor_indexing && t[10].1 == "vk12::descriptor_indexing"@);
    if vk12.descriptor_indexing == 0 { lemma_missing_contains(t, 10); }
    assert(t[11].0 == vk12.descriptor_binding_partially_bound && t[11].1 == "vk12::descriptor_binding_partially_bound"@);
    if vk12.descriptor_binding_partially_bound == 0 { lemma_missing_contains(t, 11); }
    assert(t[12].0 == vk12.descriptor_binding_sampled_image_update_after_bind && t[12].1 == "vk12::descriptor_binding_sampled_image_update_after_bind"@);
    if vk12.descriptor_binding_sampled_image_update_after_bind == 0 { lemma_missing_contains(t, 12); }
    assert(t[13].0 == vk12.descriptor_binding_storage_image_update_after_bind && t[13].1 == "vk12::descriptor_binding_storage_image_update_after_bind"@);
    if vk12.descriptor_binding_storage_image_update_after_bind == 0 { lemma_missing_contains(t, 13); }
    assert(t[14].0 == vk12.descriptor_binding_storage_buffer_update_after_bind && t[14].1 == "vk12::descriptor_binding_storage_buffer_update_after_bind"@);
    if vk12.descriptor_binding_storage_buffer_update_after_bind == 0 { lemma_missing_contains(t, 14); }
    assert(t[15].0 == vk12.descriptor_binding_variable_descriptor_count && t[15].1 == "vk12::descriptor_binding_variable_descriptor_count"@);
    if vk12.descriptor_binding_variable_descriptor_count == 0 { lemma_missing_contains(t, 15); }
    assert(t[16].0 == vk12.shader_storage_buffer_array_non_uniform_indexing && t[16].1 == "vk12::shader_storage_buffer_array_non_uniform_indexing"@);
    if vk12.shader_storage_buffer_array_non_uniform_indexing == 0 { lemma_missing_contains(t, 16); }
    assert(t[17].0 == vk12.shader_storage_image_array_non_uniform_indexing && t[17].1 == "vk12::shader_storage_image_array_non_uniform_indexing"@);
    if vk12.shader_storage_image_array_non_uniform_indexing == 0 { lemma_missing_contains(t, 17); }
    assert(t[18].0 == vk12.shader_sampled_image_array_non_uniform_indexing && t[18].1 == "vk12::shader_sampled_image_array_non_uniform_indexing"@);
    if vk12.shader_sampled_image_array_non_uniform_indexing == 0 { lemma_missing_contains(t, 18); }
    assert(t[19].0 == vk12.vulkan_memory_model && t[19].1 == "vk12::vulkan_memory_model"@);
    if vk12.vulkan_memory_model == 0 { lemma_missing_contains(t, 19); }
    assert(t[20].0 == vk13.maintenance4 && t[20].1 == "vk13::maintenance4"@);
    if vk13.maintenance4 == 0 { lemma_missing_contains(t, 20); }
    assert(t[21].0 == vk13.dynamic_rendering && t[21].1 == "vk13::dynamic_rendering"@);
    if vk13.dynamic_rendering == 0 { lemma_missing_contains(t, 21); }
    assert(t[22].0 == vk13.synchronization2 && t[22].1 == "vk13::synchronization2"@);
    if vk13.synchronization2 == 0 { lemma_missing_contains(t, 22); }
}

} // verus!

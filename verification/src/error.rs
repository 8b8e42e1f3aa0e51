//! Errors of resource management and of recording.
use vstd::prelude::*;
use crate::handle::ResourceHandle;
use crate::res_states::AnyHandle;

verus! {

/// Errors of the resource management.
#[derive(Clone, Copy, Debug, PartialEq, Eq, Structural)]
pub enum ResourceError {
    /// A Vulkan call failed with this result code.
    VkError(i32),
    /// Resource already existed.
    ResourceExists(AnyHandle),
    /// The resource was already bound to a descriptor.
    AlreadyBound(AnyHandle, ResourceHandle),
    /// Image has both, SAMPLED and STORAGE flags set.
    ImageIntersectingUsageFlags,
    /// Image has none of SAMPLED and STORAGE flags set.
    ImageNoUsageFlags,
    /// Binding a resource failed.
    BindingFailed,
    /// Getting a new swapchain image failed.
    SwapchainError,
    /// There is no track for the queue family.
    NoTrackForQueueFamily(u32),
    /// The resource was already requested by this registry.
    ResourceAlreadyRequested,
}

/// Errors while recording and scheduling tasks.
#[derive(Clone, Copy, Debug, PartialEq, Eq, Structural)]
pub enum RecordError {
    /// No fitting track for the queue flags was found.
    NoFittingTrack(u32),
    /// No such resource found.
    NoSuchResource(AnyHandle),
    /// No track for the queue family index.
    NoSuchTrack(u32),
    /// The resource was still owned by the family while trying to acquire.
    AcquireRecord(AnyHandle, u32),
    /// The resource was already released from one family to another while trying to release.
    ReleaseRecord(AnyHandle, u32, u32),
    /// The resource was not owned while trying to release.
    ReleaseUninitialised(AnyHandle),
    /// The resource was already released.
    AlreadyReleased(AnyHandle),
    /// Found an unscheduled dependee scheduled for release.
    UnscheduledDependee,
    /// A Vulkan call failed while recording, with this result code.
    VkError(i32),
    /// Record time resource error.
    ResError(ResourceError),
    /// Found a scheduling deadlock, there might be a dependency cycle.
    DeadLock,
}

} // verus!

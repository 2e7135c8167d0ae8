//! Lifetime and synchronization management for device-side resources.
//!
//! Batches of buffers, images and views are created through a builder and an
//! object manager, realized with all-or-nothing semantics, shared as one
//! immutable object set, and destroyed in the reverse of their creation
//! order. Every object set is bound to a synchronization group backed by one
//! timeline semaphore, which serializes device operations against the set.
use vstd::prelude::*;

pub mod allocator;
pub mod device;
pub mod manager;
pub mod resource_object_set;
pub mod splitter;
pub mod synchronization_group;

pub use allocator::Allocation;
pub use allocator::AllocationError;
pub use allocator::Allocator;
pub use allocator::MemoryRequirements;
pub use device::DeviceContext;
pub use device::DeviceError;
pub use device::TeardownOp;
pub use manager::ObjectManager;
pub use manager::ObjectManagerImpl;
pub use resource_object_set::BufferDescription;
pub use resource_object_set::BufferRange;
pub use resource_object_set::BufferViewDescription;
pub use resource_object_set::ImageDescription;
pub use resource_object_set::ImageViewDescription;
pub use resource_object_set::ObjectCreateError;
pub use resource_object_set::ObjectId;
pub use resource_object_set::ResourceObjectSet;
pub use resource_object_set::ResourceObjectSetBuilder;
pub use splitter::Splitter;
pub use synchronization_group::SynchronizationGroup;

verus! {

/// The sentinel value that is never a valid device handle.
pub const NULL_HANDLE: u64 = 0;

/// The largest memory region the device hands out in one allocation.
pub const MAX_ALLOCATION_SIZE: u64 = 0x4000_0000_0000;

/// The largest width or height the device accepts for an image.
pub const MAX_IMAGE_DIMENSION: u32 = 16384;

/// Buffer usage flag: the buffer is a transfer source.
pub const BUFFER_USAGE_TRANSFER_SRC: u32 = 1;

/// Buffer usage flag: the buffer backs a uniform texel view.
pub const BUFFER_USAGE_UNIFORM_TEXEL_BUFFER: u32 = 4;

/// Image usage flag: the image is a transfer source.
pub const IMAGE_USAGE_TRANSFER_SRC: u32 = 1;

/// Image usage flag: the image is sampled by shaders.
pub const IMAGE_USAGE_SAMPLED: u32 = 4;

/// Format code of one 8-bit normalized channel.
pub const FORMAT_R8_UNORM: u32 = 9;

/// Format code of one 16-bit normalized channel.
pub const FORMAT_R16_UNORM: u32 = 76;

/// A thread-unshared source of fresh identifiers for object managers.
///
/// Each manager receives its identity from a counter injected at
/// construction, so equality of managers is equality of generated ids.
pub struct IdCounter {
    next: u64,
}

impl IdCounter {
    /// How many identifiers this counter has handed out so far.
    pub closed spec fn spent(self) -> u64 {
        self.next
    }

    pub fn new() -> (r: IdCounter)
        ensures
            r.spent() == 0,
    {
        IdCounter { next: 0 }
    }

    /// Hands out an identifier no earlier call of this counter returned.
    pub fn fresh_id(&mut self) -> (r: u64)
        requires
            old(self).spent() < u64::MAX,
        ensures
            r == old(self).spent(),
            final(self).spent() == old(self).spent() + 1,
    {
        let r = self.next;
        self.next = self.next + 1;
        r
    }
}

} // verus!

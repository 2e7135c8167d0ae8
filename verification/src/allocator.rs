//! The allocator that hands out device memory regions for objects.
//!
//! It wraps the device's memory facility and keeps the set of regions it has
//! handed out and not yet freed, so that a batch abort or a set destruction
//! can be shown to leave no allocation behind. Failure is reported to the
//! caller and never retried here; retry policy belongs to whoever drives the
//! batch.
use vstd::prelude::*;

use crate::MAX_ALLOCATION_SIZE;
use crate::device::DeviceContext;
use crate::device::DeviceError;
use crate::device::TeardownOp;
use crate::device::distinct_seq;
use crate::device::lemma_push_to_set;
use crate::device::lemma_remove_to_set;

verus! {

/// What an object asks the allocator for.
#[derive(Clone, Copy, PartialEq, Eq, Structural, Debug)]
pub struct MemoryRequirements {
    /// Bytes the region must hold.
    pub size: u64,
    /// Required alignment of the region's start.
    pub alignment: u64,
    /// Whether the region must be visible to the host, rather than
    /// device-local.
    pub host_visible: bool,
}

/// An opaque region of device memory, owned by at most one object.
#[derive(Clone, Copy, PartialEq, Eq, Structural, Debug)]
pub struct Allocation {
    /// The device handle of the region.
    pub memory: u64,
    /// The size the region was requested with.
    pub size: u64,
}

/// Why an allocation request failed.
#[derive(Clone, Copy, PartialEq, Eq, Structural, Debug)]
pub enum AllocationError {
    /// The request named no bytes or is otherwise malformed.
    InvalidRequest,
    /// The device cannot provide a region of the requested size.
    OutOfDeviceMemory,
}

/// Bookkeeping of the memory regions currently handed out.
pub struct Allocator {
    outstanding: Vec<u64>,
}

impl Allocator {
    /// The handles of the regions handed out and not yet freed.
    pub closed spec fn outstanding_set(self) -> Set<u64> {
        self.outstanding@.to_set()
    }

    /// No region is listed twice.
    pub closed spec fn wf(self) -> bool {
        distinct_seq(self.outstanding@)
    }

    /// Every outstanding region was handed out by a device whose counter
    /// has reached `used`.
    pub closed spec fn bounded_by(self, used: u64) -> bool {
        forall|i: int| 0 <= i < self.outstanding@.len() ==> #[trigger] self.outstanding@[i] < used
    }

    /// Every outstanding region's handle lies below the device counter it
    /// is bounded by.
    pub proof fn lemma_outstanding_bounded(self, used: u64)
        requires
            self.bounded_by(used),
        ensures
            forall|v: u64| self.outstanding_set().contains(v) ==> v < used,
    {
        assert forall|v: u64| self.outstanding_set().contains(v) implies v < used by {
            let i = choose|i: int|
                0 <= i < self.outstanding@.len() && self.outstanding@[i] == v;
            assert(self.outstanding@[i] < used);
        }
    }

    /// A bound on the device counter stays a bound as the counter grows.
    pub proof fn lemma_bounded_monotone(self, a: u64, b: u64)
        requires
            self.bounded_by(a),
            a <= b,
        ensures
            self.bounded_by(b),
    {
    }

    pub fn new() -> (r: Allocator)
        ensures
            r.wf(),
            r.outstanding_set() == Set::<u64>::empty(),
            forall|u: u64| r.bounded_by(u),
    {
        let r = Allocator { outstanding: Vec::new() };
        proof {
            assert(r.outstanding@.to_set() =~= Set::<u64>::empty());
        }
        r
    }

    /// Allocates one region from the device. An empty request is invalid;
    /// one beyond the device's largest allocation is out of memory.
    pub fn allocate(&mut self, device: &mut DeviceContext, requirements: MemoryRequirements) -> (r:
        Result<Allocation, AllocationError>)
        requires
            old(self).wf(),
            old(device).wf(),
            old(self).bounded_by(old(device).used()),
            old(device).used() < u64::MAX,
        ensures
            final(self).wf(),
            final(device).wf(),
            final(self).bounded_by(final(device).used()),
            old(device).used() <= final(device).used(),
            final(device).log() == old(device).log(),
            r is Ok <==> 1 <= requirements.size <= MAX_ALLOCATION_SIZE,
            r is Err ==> *final(self) == *old(self) && *final(device) == *old(device),
            requirements.size == 0 ==> r == Result::<Allocation, AllocationError>::Err(
                AllocationError::InvalidRequest,
            ),
            requirements.size > MAX_ALLOCATION_SIZE ==> r == Result::<
                Allocation,
                AllocationError,
            >::Err(AllocationError::OutOfDeviceMemory),
            r matches Ok(a) ==> {
                &&& a.memory == old(device).used()
                &&& a.size == requirements.size
                &&& 1 <= a.memory
                &&& !old(device).live_handles().contains(a.memory)
                &&& !old(self).outstanding_set().contains(a.memory)
                &&& final(device).live_handles() == old(device).live_handles().insert(a.memory)
                &&& final(device).used() == old(device).used() + 1
                &&& final(self).outstanding_set() == old(self).outstanding_set().insert(a.memory)
            },
    {
        let result = device.allocate_memory(requirements.size);
        match result {
            Ok(memory) => {
                proof {
                    if old(self).outstanding_set().contains(memory) {
                        let i = choose|i: int|
                            0 <= i < old(self).outstanding@.len() && old(self).outstanding@[i]
                                == memory;
                        assert(old(self).outstanding@[i] < memory);
                    }
                    lemma_push_to_set(self.outstanding@, memory);
                }
                self.outstanding.push(memory);
                proof {
                    let pushed = self.outstanding@;
                    let before = old(self).outstanding@;
                    assert forall|a: int, b: int| 0 <= a < b < pushed.len() implies pushed[a]
                        != pushed[b] by {
                        if b == pushed.len() - 1 {
                            assert(pushed[a] == before[a]);
                            assert(before[a] < memory);
                        } else {
                            assert(pushed[a] == before[a]);
                            assert(pushed[b] == before[b]);
                        }
                    }
                    assert forall|i: int| 0 <= i < pushed.len() implies #[trigger] pushed[i]
                        < device.used() by {
                        if i < before.len() {
                            assert(pushed[i] == before[i]);
                        }
                    }
                }
                Ok(Allocation { memory, size: requirements.size })
            },
            Err(DeviceError::InvalidParameters) => Err(AllocationError::InvalidRequest),
            Err(DeviceError::OutOfDeviceMemory) => Err(AllocationError::OutOfDeviceMemory),
        }
    }

    /// Returns one region to the device. The region must be one this
    /// allocator handed out and must still be alive.
    pub fn free(&mut self, device: &mut DeviceContext, allocation: Allocation)
        requires
            old(self).wf(),
            old(device).wf(),
            old(self).bounded_by(old(device).used()),
            old(self).outstanding_set().contains(allocation.memory),
            old(device).live_handles().contains(allocation.memory),
        ensures
            final(self).wf(),
            final(device).wf(),
            final(self).bounded_by(final(device).used()),
            final(device).used() == old(device).used(),
            final(self).outstanding_set() == old(self).outstanding_set().remove(allocation.memory),
            final(device).live_handles() == old(device).live_handles().remove(allocation.memory),
            final(device).log() == old(device).log().push(TeardownOp::FreeMemory(allocation.memory)),
    {
        let ghost before = self.outstanding@;
        let mut i: usize = 0;
        while i < self.outstanding.len() && self.outstanding[i] != allocation.memory
            invariant
                before == self.outstanding@,
                *self == *old(self),
                old(self).outstanding_set().contains(allocation.memory),
                0 <= i <= before.len(),
                forall|k: int| 0 <= k < i ==> before[k] != allocation.memory,
            decreases before.len() - i,
        {
            i = i + 1;
        }
        proof {
            if i >= before.len() {
                let k = choose|k: int|
                    0 <= k < before.len() && before[k] == allocation.memory;
                assert(before[k] != allocation.memory);
            }
            assert(before[i as int] == allocation.memory);
            lemma_remove_to_set(before, i as int);
        }
        self.outstanding.remove(i);
        proof {
            let after = self.outstanding@;
            before.remove_ensures(i as int);
            assert forall|k: int| 0 <= k < after.len() implies #[trigger] after[k] < old(
                device,
            ).used() by {
                if k < i {
                    assert(after[k] == before[k]);
                } else {
                    assert(after[k] == before[k + 1]);
                }
            }
        }
        device.free_memory(allocation.memory);
    }
}

} // verus!

//! Model of the device that owns all object and memory handles.
//!
//! The context hands out fresh nonzero handles from a monotonic counter,
//! keeps the set of handles that are currently alive, and records every
//! destruction in a teardown log. The log is what lets callers state, and
//! tests observe, the exact order in which objects are torn down; creation
//! is captured by the growth of the live set instead. A destroyed handle is
//! never handed out again, so liveness tracking is also a use-after-free and
//! double-free check.
use vstd::prelude::*;

use crate::MAX_ALLOCATION_SIZE;
use crate::MAX_IMAGE_DIMENSION;

verus! {

/// One recorded destruction step of the device.
#[derive(Clone, Copy, PartialEq, Eq, Structural, Debug)]
pub enum TeardownOp {
    DestroySemaphore(u64),
    DestroyBuffer(u64),
    DestroyBufferView(u64),
    DestroyImage(u64),
    DestroyImageView(u64),
    FreeMemory(u64),
}

/// Why the device refused a creation or allocation request.
#[derive(Clone, Copy, PartialEq, Eq, Structural, Debug)]
pub enum DeviceError {
    /// The description given for the object is not one the device accepts.
    InvalidParameters,
    /// The requested memory region exceeds what the device can allocate.
    OutOfDeviceMemory,
}

/// No two distinct positions of the sequence hold the same handle.
pub open spec fn distinct_seq(s: Seq<u64>) -> bool {
    forall|i: int, j: int| 0 <= i < j < s.len() ==> s[i] != s[j]
}

/// Pushing a handle adds exactly that handle to the sequence's set.
pub proof fn lemma_push_to_set(s: Seq<u64>, h: u64)
    ensures
        s.push(h).to_set() == s.to_set().insert(h),
{
    let pushed = s.push(h);
    assert forall|x: u64| pushed.to_set().contains(x) implies s.to_set().insert(h).contains(x) by {
        let i = choose|i: int| 0 <= i < pushed.len() && pushed[i] == x;
        if i < s.len() {
            assert(s[i] == x);
        }
    }
    assert forall|x: u64| s.to_set().insert(h).contains(x) implies pushed.to_set().contains(x) by {
        if x == h {
            assert(pushed[pushed.len() - 1] == h);
        } else {
            let i = choose|i: int| 0 <= i < s.len() && s[i] == x;
            assert(pushed[i] == x);
        }
    }
    assert(pushed.to_set() =~= s.to_set().insert(h));
}

/// Removing the position of a handle that occurs only once removes exactly
/// that handle from the sequence's set, and keeps the rest distinct.
pub proof fn lemma_remove_to_set(s: Seq<u64>, i: int)
    requires
        0 <= i < s.len(),
        distinct_seq(s),
    ensures
        s.remove(i).to_set() == s.to_set().remove(s[i]),
        distinct_seq(s.remove(i)),
{
    let after = s.remove(i);
    s.remove_ensures(i);
    let h = s[i];
    assert forall|x: u64| after.to_set().contains(x) implies s.to_set().remove(h).contains(x) by {
        let j = choose|j: int| 0 <= j < after.len() && after[j] == x;
        if j < i {
            assert(s[j] == x);
        } else {
            assert(s[j + 1] == x);
        }
    }
    assert forall|x: u64| s.to_set().remove(h).contains(x) implies after.to_set().contains(x) by {
        let j = choose|j: int| 0 <= j < s.len() && s[j] == x;
        if j < i {
            assert(after[j] == x);
        } else {
            assert(j != i);
            assert(after[j - 1] == x);
        }
    }
    assert(after.to_set() =~= s.to_set().remove(h));
    assert forall|a: int, b: int| 0 <= a < b < after.len() implies after[a] != after[b] by {
        if b < i {
        } else if a < i {
            assert(after[b] == s[b + 1]);
        } else {
            assert(after[a] == s[a + 1]);
            assert(after[b] == s[b + 1]);
        }
    }
}

/// The device-side state: a fresh-handle counter, the live handles, and the
/// teardown log.
pub struct DeviceContext {
    next_handle: u64,
    live_list: Vec<u64>,
    teardown: Vec<TeardownOp>,
}

impl DeviceContext {
    /// The first handle value this device has not handed out yet.
    pub closed spec fn used(self) -> u64 {
        self.next_handle
    }

    /// The handles that have been created and not yet destroyed.
    pub closed spec fn live_handles(self) -> Set<u64> {
        self.live_list@.to_set()
    }

    /// Every destruction performed so far, oldest first.
    pub closed spec fn log(self) -> Seq<TeardownOp> {
        self.teardown@
    }

    /// Handles are nonzero, below the counter, and never listed twice.
    pub closed spec fn wf(self) -> bool {
        &&& 1 <= self.next_handle
        &&& distinct_seq(self.live_list@)
        &&& forall|i: int|
            0 <= i < self.live_list@.len() ==> 1 <= #[trigger] self.live_list@[i]
                < self.next_handle
    }

    /// Every live handle is nonzero and strictly below the counter, so a
    /// handle the counter has not reached yet is live nowhere.
    pub proof fn lemma_live_bounded(self)
        requires
            self.wf(),
        ensures
            1 <= self.used(),
            forall|h: u64| self.live_handles().contains(h) ==> 1 <= h < self.used(),
    {
        assert forall|h: u64| self.live_handles().contains(h) implies 1 <= h < self.used() by {
            let i = choose|i: int| 0 <= i < self.live_list@.len() && self.live_list@[i] == h;
            assert(1 <= self.live_list@[i] < self.next_handle);
        }
    }

    pub fn new() -> (r: DeviceContext)
        ensures
            r.wf(),
            r.used() == 1,
            r.live_handles() == Set::<u64>::empty(),
            r.log() == Seq::<TeardownOp>::empty(),
    {
        let r = DeviceContext { next_handle: 1, live_list: Vec::new(), teardown: Vec::new() };
        proof {
            assert(r.live_list@.to_set() =~= Set::<u64>::empty());
        }
        r
    }

    /// The number of handles handed out so far, used by callers to check
    /// that the handle space is not exhausted before a batch.
    pub fn used_handles(&self) -> (r: u64)
        ensures
            r == self.used(),
    {
        self.next_handle
    }

    /// Hands out the next handle and marks it live.
    fn fresh_handle(&mut self) -> (h: u64)
        requires
            old(self).wf(),
            old(self).used() < u64::MAX,
        ensures
            final(self).wf(),
            h == old(self).used(),
            1 <= h,
            !old(self).live_handles().contains(h),
            final(self).live_handles() == old(self).live_handles().insert(h),
            final(self).used() == old(self).used() + 1,
            final(self).log() == old(self).log(),
    {
        let h = self.next_handle;
        proof {
            if old(self).live_handles().contains(h) {
                let i = choose|i: int|
                    0 <= i < old(self).live_list@.len() && old(self).live_list@[i] == h;
                assert(old(self).live_list@[i] < h);
            }
        }
        self.live_list.push(h);
        self.next_handle = self.next_handle + 1;
        proof {
            let pushed = self.live_list@;
            let before = old(self).live_list@;
            assert forall|x: u64| pushed.to_set().contains(x) implies before.to_set().insert(
                h,
            ).contains(x) by {
                let i = choose|i: int| 0 <= i < pushed.len() && pushed[i] == x;
                if i < before.len() {
                    assert(before[i] == x);
                }
            }
            assert forall|x: u64| before.to_set().insert(h).contains(x) implies pushed
                .to_set()
                .contains(x) by {
                if x == h {
                    assert(pushed[pushed.len() - 1] == h);
                } else {
                    let i = choose|i: int| 0 <= i < before.len() && before[i] == x;
                    assert(pushed[i] == x);
                }
            }
            assert(pushed.to_set() =~= before.to_set().insert(h));
            assert forall|a: int, b: int| 0 <= a < b < pushed.len() implies pushed[a]
                != pushed[b] by {
                if b == pushed.len() - 1 {
                    assert(pushed[a] == before[a]);
                    assert(before[a] < h);
                } else {
                    assert(pushed[a] == before[a]);
                    assert(pushed[b] == before[b]);
                }
            }
            assert forall|a: int| 0 <= a < pushed.len() implies 1 <= #[trigger] pushed[a]
                < self.next_handle by {
                if a < before.len() {
                    assert(pushed[a] == before[a]);
                }
            }
        }
        h
    }

    /// Removes a live handle and records the given teardown step.
    fn retire(&mut self, handle: u64, op: TeardownOp)
        requires
            old(self).wf(),
            old(self).live_handles().contains(handle),
        ensures
            final(self).wf(),
            final(self).live_handles() == old(self).live_handles().remove(handle),
            final(self).used() == old(self).used(),
            final(self).log() == old(self).log().push(op),
    {
        let ghost before = self.live_list@;
        let mut i: usize = 0;
        while i < self.live_list.len() && self.live_list[i] != handle
            invariant
                old(self).wf(),
                old(self).live_handles().contains(handle),
                before == old(self).live_list@,
                *self == *old(self),
                0 <= i <= before.len(),
                forall|k: int| 0 <= k < i ==> before[k] != handle,
            decreases before.len() - i,
        {
            i = i + 1;
        }
        proof {
            if i >= before.len() {
                let k = choose|k: int| 0 <= k < before.len() && before[k] == handle;
                assert(before[k] != handle);
            }
            assert(before[i as int] == handle);
        }
        let ghost pos = i as int;
        self.live_list.remove(i);
        self.teardown.push(op);
        proof {
            let after = self.live_list@;
            before.remove_ensures(pos);
            assert forall|x: u64| after.to_set().contains(x) implies before.to_set().remove(
                handle,
            ).contains(x) by {
                let j = choose|j: int| 0 <= j < after.len() && after[j] == x;
                if j < pos {
                    assert(before[j] == x);
                } else {
                    assert(before[j + 1] == x);
                }
            }
            assert forall|x: u64| before.to_set().remove(handle).contains(x) implies after
                .to_set()
                .contains(x) by {
                let j = choose|j: int| 0 <= j < before.len() && before[j] == x;
                if j < pos {
                    assert(after[j] == x);
                } else {
                    assert(j != pos);
                    assert(after[j - 1] == x);
                }
            }
            assert(after.to_set() =~= before.to_set().remove(handle));
            assert forall|a: int, b: int| 0 <= a < b < after.len() implies after[a]
                != after[b] by {
                if b < pos {
                } else if a < pos {
                    assert(after[b] == before[b + 1]);
                } else {
                    assert(after[a] == before[a + 1]);
                    assert(after[b] == before[b + 1]);
                }
            }
            assert forall|a: int| 0 <= a < after.len() implies 1 <= #[trigger] after[a]
                < self.next_handle by {
                if a < pos {
                    assert(after[a] == before[a]);
                } else {
                    assert(after[a] == before[a + 1]);
                }
            }
        }
    }

    /// Whether the handle is currently alive on this device.
    pub fn is_live(&self, handle: u64) -> (r: bool)
        ensures
            r == self.live_handles().contains(handle),
    {
        let mut i: usize = 0;
        while i < self.live_list.len()
            invariant
                0 <= i <= self.live_list@.len(),
                forall|k: int| 0 <= k < i ==> self.live_list@[k] != handle,
            decreases self.live_list@.len() - i,
        {
            if self.live_list[i] == handle {
                proof {
                    assert(self.live_list@.contains(handle));
                }
                return true;
            }
            i = i + 1;
        }
        proof {
            if self.live_handles().contains(handle) {
                let k = choose|k: int|
                    0 <= k < self.live_list@.len() && self.live_list@[k] == handle;
                assert(self.live_list@[k] != handle);
            }
        }
        false
    }

    /// Every destruction this device has performed, oldest first.
    pub fn teardown_ops(&self) -> (r: &Vec<TeardownOp>)
        ensures
            r@ == self.log(),
    {
        &self.teardown
    }

    /// Creates a timeline semaphore. The initial counter value carries no
    /// handle-lifetime meaning and is not tracked by the model.
    pub fn create_semaphore(&mut self, _initial_value: u64) -> (h: u64)
        requires
            old(self).wf(),
            old(self).used() < u64::MAX,
        ensures
            final(self).wf(),
            h == old(self).used(),
            1 <= h,
            !old(self).live_handles().contains(h),
            final(self).live_handles() == old(self).live_handles().insert(h),
            final(self).used() == old(self).used() + 1,
            final(self).log() == old(self).log(),
    {
        self.fresh_handle()
    }

    pub fn destroy_semaphore(&mut self, semaphore: u64)
        requires
            old(self).wf(),
            old(self).live_handles().contains(semaphore),
        ensures
            final(self).wf(),
            final(self).live_handles() == old(self).live_handles().remove(semaphore),
            final(self).used() == old(self).used(),
            final(self).log() == old(self).log().push(TeardownOp::DestroySemaphore(semaphore)),
    {
        self.retire(semaphore, TeardownOp::DestroySemaphore(semaphore))
    }

    /// Creates a buffer object. The device rejects an empty buffer.
    pub fn create_buffer(&mut self, size: u64, _usage: u32) -> (r: Result<u64, DeviceError>)
        requires
            old(self).wf(),
            old(self).used() < u64::MAX,
        ensures
            final(self).wf(),
            r is Ok <==> 1 <= size,
            r is Err ==> r == Result::<u64, DeviceError>::Err(DeviceError::InvalidParameters)
                && *final(self) == *old(self),
            r matches Ok(h) ==> h == old(self).used() && 1 <= h && !old(
                self,
            ).live_handles().contains(h) && final(self).live_handles() == old(
                self,
            ).live_handles().insert(h) && final(self).used() == old(self).used() + 1,
            final(self).log() == old(self).log(),
    {
        if size < 1 {
            return Err(DeviceError::InvalidParameters);
        }
        Ok(self.fresh_handle())
    }

    pub fn destroy_buffer(&mut self, buffer: u64)
        requires
            old(self).wf(),
            old(self).live_handles().contains(buffer),
        ensures
            final(self).wf(),
            final(self).live_handles() == old(self).live_handles().remove(buffer),
            final(self).used() == old(self).used(),
            final(self).log() == old(self).log().push(TeardownOp::DestroyBuffer(buffer)),
    {
        self.retire(buffer, TeardownOp::DestroyBuffer(buffer))
    }

    /// Creates a view over a live buffer. The device rejects an empty view
    /// and the undefined format.
    pub fn create_buffer_view(&mut self, buffer: u64, _offset: u64, length: u64, format: u32) -> (r:
        Result<u64, DeviceError>)
        requires
            old(self).wf(),
            old(self).used() < u64::MAX,
            old(self).live_handles().contains(buffer),
        ensures
            final(self).wf(),
            r is Ok <==> 1 <= length && format != 0,
            r is Err ==> r == Result::<u64, DeviceError>::Err(DeviceError::InvalidParameters)
                && *final(self) == *old(self),
            r matches Ok(h) ==> h == old(self).used() && 1 <= h && !old(
                self,
            ).live_handles().contains(h) && final(self).live_handles() == old(
                self,
            ).live_handles().insert(h) && final(self).used() == old(self).used() + 1,
            final(self).log() == old(self).log(),
    {
        if length < 1 || format == 0 {
            return Err(DeviceError::InvalidParameters);
        }
        Ok(self.fresh_handle())
    }

    pub fn destroy_buffer_view(&mut self, view: u64)
        requires
            old(self).wf(),
            old(self).live_handles().contains(view),
        ensures
            final(self).wf(),
            final(self).live_handles() == old(self).live_handles().remove(view),
            final(self).used() == old(self).used(),
            final(self).log() == old(self).log().push(TeardownOp::DestroyBufferView(view)),
    {
        self.retire(view, TeardownOp::DestroyBufferView(view))
    }

    /// Creates an image object. The device rejects empty or oversized
    /// extents and the undefined format.
    pub fn create_image(&mut self, width: u32, height: u32, format: u32, _usage: u32) -> (r: Result<
        u64,
        DeviceError,
    >)
        requires
            old(self).wf(),
            old(self).used() < u64::MAX,
        ensures
            final(self).wf(),
            r is Ok <==> 1 <= width <= MAX_IMAGE_DIMENSION && 1 <= height <= MAX_IMAGE_DIMENSION
                && format != 0,
            r is Err ==> r == Result::<u64, DeviceError>::Err(DeviceError::InvalidParameters)
                && *final(self) == *old(self),
            r matches Ok(h) ==> h == old(self).used() && 1 <= h && !old(
                self,
            ).live_handles().contains(h) && final(self).live_handles() == old(
                self,
            ).live_handles().insert(h) && final(self).used() == old(self).used() + 1,
            final(self).log() == old(self).log(),
    {
        if width < 1 || width > MAX_IMAGE_DIMENSION || height < 1 || height > MAX_IMAGE_DIMENSION
            || format == 0 {
            return Err(DeviceError::InvalidParameters);
        }
        Ok(self.fresh_handle())
    }

    pub fn destroy_image(&mut self, image: u64)
        requires
            old(self).wf(),
            old(self).live_handles().contains(image),
        ensures
            final(self).wf(),
            final(self).live_handles() == old(self).live_handles().remove(image),
            final(self).used() == old(self).used(),
            final(self).log() == old(self).log().push(TeardownOp::DestroyImage(image)),
    {
        self.retire(image, TeardownOp::DestroyImage(image))
    }

    /// Creates a view over a live image. The device rejects the undefined
    /// format.
    pub fn create_image_view(&mut self, image: u64, format: u32) -> (r: Result<u64, DeviceError>)
        requires
            old(self).wf(),
            old(self).used() < u64::MAX,
            old(self).live_handles().contains(image),
        ensures
            final(self).wf(),
            r is Ok <==> format != 0,
            r is Err ==> r == Result::<u64, DeviceError>::Err(DeviceError::InvalidParameters)
                && *final(self) == *old(self),
            r matches Ok(h) ==> h == old(self).used() && 1 <= h && !old(
                self,
            ).live_handles().contains(h) && final(self).live_handles() == old(
                self,
            ).live_handles().insert(h) && final(self).used() == old(self).used() + 1,
            final(self).log() == old(self).log(),
    {
        if format == 0 {
            return Err(DeviceError::InvalidParameters);
        }
        Ok(self.fresh_handle())
    }

    pub fn destroy_image_view(&mut self, view: u64)
        requires
            old(self).wf(),
            old(self).live_handles().contains(view),
        ensures
            final(self).wf(),
            final(self).live_handles() == old(self).live_handles().remove(view),
            final(self).used() == old(self).used(),
            final(self).log() == old(self).log().push(TeardownOp::DestroyImageView(view)),
    {
        self.retire(view, TeardownOp::DestroyImageView(view))
    }

    /// Allocates a region of device memory. An empty request is invalid and
    /// a request beyond the device's largest allocation is out of memory.
    pub fn allocate_memory(&mut self, size: u64) -> (r: Result<u64, DeviceError>)
        requires
            old(self).wf(),
            old(self).used() < u64::MAX,
        ensures
            final(self).wf(),
            r is Ok <==> 1 <= size <= MAX_ALLOCATION_SIZE,
            size == 0 ==> r == Result::<u64, DeviceError>::Err(DeviceError::InvalidParameters),
            size > MAX_ALLOCATION_SIZE ==> r == Result::<u64, DeviceError>::Err(
                DeviceError::OutOfDeviceMemory,
            ),
            r is Err ==> *final(self) == *old(self),
            r matches Ok(h) ==> h == old(self).used() && 1 <= h && !old(
                self,
            ).live_handles().contains(h) && final(self).live_handles() == old(
                self,
            ).live_handles().insert(h) && final(self).used() == old(self).used() + 1,
            final(self).log() == old(self).log(),
    {
        if size == 0 {
            return Err(DeviceError::InvalidParameters);
        }
        if size > MAX_ALLOCATION_SIZE {
            return Err(DeviceError::OutOfDeviceMemory);
        }
        Ok(self.fresh_handle())
    }

    pub fn free_memory(&mut self, memory: u64)
        requires
            old(self).wf(),
            old(self).live_handles().contains(memory),
        ensures
            final(self).wf(),
            final(self).live_handles() == old(self).live_handles().remove(memory),
            final(self).used() == old(self).used(),
            final(self).log() == old(self).log().push(TeardownOp::FreeMemory(memory)),
    {
        self.retire(memory, TeardownOp::FreeMemory(memory))
    }
}

} // verus!

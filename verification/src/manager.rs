//! The object manager: the factory that owns the device context and the
//! allocator, vends synchronization groups and batch builders, and drives
//! the create / abort / reduce / destroy sequencing of object sets.
//!
//! Exclusive references serialize all access to the manager's state: every
//! mutating operation takes the manager exclusively, which is what the
//! internal lock of a shared deployment provides.
use vstd::prelude::*;

use crate::IdCounter;
use crate::allocator::Allocation;
use crate::allocator::Allocator;
use crate::allocator::MemoryRequirements;
use crate::device::DeviceContext;
use crate::device::TeardownOp;
use crate::resource_object_set::ObjectCreateError;
use crate::resource_object_set::ResourceObjectCreateMetadata;
use crate::resource_object_set::ResourceObjectData;
use crate::resource_object_set::abort_ops;
use crate::resource_object_set::alloc_mems;
use crate::resource_object_set::allocations_of;
use crate::resource_object_set::batch_dep_wf;
use crate::resource_object_set::batch_ok;
use crate::resource_object_set::batch_pristine;
use crate::resource_object_set::created;
use crate::resource_object_set::created_upto;
use crate::resource_object_set::dep_wf;
use crate::resource_object_set::data_handle;
use crate::resource_object_set::data_handles;
use crate::resource_object_set::destroy_ops;
use crate::resource_object_set::expected_error;
use crate::resource_object_set::first_bad;
use crate::resource_object_set::free_ops;
use crate::resource_object_set::in_range;
use crate::resource_object_set::lemma_first_bad_is;
use crate::resource_object_set::lemma_increasing_concat;
use crate::resource_object_set::lemma_recorded_contains;
use crate::resource_object_set::lemma_recorded_frame;
use crate::resource_object_set::lemma_recorded_pristine_tail;
use crate::resource_object_set::kind_matches;
use crate::resource_object_set::lemma_abort_kinds_resets;
use crate::resource_object_set::lemma_abort_ops_kinds;
use crate::resource_object_set::lemma_kinds_concat;
use crate::resource_object_set::lemma_mems_sub;
use crate::resource_object_set::partial_kinds;
use crate::resource_object_set::abort_kinds;
use crate::resource_object_set::teardown_kinds;
use crate::resource_object_set::ResourceObjectSet;
use crate::resource_object_set::ResourceObjectSetBuilder;
use crate::synchronization_group::SynchronizationGroup;
use crate::resource_object_set::lemma_distinct_concat;
use crate::resource_object_set::lemma_distinct_push;
use crate::resource_object_set::reduce_of;
use crate::resource_object_set::alloc_of;
use crate::resource_object_set::lemma_recorded_mems_contains;
use crate::resource_object_set::lemma_recorded_prefix;
use crate::resource_object_set::slot_abort_ops;
use crate::resource_object_set::lemma_resets_decide_ok;
use crate::resource_object_set::lemma_to_set_concat;
use crate::resource_object_set::pristine;
use crate::resource_object_set::recorded;
use crate::resource_object_set::recorded_mems;
use crate::resource_object_set::reset;
use crate::resource_object_set::resets_match;
use crate::resource_object_set::slot_mems;
use crate::resource_object_set::slot_ok;
use crate::resource_object_set::slot_vals;
use crate::resource_object_set::strictly_increasing;
use crate::splitter::Splitter;

verus! {

/// Replaces the element at `i`, leaving every other slot as it was.
fn set_slot<T>(v: &mut Vec<T>, i: usize, x: T)
    requires
        i < old(v).len(),
    ensures
        final(v)@ == old(v)@.update(i as int, x),
{
    let ghost before = v@;
    let _ = v.remove(i);
    v.insert(i, x);
    proof {
        before.remove_ensures(i as int);
        before.remove(i as int).insert_ensures(i as int, x);
        assert(v@ =~= before.update(i as int, x));
    }
}

/// The internal state of the object manager: its identity, the device
/// context, and the allocator.
pub struct ObjectManagerImpl {
    uuid: u64,
    device: DeviceContext,
    allocator: Allocator,
}

impl ObjectManagerImpl {
    /// The generated id this manager is identified by.
    pub closed spec fn id(self) -> u64 {
        self.uuid
    }

    /// The handles currently alive on this manager's device.
    pub closed spec fn live(self) -> Set<u64> {
        self.device.live_handles()
    }

    /// The first handle the device has not handed out yet.
    pub closed spec fn used(self) -> u64 {
        self.device.used()
    }

    /// Every destruction the device performed, oldest first.
    pub closed spec fn log(self) -> Seq<TeardownOp> {
        self.device.log()
    }

    /// The memory regions the allocator has handed out and not yet freed.
    pub closed spec fn outstanding(self) -> Set<u64> {
        self.allocator.outstanding_set()
    }

    /// The device and the allocator agree: both are well formed and every
    /// outstanding region was handed out by this device.
    pub closed spec fn wf(self) -> bool {
        &&& self.device.wf()
        &&& self.allocator.wf()
        &&& self.allocator.bounded_by(self.device.used())
    }

    /// Every live handle lies strictly below the handle counter.
    pub proof fn lemma_live_bounded(self)
        requires
            self.wf(),
        ensures
            1 <= self.used(),
            forall|h: u64| self.live().contains(h) ==> 1 <= h < self.used(),
            forall|v: u64| self.outstanding().contains(v) ==> v < self.used(),
    {
        self.device.lemma_live_bounded();
        self.allocator.lemma_outstanding_bounded(self.device.used());
    }

    pub fn new(device: DeviceContext, uuid: u64) -> (r: ObjectManagerImpl)
        requires
            device.wf(),
        ensures
            r.wf(),
            r.id() == uuid,
            r.live() == device.live_handles(),
            r.used() == device.used(),
            r.log() == device.log(),
            r.outstanding() == Set::<u64>::empty(),
    {
        let allocator = Allocator::new();
        ObjectManagerImpl { uuid, device, allocator }
    }

    /// Creates a timeline semaphore for use in a synchronization group.
    pub fn create_group_semaphore(&mut self, initial_value: u64) -> (r: u64)
        requires
            old(self).wf(),
            old(self).used() < u64::MAX,
        ensures
            final(self).wf(),
            final(self).id() == old(self).id(),
            r == old(self).used(),
            1 <= r,
            !old(self).live().contains(r),
            final(self).live() == old(self).live().insert(r),
            final(self).used() == old(self).used() + 1,
            final(self).log() == old(self).log(),
            final(self).outstanding() == old(self).outstanding(),
    {
        let r = self.device.create_semaphore(initial_value);
        proof {
            self.allocator.lemma_bounded_monotone(old(self).used(), self.device.used());
        }
        r
    }

    /// Destroys a semaphore previously created by `create_group_semaphore`.
    pub fn destroy_group_semaphore(&mut self, semaphore: u64)
        requires
            old(self).wf(),
            old(self).live().contains(semaphore),
        ensures
            final(self).wf(),
            final(self).id() == old(self).id(),
            final(self).used() == old(self).used(),
            final(self).live() == old(self).live().remove(semaphore),
            final(self).log() == old(self).log().push(TeardownOp::DestroySemaphore(semaphore)),
            final(self).outstanding() == old(self).outstanding(),
    {
        self.device.destroy_semaphore(semaphore)
    }

    /// Runs the create step of one slot: realizes its object on the
    /// device, allocating memory where the object needs it, reading
    /// dependency handles from the already created slots through the
    /// splitter. On failure the slot keeps whatever it had acquired, for
    /// the abort pass to release.
    fn create_slot(&mut self, objects: &mut Vec<ResourceObjectCreateMetadata>, i: usize) -> (r:
        Result<(), ObjectCreateError>)
        requires
            old(self).wf(),
            i < old(objects)@.len(),
            batch_dep_wf(old(objects)@),
            created_upto(old(objects)@, i as int),
            pristine(old(objects)@[i as int]),
            forall|j: int| 0 <= j < i ==> #[trigger] slot_ok(old(objects)@, j),
            recorded(old(objects)@, i as int).to_set().subset_of(old(self).live()),
            old(self).used() + 2 <= u64::MAX,
        ensures
            final(self).wf(),
            final(self).id() == old(self).id(),
            final(self).log() == old(self).log(),
            old(self).used() <= final(self).used() <= old(self).used() + 2,
            final(objects)@.len() == old(objects)@.len(),
            forall|j: int|
                0 <= j < old(objects)@.len() && j != i ==> final(objects)@[j] == old(objects)@[j],
            reset(final(objects)@[i as int]) == reset(old(objects)@[i as int]),
            r is Ok <==> slot_ok(old(objects)@, i as int),
            r is Ok ==> {
                &&& created(final(objects)@[i as int])
                &&& strictly_increasing(slot_vals(final(objects)@[i as int]))
                &&& in_range(
                    slot_vals(final(objects)@[i as int]),
                    old(self).used() as int,
                    final(self).used() as int,
                )
                &&& final(self).live() == old(self).live() + slot_vals(
                    final(objects)@[i as int],
                ).to_set()
                &&& final(self).outstanding() == old(self).outstanding() + slot_mems(
                    final(objects)@[i as int],
                ).to_set()
            },
            r is Err ==> r == Result::<(), ObjectCreateError>::Err(
                expected_error(old(objects)@, i as int),
            ) && final(self).outstanding() == old(self).outstanding(),
            r is Err && (old(objects)@[i as int] matches ResourceObjectCreateMetadata::Buffer {
                desc,
                ..
            } && desc.size >= 1) ==> (final(objects)@[i as int]
                matches ResourceObjectCreateMetadata::Buffer { handle, memory, .. } && 1 <= handle
                && memory is None && final(self).live() == old(self).live().insert(handle)
                && strictly_increasing(slot_vals(final(objects)@[i as int])) && in_range(
                slot_vals(final(objects)@[i as int]),
                old(self).used() as int,
                final(self).used() as int,
            )),
            r is Err && !(old(objects)@[i as int] matches ResourceObjectCreateMetadata::Buffer {
                desc,
                ..
            } && desc.size >= 1) ==> final(objects)@[i as int] == old(objects)@[i as int]
                && *final(self) == *old(self),
    {
        let ghost s0 = old(objects)@;
        let ghost i_ = i as int;
        let m = objects[i];
        match m {
            ResourceObjectCreateMetadata::Buffer { desc, .. } => {
                let hr = self.device.create_buffer(desc.size, desc.usage);
                match hr {
                    Err(e) => Err(ObjectCreateError::Device(e)),
                    Ok(handle) => {
                        set_slot(
                            objects,
                            i,
                            ResourceObjectCreateMetadata::Buffer { desc, handle, memory: None },
                        );
                        let requirements = MemoryRequirements {
                            size: desc.size,
                            alignment: 1,
                            host_visible: false,
                        };
                        proof {
                            self.allocator.lemma_bounded_monotone(
                                old(self).used(),
                                self.device.used(),
                            );
                        }
                        let ar = self.allocator.allocate(&mut self.device, requirements);
                        match ar {
                            Err(e) => {
                                proof {
                                    let vals = slot_vals(objects@[i_]);
                                    assert(vals =~= seq![handle]);
                                    assert forall|k: int| 0 <= k < vals.len() implies old(
                                        self,
                                    ).used() <= #[trigger] vals[k] < self.used() by {
                                        assert(vals[k] == handle);
                                    }
                                }
                                Err(ObjectCreateError::Allocation(e))
                            },
                            Ok(a) => {
                                set_slot(
                                    objects,
                                    i,
                                    ResourceObjectCreateMetadata::Buffer {
                                        desc,
                                        handle,
                                        memory: Some(a),
                                    },
                                );
                                proof {
                                    let vals = slot_vals(objects@[i_]);
                                    assert(vals =~= seq![handle, a.memory]);
                                    assert forall|x: u64| vals.to_set().contains(x) implies x
                                        == handle || x == a.memory by {
                                        let k = choose|k: int|
                                            0 <= k < vals.len() && vals[k] == x;
                                    }
                                    assert(vals.to_set().contains(handle)) by {
                                        assert(vals[0] == handle);
                                    }
                                    assert(vals.to_set().contains(a.memory)) by {
                                        assert(vals[1] == a.memory);
                                    }
                                    assert(self.live() =~= old(self).live() + vals.to_set());
                                    assert(slot_mems(objects@[i_]) =~= seq![a.memory]);
                                    assert(slot_mems(objects@[i_]).to_set().contains(a.memory)) by {
                                        assert(slot_mems(objects@[i_])[0] == a.memory);
                                    }
                                    assert forall|x: u64|
                                        slot_mems(objects@[i_]).to_set().contains(x) implies x
                                        == a.memory by {
                                        let k = choose|k: int|
                                            0 <= k < slot_mems(objects@[i_]).len() && slot_mems(
                                                objects@[i_],
                                            )[k] == x;
                                    }
                                    assert(self.outstanding() =~= old(self).outstanding()
                                        + slot_mems(objects@[i_]).to_set());
                                }
                                Ok(())
                            },
                        }
                    },
                }
            },
            ResourceObjectCreateMetadata::BufferView { desc, owner, .. } => {
                proof {
                    assert(dep_wf(s0, i_));
                }
                let splitter = Splitter::new(objects.len(), i);
                let dep = *splitter.read_other(objects, owner);
                match dep {
                    ResourceObjectCreateMetadata::Buffer { desc: bd, handle: bh, .. } => {
                        proof {
                            assert(created(s0[owner as int]));
                            assert(slot_vals(s0[owner as int]).contains(bh)) by {
                                assert(slot_vals(s0[owner as int])[0] == bh);
                            }
                            lemma_recorded_contains(s0, owner as int, i_, bh);
                            assert(recorded(s0, i_).to_set().contains(bh));
                        }
                        if desc.range.length < 1 || desc.format == 0 || desc.range.offset > bd.size
                            || bd.size - desc.range.offset < desc.range.length {
                            return Err(ObjectCreateError::Device(
                                crate::device::DeviceError::InvalidParameters,
                            ));
                        }
                        let hr = self.device.create_buffer_view(
                            bh,
                            desc.range.offset,
                            desc.range.length,
                            desc.format,
                        );
                        match hr {
                            Ok(handle) => {
                                set_slot(
                                    objects,
                                    i,
                                    ResourceObjectCreateMetadata::BufferView {
                                        desc,
                                        owner,
                                        handle,
                                    },
                                );
                                proof {
                                    let vals = slot_vals(objects@[i_]);
                                    assert(vals =~= seq![handle]);
                                    assert(vals.to_set().contains(handle)) by {
                                        assert(vals[0] == handle);
                                    }
                                    assert forall|x: u64| vals.to_set().contains(x) implies x
                                        == handle by {
                                        let k = choose|k: int|
                                            0 <= k < vals.len() && vals[k] == x;
                                    }
                                    assert(self.live() =~= old(self).live() + vals.to_set());
                                    assert(slot_mems(objects@[i_]) =~= Seq::<u64>::empty());
                                    assert(slot_mems(objects@[i_]).to_set() =~= Set::<
                                        u64,
                                    >::empty());
                                    assert(self.outstanding() =~= old(self).outstanding()
                                        + slot_mems(objects@[i_]).to_set());
                                    self.allocator.lemma_bounded_monotone(
                                        old(self).used(),
                                        self.device.used(),
                                    );
                                }
                                Ok(())
                            },
                            Err(e) => {
                                proof {
                                    assert(false);
                                }
                                Err(ObjectCreateError::Device(e))
                            },
                        }
                    },
                    _ => {
                        proof {
                            assert(false);
                        }
                        Err(ObjectCreateError::Device(crate::device::DeviceError::InvalidParameters))
                    },
                }
            },
            ResourceObjectCreateMetadata::Image { desc, .. } => {
                let hr = self.device.create_image(desc.width, desc.height, desc.format, desc.usage);
                match hr {
                    Err(e) => Err(ObjectCreateError::Device(e)),
                    Ok(handle) => {
                        set_slot(
                            objects,
                            i,
                            ResourceObjectCreateMetadata::Image { desc, handle, memory: None },
                        );
                        let w = desc.width as u64;
                        let h = desc.height as u64;
                        proof {
                            assert(1 <= w * h <= 16384 * 16384) by (nonlinear_arith)
                                requires
                                    1 <= w <= 16384,
                                    1 <= h <= 16384,
                            ;
                        }
                        let size = w * h * 4;
                        let requirements = MemoryRequirements {
                            size,
                            alignment: 1,
                            host_visible: false,
                        };
                        proof {
                            self.allocator.lemma_bounded_monotone(
                                old(self).used(),
                                self.device.used(),
                            );
                        }
                        let ar = self.allocator.allocate(&mut self.device, requirements);
                        match ar {
                            Err(e) => {
                                proof {
                                    assert(false);
                                }
                                Err(ObjectCreateError::Allocation(e))
                            },
                            Ok(a) => {
                                set_slot(
                                    objects,
                                    i,
                                    ResourceObjectCreateMetadata::Image {
                                        desc,
                                        handle,
                                        memory: Some(a),
                                    },
                                );
                                proof {
                                    let vals = slot_vals(objects@[i_]);
                                    assert(vals =~= seq![handle, a.memory]);
                                    assert forall|x: u64| vals.to_set().contains(x) implies x
                                        == handle || x == a.memory by {
                                        let k = choose|k: int|
                                            0 <= k < vals.len() && vals[k] == x;
                                    }
                                    assert(vals.to_set().contains(handle)) by {
                                        assert(vals[0] == handle);
                                    }
                                    assert(vals.to_set().contains(a.memory)) by {
                                        assert(vals[1] == a.memory);
                                    }
                                    assert(self.live() =~= old(self).live() + vals.to_set());
                                    assert(slot_mems(objects@[i_]) =~= seq![a.memory]);
                                    assert(slot_mems(objects@[i_]).to_set().contains(a.memory)) by {
                                        assert(slot_mems(objects@[i_])[0] == a.memory);
                                    }
                                    assert forall|x: u64|
                                        slot_mems(objects@[i_]).to_set().contains(x) implies x
                                        == a.memory by {
                                        let k = choose|k: int|
                                            0 <= k < slot_mems(objects@[i_]).len() && slot_mems(
                                                objects@[i_],
                                            )[k] == x;
                                    }
                                    assert(self.outstanding() =~= old(self).outstanding()
                                        + slot_mems(objects@[i_]).to_set());
                                }
                                Ok(())
                            },
                        }
                    },
                }
            },
            ResourceObjectCreateMetadata::ImageView { desc, owner, .. } => {
                proof {
                    assert(dep_wf(s0, i_));
                }
                let splitter = Splitter::new(objects.len(), i);
                let dep = *splitter.read_other(objects, owner);
                match dep {
                    ResourceObjectCreateMetadata::Image { desc: id, handle: ih, .. } => {
                        proof {
                            assert(created(s0[owner as int]));
                            assert(slot_vals(s0[owner as int]).contains(ih)) by {
                                assert(slot_vals(s0[owner as int])[0] == ih);
                            }
                            lemma_recorded_contains(s0, owner as int, i_, ih);
                            assert(recorded(s0, i_).to_set().contains(ih));
                            assert(slot_ok(s0, owner as int));
                        }
                        if desc.format != id.format {
                            return Err(ObjectCreateError::Device(
                                crate::device::DeviceError::InvalidParameters,
                            ));
                        }
                        let hr = self.device.create_image_view(ih, desc.format);
                        match hr {
                            Ok(handle) => {
                                set_slot(
                                    objects,
                                    i,
                                    ResourceObjectCreateMetadata::ImageView { desc, owner, handle },
                                );
                                proof {
                                    let vals = slot_vals(objects@[i_]);
                                    assert(vals =~= seq![handle]);
                                    assert(vals.to_set().contains(handle)) by {
                                        assert(vals[0] == handle);
                                    }
                                    assert forall|x: u64| vals.to_set().contains(x) implies x
                                        == handle by {
                                        let k = choose|k: int|
                                            0 <= k < vals.len() && vals[k] == x;
                                    }
                                    assert(self.live() =~= old(self).live() + vals.to_set());
                                    assert(slot_mems(objects@[i_]) =~= Seq::<u64>::empty());
                                    assert(slot_mems(objects@[i_]).to_set() =~= Set::<
                                        u64,
                                    >::empty());
                                    assert(self.outstanding() =~= old(self).outstanding()
                                        + slot_mems(objects@[i_]).to_set());
                                    self.allocator.lemma_bounded_monotone(
                                        old(self).used(),
                                        self.device.used(),
                                    );
                                }
                                Ok(())
                            },
                            Err(e) => {
                                proof {
                                    assert(false);
                                }
                                Err(ObjectCreateError::Device(e))
                            },
                        }
                    },
                    _ => {
                        proof {
                            assert(false);
                        }
                        Err(ObjectCreateError::Device(crate::device::DeviceError::InvalidParameters))
                    },
                }
            },
        }
    }

    /// Runs the create phase over a whole batch: slots in strictly
    /// ascending order, each possibly reading already created dependency
    /// slots. Stops at the first rejected slot, leaving exactly the slots
    /// before it (and whatever the rejected slot had partially acquired)
    /// for the abort pass.
    #[verifier::rlimit(60)]
    pub fn create_resource_objects(&mut self, objects: &mut Vec<ResourceObjectCreateMetadata>)
        -> (r: Result<(), ObjectCreateError>)
        requires
            old(self).wf(),
            batch_dep_wf(old(objects)@),
            batch_pristine(old(objects)@),
            old(self).used() + 2 * old(objects)@.len() <= u64::MAX,
        ensures
            final(self).wf(),
            final(self).id() == old(self).id(),
            final(self).log() == old(self).log(),
            old(self).used() <= final(self).used(),
            final(objects)@.len() == old(objects)@.len(),
            resets_match(old(objects)@, final(objects)@),
            batch_dep_wf(final(objects)@),
            strictly_increasing(recorded(final(objects)@, final(objects)@.len() as int)),
            in_range(
                recorded(final(objects)@, final(objects)@.len() as int),
                old(self).used() as int,
                final(self).used() as int,
            ),
            final(self).live() == old(self).live() + recorded(
                final(objects)@,
                final(objects)@.len() as int,
            ).to_set(),
            final(self).outstanding() == old(self).outstanding() + recorded_mems(
                final(objects)@,
                final(objects)@.len() as int,
            ).to_set(),
            r is Ok <==> batch_ok(old(objects)@),
            r is Ok ==> created_upto(final(objects)@, final(objects)@.len() as int),
            r is Err ==> ({
                let m = first_bad(old(objects)@);
                &&& 0 <= m < old(objects)@.len()
                &&& r == Result::<(), ObjectCreateError>::Err(expected_error(old(objects)@, m))
                &&& created_upto(final(objects)@, m)
                &&& ((old(objects)@[m] matches ResourceObjectCreateMetadata::Buffer { desc, .. }
                    && desc.size >= 1) ==> (final(objects)@[m]
                    matches ResourceObjectCreateMetadata::Buffer { handle, memory, .. } && 1
                    <= handle && memory is None))
                &&& (!(old(objects)@[m] matches ResourceObjectCreateMetadata::Buffer { desc, .. }
                    && desc.size >= 1) ==> final(objects)@[m] == old(objects)@[m])
                &&& forall|j: int|
                    m < j < old(objects)@.len() ==> final(objects)@[j] == old(objects)@[j]
            }),
    {
        let ghost s0 = old(objects)@;
        let n = objects.len();
        let mut i: usize = 0;
        while i < n
            invariant
                s0 == old(objects)@,
                n == s0.len(),
                objects@.len() == n,
                0 <= i <= n,
                self.wf(),
                self.id() == old(self).id(),
                self.log() == old(self).log(),
                batch_dep_wf(s0),
                batch_pristine(s0),
                batch_dep_wf(objects@),
                resets_match(s0, objects@),
                created_upto(objects@, i as int),
                forall|j: int| i <= j < n ==> objects@[j] == s0[j],
                forall|j: int| 0 <= j < i ==> #[trigger] slot_ok(s0, j),
                old(self).used() <= self.used(),
                self.used() as int + 2 * (n as int - i as int) <= u64::MAX as int,
                strictly_increasing(recorded(objects@, i as int)),
                in_range(recorded(objects@, i as int), old(self).used() as int, self.used() as int),
                self.live() == old(self).live() + recorded(objects@, i as int).to_set(),
                self.outstanding() == old(self).outstanding() + recorded_mems(
                    objects@,
                    i as int,
                ).to_set(),
            decreases n - i,
        {
            let ghost s_pre = objects@;
            let ghost used_pre = self.used();
            proof {
                lemma_resets_decide_ok(s0, s_pre);
                assert(objects@[i as int] == s0[i as int]);
                assert(pristine(s0[i as int]));
                assert(pristine(s_pre[i as int]));
                assert forall|j: int| 0 <= j < i implies #[trigger] slot_ok(s_pre, j) by {
                    assert(slot_ok(s0, j));
                }
                assert forall|x: u64| recorded(s_pre, i as int).to_set().contains(x) implies self
                    .live()
                    .contains(x) by {}
            }
            let res = self.create_slot(objects, i);
            proof {
                let s_post = objects@;
                lemma_recorded_frame(s_pre, s_post, i as int);
                assert(resets_match(s0, s_post)) by {
                    assert forall|j: int| 0 <= j < n implies reset(#[trigger] s0[j]) == reset(
                        s_post[j],
                    ) by {
                        if j != i {
                            assert(s_post[j] == s_pre[j]);
                        } else {
                            assert(reset(s_post[j]) == reset(s_pre[j]));
                        }
                        assert(reset(s0[j]) == reset(s_pre[j]));
                    }
                }
                lemma_resets_decide_ok(s0, s_post);
            }
            match res {
                Ok(()) => {
                    proof {
                        let s_post = objects@;
                        assert(slot_ok(s_pre, i as int));
                        assert(slot_ok(s0, i as int));
                        assert forall|j: int| 0 <= j < i + 1 implies created(
                            #[trigger] s_post[j],
                        ) by {
                            if j < i {
                                assert(s_post[j] == s_pre[j]);
                                assert(created(s_pre[j]));
                            }
                        }
                        assert(recorded(s_post, i + 1) == recorded(s_post, i as int) + slot_vals(
                            s_post[i as int],
                        ));
                        assert(recorded_mems(s_post, i + 1) == recorded_mems(s_post, i as int)
                            + slot_mems(s_post[i as int]));
                        lemma_increasing_concat(
                            recorded(s_post, i as int),
                            slot_vals(s_post[i as int]),
                            old(self).used() as int,
                            used_pre as int,
                            self.used() as int,
                        );
                        lemma_to_set_concat(recorded(s_post, i as int), slot_vals(s_post[i as int]));
                        assert(self.live() =~= old(self).live() + recorded(s_post, i + 1).to_set());
                        lemma_to_set_concat(
                            recorded_mems(s_post, i as int),
                            slot_mems(s_post[i as int]),
                        );
                        assert(self.outstanding() =~= old(self).outstanding() + recorded_mems(
                            s_post,
                            i + 1,
                        ).to_set());
                        assert forall|j: int| i + 1 <= j < n implies s_post[j] == s0[j] by {
                            assert(s_post[j] == s_pre[j]);
                        }
                    }
                    i = i + 1;
                },
                Err(e) => {
                    proof {
                        let s_post = objects@;
                        let i_ = i as int;
                        assert(!slot_ok(s_pre, i_));
                        assert(!slot_ok(s0, i_));
                        lemma_first_bad_is(s0, i_);
                        assert(expected_error(s0, i_) == expected_error(s_pre, i_));
                        assert forall|j: int| i_ < j < n implies s_post[j] == s0[j] by {
                            assert(s_post[j] == s_pre[j]);
                        }
                        assert forall|j: int| i_ + 1 <= j < n implies pristine(
                            #[trigger] s_post[j],
                        ) by {
                            assert(s_post[j] == s0[j]);
                        }
                        lemma_recorded_pristine_tail(s_post, i_ + 1, n as int);
                        assert(recorded(s_post, i_ + 1) == recorded(s_post, i_) + slot_vals(
                            s_post[i_],
                        ));
                        assert(recorded_mems(s_post, i_ + 1) == recorded_mems(s_post, i_)
                            + slot_mems(s_post[i_]));
                        if s_pre[i_] matches ResourceObjectCreateMetadata::Buffer { desc, .. }
                            && desc.size >= 1 {
                            let handle = s_post[i_]->Buffer_handle;
                            assert(slot_vals(s_post[i_]) =~= seq![handle]);
                            assert(slot_mems(s_post[i_]) =~= Seq::<u64>::empty());
                            assert forall|x: u64|
                                slot_vals(s_post[i_]).to_set().contains(x) implies x == handle by {
                                let k = choose|k: int|
                                    0 <= k < slot_vals(s_post[i_]).len() && slot_vals(s_post[i_])[k]
                                        == x;
                            }
                            assert(slot_vals(s_post[i_]).to_set().contains(handle)) by {
                                assert(slot_vals(s_post[i_])[0] == handle);
                            }
                            lemma_increasing_concat(
                                recorded(s_post, i_),
                                slot_vals(s_post[i_]),
                                old(self).used() as int,
                                used_pre as int,
                                self.used() as int,
                            );
                            lemma_to_set_concat(recorded(s_post, i_), slot_vals(s_post[i_]));
                            assert(self.live() =~= old(self).live() + recorded(
                                s_post,
                                n as int,
                            ).to_set());
                        } else {
                            assert(s_post[i_] == s_pre[i_]);
                            assert(s_post[i_] == s0[i_]);
                            assert(pristine(s_post[i_]));
                            assert(slot_vals(s_post[i_]) =~= Seq::<u64>::empty());
                            assert(slot_mems(s_post[i_]) =~= Seq::<u64>::empty());
                            assert(recorded(s_post, n as int) =~= recorded(s_post, i_));
                            lemma_increasing_concat(
                                recorded(s_post, i_),
                                slot_vals(s_post[i_]),
                                old(self).used() as int,
                                used_pre as int,
                                self.used() as int,
                            );
                            assert(self.live() =~= old(self).live() + recorded(
                                s_post,
                                n as int,
                            ).to_set());
                        }
                        assert(slot_mems(s_post[i_]) =~= Seq::<u64>::empty());
                        assert(recorded_mems(s_post, n as int) =~= recorded_mems(s_post, i_)
                            + Seq::<u64>::empty());
                        assert(recorded_mems(s_post, n as int) =~= recorded_mems(s_post, i_));
                        assert(self.outstanding() =~= old(self).outstanding() + recorded_mems(
                            s_post,
                            n as int,
                        ).to_set());
                    }
                    return Err(e);
                },
            }
        }
        proof {
            assert forall|j: int| 0 <= j < s0.len() implies #[trigger] slot_ok(s0, j) by {}
        }
        Ok(())
    }

    /// Unwinds a batch after a failed create phase: slots in strictly
    /// descending order, each releasing the object handle and the memory
    /// it had acquired; untouched slots are a no-op. Afterwards every
    /// handle and region the batch held is gone and every slot is back to
    /// its queued form.
    #[verifier::rlimit(60)]
    pub fn abort_resource_objects(&mut self, objects: &mut Vec<ResourceObjectCreateMetadata>)
        requires
            old(self).wf(),
            strictly_increasing(recorded(old(objects)@, old(objects)@.len() as int)),
            recorded(old(objects)@, old(objects)@.len() as int).to_set().subset_of(
                old(self).live(),
            ),
            recorded_mems(old(objects)@, old(objects)@.len() as int).to_set().subset_of(
                old(self).outstanding(),
            ),
        ensures
            final(self).wf(),
            final(self).id() == old(self).id(),
            final(self).used() == old(self).used(),
            final(self).live() == old(self).live().difference(
                recorded(old(objects)@, old(objects)@.len() as int).to_set(),
            ),
            final(self).outstanding() == old(self).outstanding().difference(
                recorded_mems(old(objects)@, old(objects)@.len() as int).to_set(),
            ),
            final(self).log() == old(self).log() + abort_ops(
                old(objects)@,
                old(objects)@.len() as int,
            ),
            final(objects)@.len() == old(objects)@.len(),
            resets_match(old(objects)@, final(objects)@),
            batch_pristine(final(objects)@),
    {
        let ghost s0 = old(objects)@;
        let n = objects.len();
        let ghost full = recorded(s0, n as int);
        let ghost fullm = recorded_mems(s0, n as int);
        let mut k = n;
        while k > 0
            invariant
                s0 == old(objects)@,
                n == s0.len(),
                objects@.len() == n,
                0 <= k <= n,
                self.wf(),
                self.id() == old(self).id(),
                self.used() == old(self).used(),
                full == recorded(s0, n as int),
                fullm == recorded_mems(s0, n as int),
                strictly_increasing(full),
                full.to_set().subset_of(old(self).live()),
                fullm.to_set().subset_of(old(self).outstanding()),
                forall|j: int| 0 <= j < k ==> objects@[j] == s0[j],
                forall|j: int|
                    k <= j < n ==> pristine(#[trigger] objects@[j]) && reset(objects@[j]) == reset(
                        s0[j],
                    ),
                self.live() == old(self).live().difference(full.to_set()).union(
                    recorded(s0, k as int).to_set(),
                ),
                self.outstanding() == old(self).outstanding().difference(fullm.to_set()).union(
                    recorded_mems(s0, k as int).to_set(),
                ),
                old(self).log() + abort_ops(s0, n as int) == self.log() + abort_ops(s0, k as int),
            decreases k,
        {
            let i = k - 1;
            let ghost i_ = i as int;
            let ghost live_pre = self.live();
            let ghost out_pre = self.outstanding();
            let ghost log_pre = self.log();
            let ghost vals = slot_vals(s0[i_]);
            let ghost mems = slot_mems(s0[i_]);
            proof {
                assert(objects@[i_] == s0[i_]);
                assert(recorded(s0, k as int) == recorded(s0, i_) + vals);
                assert(recorded_mems(s0, k as int) == recorded_mems(s0, i_) + mems);
                lemma_recorded_prefix(s0, k as int, n as int);
                // every value of this slot is recorded in the whole batch
                assert forall|v: u64| vals.contains(v) implies full.to_set().contains(v)
                    && recorded(s0, k as int).to_set().contains(v) by {
                    lemma_recorded_contains(s0, i_, n as int, v);
                    lemma_recorded_contains(s0, i_, k as int, v);
                }
                assert forall|v: u64| mems.contains(v) implies fullm.to_set().contains(v)
                    && recorded_mems(s0, k as int).to_set().contains(v) by {
                    lemma_recorded_mems_contains(s0, i_, n as int, v);
                    lemma_recorded_mems_contains(s0, i_, k as int, v);
                }
                // this slot's values are live and its regions outstanding
                assert forall|v: u64| vals.contains(v) implies self.live().contains(v) by {}
                assert forall|v: u64| mems.contains(v) implies self.outstanding().contains(v) by {}
                // the prefix below this slot never shares a value with it
                assert forall|v: u64, w: u64|
                    recorded(s0, i_).contains(v) && vals.contains(w) implies v != w by {
                    let p = choose|p: int|
                        0 <= p < recorded(s0, i_).len() && #[trigger] recorded(s0, i_)[p] == v;
                    let q = choose|q: int| 0 <= q < vals.len() && #[trigger] vals[q] == w;
                    lemma_recorded_prefix(s0, i_, n as int);
                    assert(full[p] == v);
                    assert(recorded(s0, k as int)[recorded(s0, i_).len() + q] == w);
                    assert(full[recorded(s0, i_).len() + q] == w);
                }
                assert forall|v: u64, w: u64|
                    recorded_mems(s0, i_).contains(v) && vals.contains(w) implies v != w by {
                    lemma_mems_sub(s0, i_, v);
                }
                // within the slot the handle comes before, and below, the region
                assert forall|p: int, q: int| 0 <= p < q < vals.len() implies vals[p] < vals[q] by {
                    assert(recorded(s0, k as int)[recorded(s0, i_).len() + p] == vals[p]);
                    assert(recorded(s0, k as int)[recorded(s0, i_).len() + q] == vals[q]);
                    assert(full[recorded(s0, i_).len() + p] == vals[p]);
                    assert(full[recorded(s0, i_).len() + q] == vals[q]);
                }
            }
            let m = objects[i];
            match m {
                ResourceObjectCreateMetadata::Buffer { desc, handle, memory } => {
                    if handle != 0 {
                        proof {
                            assert(vals[0] == handle);
                            assert(vals.contains(handle));
                        }
                        self.device.destroy_buffer(handle);
                    }
                    match memory {
                        Some(a) => {
                            proof {
                                assert(mems[0] == a.memory);
                                assert(mems.contains(a.memory));
                                assert(vals[vals.len() - 1] == a.memory);
                                assert(vals.contains(a.memory));
                                if handle != 0 {
                                    assert(vals[0] == handle);
                                    assert(a.memory != handle);
                                }
                                self.allocator.lemma_bounded_monotone(
                                    old(self).used(),
                                    self.device.used(),
                                );
                            }
                            self.allocator.free(&mut self.device, a);
                        },
                        None => {},
                    }
                    set_slot(
                        objects,
                        i,
                        ResourceObjectCreateMetadata::Buffer { desc, handle: 0, memory: None },
                    );
                },
                ResourceObjectCreateMetadata::BufferView { desc, owner, handle } => {
                    if handle != 0 {
                        proof {
                            assert(vals[0] == handle);
                            assert(vals.contains(handle));
                        }
                        self.device.destroy_buffer_view(handle);
                    }
                    set_slot(
                        objects,
                        i,
                        ResourceObjectCreateMetadata::BufferView { desc, owner, handle: 0 },
                    );
                },
                ResourceObjectCreateMetadata::Image { desc, handle, memory } => {
                    if handle != 0 {
                        proof {
                            assert(vals[0] == handle);
                            assert(vals.contains(handle));
                        }
                        self.device.destroy_image(handle);
                    }
                    match memory {
                        Some(a) => {
                            proof {
                                assert(mems[0] == a.memory);
                                assert(mems.contains(a.memory));
                                assert(vals[vals.len() - 1] == a.memory);
                                assert(vals.contains(a.memory));
                                if handle != 0 {
                                    assert(vals[0] == handle);
                                    assert(a.memory != handle);
                                }
                                self.allocator.lemma_bounded_monotone(
                                    old(self).used(),
                                    self.device.used(),
                                );
                            }
                            self.allocator.free(&mut self.device, a);
                        },
                        None => {},
                    }
                    set_slot(
                        objects,
                        i,
                        ResourceObjectCreateMetadata::Image { desc, handle: 0, memory: None },
                    );
                },
                ResourceObjectCreateMetadata::ImageView { desc, owner, handle } => {
                    if handle != 0 {
                        proof {
                            assert(vals[0] == handle);
                            assert(vals.contains(handle));
                        }
                        self.device.destroy_image_view(handle);
                    }
                    set_slot(
                        objects,
                        i,
                        ResourceObjectCreateMetadata::ImageView { desc, owner, handle: 0 },
                    );
                },
            }
            proof {
                // the slot's teardown steps land on the log in order
                assert(self.log() =~= log_pre + slot_abort_ops(s0[i_]));
                assert(abort_ops(s0, k as int) == slot_abort_ops(s0[i_]) + abort_ops(s0, i_));
                assert((log_pre + slot_abort_ops(s0[i_])) + abort_ops(s0, i_) =~= log_pre + (
                slot_abort_ops(s0[i_]) + abort_ops(s0, i_)));
                // the slot's values leave the live set and its regions the pool
                assert forall|v: u64| vals.to_set().contains(v) implies !old(self).live()
                    .difference(full.to_set()).contains(v) by {}
                assert(self.live() =~= live_pre.difference(vals.to_set()));
                lemma_to_set_concat(recorded(s0, i_), vals);
                assert(self.live() =~= old(self).live().difference(full.to_set()).union(
                    recorded(s0, i_).to_set(),
                ));
                assert(self.outstanding() =~= out_pre.difference(mems.to_set()));
                lemma_to_set_concat(recorded_mems(s0, i_), mems);
                assert(self.outstanding() =~= old(self).outstanding().difference(
                    fullm.to_set(),
                ).union(recorded_mems(s0, i_).to_set()));
                assert(pristine(objects@[i_]));
                assert(reset(objects@[i_]) == reset(s0[i_]));
            }
            k = i;
        }
        proof {
            assert(recorded(s0, 0).to_set() =~= Set::<u64>::empty());
            assert(recorded_mems(s0, 0).to_set() =~= Set::<u64>::empty());
            assert(self.live() =~= old(self).live().difference(full.to_set()));
            assert(self.outstanding() =~= old(self).outstanding().difference(fullm.to_set()));
            assert(self.log() + abort_ops(s0, 0) =~= self.log());
        }
    }

    /// Reduces a fully created batch into its immutable objects and its
    /// retained allocations, both in creation order, splitting each slot's
    /// transient state into the datum to keep and the memory to keep.
    #[verifier::rlimit(60)]
    pub fn reduce_resource_objects(&self, objects: Vec<ResourceObjectCreateMetadata>) -> (r: (
        Vec<ResourceObjectData>,
        Vec<Allocation>,
    ))
        requires
            created_upto(objects@, objects@.len() as int),
            strictly_increasing(recorded(objects@, objects@.len() as int)),
        ensures
            r.0@.len() == objects@.len(),
            forall|i: int| 0 <= i < objects@.len() ==> r.0@[i] == reduce_of(objects@[i]),
            r.1@ == allocations_of(objects@, objects@.len() as int),
            crate::device::distinct_seq(data_handles(r.0@) + alloc_mems(r.1@)),
            (data_handles(r.0@) + alloc_mems(r.1@)).to_set() == recorded(
                objects@,
                objects@.len() as int,
            ).to_set(),
            alloc_mems(r.1@).to_set() == recorded_mems(objects@, objects@.len() as int).to_set(),
    {
        let ghost s = objects@;
        let n = objects.len();
        let mut data: Vec<ResourceObjectData> = Vec::new();
        let mut allocations: Vec<Allocation> = Vec::new();
        let mut i: usize = 0;
        proof {
            assert(data_handles(data@) =~= Seq::<u64>::empty());
            assert(alloc_mems(allocations@) =~= Seq::<u64>::empty());
            assert((data_handles(data@) + alloc_mems(allocations@)).to_set() =~= recorded(
                s,
                0,
            ).to_set());
            assert(alloc_mems(allocations@).to_set() =~= recorded_mems(s, 0).to_set());
        }
        while i < n
            invariant
                s == objects@,
                n == s.len(),
                0 <= i <= n,
                created_upto(s, n as int),
                strictly_increasing(recorded(s, n as int)),
                data@.len() == i,
                forall|j: int| 0 <= j < i ==> data@[j] == reduce_of(s[j]),
                allocations@ == allocations_of(s, i as int),
                crate::device::distinct_seq(data_handles(data@)),
                crate::device::distinct_seq(alloc_mems(allocations@)),
                forall|v: u64| data_handles(data@).contains(v) ==> !alloc_mems(
                    allocations@,
                ).contains(v),
                (data_handles(data@) + alloc_mems(allocations@)).to_set() == recorded(
                    s,
                    i as int,
                ).to_set(),
                alloc_mems(allocations@).to_set() == recorded_mems(s, i as int).to_set(),
            decreases n - i,
        {
            let ghost i_ = i as int;
            let ghost vals = slot_vals(s[i_]);
            let ghost old_handles = data_handles(data@);
            let ghost old_mems = alloc_mems(allocations@);
            proof {
                assert(created(s[i_]));
                assert(recorded(s, i_ + 1) == recorded(s, i_) + vals);
                assert(recorded_mems(s, i_ + 1) == recorded_mems(s, i_) + slot_mems(s[i_]));
                lemma_recorded_prefix(s, i_ + 1, n as int);
                // values of this slot never collide with anything recorded before
                assert forall|v: u64, w: u64|
                    recorded(s, i_).contains(v) && vals.contains(w) implies v != w by {
                    let p = choose|p: int|
                        0 <= p < recorded(s, i_).len() && #[trigger] recorded(s, i_)[p] == v;
                    let q = choose|q: int| 0 <= q < vals.len() && #[trigger] vals[q] == w;
                    lemma_recorded_prefix(s, i_, n as int);
                    assert(recorded(s, i_ + 1)[p] == v);
                    assert(recorded(s, n as int)[p] == v);
                    assert(recorded(s, i_ + 1)[recorded(s, i_).len() + q] == w);
                    assert(recorded(s, n as int)[recorded(s, i_).len() + q] == w);
                }
                assert forall|p: int, q: int| 0 <= p < q < vals.len() implies vals[p] < vals[q] by {
                    assert(recorded(s, i_ + 1)[recorded(s, i_).len() + p] == vals[p]);
                    assert(recorded(s, i_ + 1)[recorded(s, i_).len() + q] == vals[q]);
                    assert(recorded(s, n as int)[recorded(s, i_).len() + p] == vals[p]);
                    assert(recorded(s, n as int)[recorded(s, i_).len() + q] == vals[q]);
                }
            }
            let m = objects[i];
            let (d, alloc): (ResourceObjectData, Option<Allocation>) = match m {
                ResourceObjectCreateMetadata::Buffer { handle, memory, .. } => (
                    ResourceObjectData::Buffer { handle },
                    memory,
                ),
                ResourceObjectCreateMetadata::BufferView { handle, .. } => (
                    ResourceObjectData::BufferView { handle },
                    None,
                ),
                ResourceObjectCreateMetadata::Image { handle, memory, .. } => (
                    ResourceObjectData::Image { handle },
                    memory,
                ),
                ResourceObjectCreateMetadata::ImageView { handle, .. } => (
                    ResourceObjectData::ImageView { handle },
                    None,
                ),
            };
            proof {
                assert(d == reduce_of(s[i_]));
                assert(alloc == alloc_of(s[i_]));
                assert(data_handle(d) == vals[0]);
                assert(vals.contains(data_handle(d))) by {
                    assert(vals[0] == data_handle(d));
                }
            }
            data.push(d);
            proof {
                assert(data_handles(data@) =~= old_handles.push(data_handle(d)));
                assert(!old_handles.contains(data_handle(d))) by {
                    if old_handles.contains(data_handle(d)) {
                        let t = choose|t: int|
                            0 <= t < old_handles.len() && #[trigger] old_handles[t] == data_handle(
                                d,
                            );
                        assert((old_handles + old_mems)[t] == data_handle(d));
                        assert((old_handles + old_mems).to_set().contains(data_handle(d)));
                        assert(recorded(s, i_).to_set().contains(data_handle(d)));
                    }
                }
                lemma_distinct_push(old_handles, data_handle(d));
            }
            match alloc {
                Some(a) => {
                    proof {
                        assert(slot_mems(s[i_]) =~= seq![a.memory]);
                        assert(vals[vals.len() - 1] == a.memory);
                        assert(vals.contains(a.memory)) by {
                            assert(vals[vals.len() - 1] == a.memory);
                        }
                        assert(a.memory != data_handle(d));
                        assert(!old_mems.contains(a.memory)) by {
                            if old_mems.contains(a.memory) {
                                let t = choose|t: int|
                                    0 <= t < old_mems.len() && #[trigger] old_mems[t] == a.memory;
                                assert((old_handles + old_mems)[old_handles.len() + t]
                                    == a.memory);
                                assert((old_handles + old_mems).to_set().contains(a.memory));
                                assert(recorded(s, i_).to_set().contains(a.memory));
                            }
                        }
                        lemma_distinct_push(old_mems, a.memory);
                    }
                    allocations.push(a);
                    proof {
                        assert(alloc_mems(allocations@) =~= old_mems.push(a.memory));
                        assert(allocations@ =~= allocations_of(s, i_ + 1));
                    }
                },
                None => {
                    proof {
                        assert(slot_mems(s[i_]) =~= Seq::<u64>::empty());
                        assert(allocations@ =~= allocations_of(s, i_ + 1));
                    }
                },
            }
            proof {
                let new_handles = data_handles(data@);
                let new_mems = alloc_mems(allocations@);
                // cross-disjointness of handles and regions after this slot
                assert forall|v: u64| new_handles.contains(v) implies !new_mems.contains(v) by {
                    let p = choose|p: int|
                        0 <= p < new_handles.len() && #[trigger] new_handles[p] == v;
                    if new_mems.contains(v) {
                        let q = choose|q: int|
                            0 <= q < new_mems.len() && #[trigger] new_mems[q] == v;
                        if p < old_handles.len() {
                            assert(old_handles.contains(v)) by {
                                assert(old_handles[p] == v);
                            }
                            if q < old_mems.len() {
                                assert(old_mems.contains(v)) by {
                                    assert(old_mems[q] == v);
                                }
                            } else {
                                // an old handle equal to this slot's region
                                assert((old_handles + old_mems)[p] == v);
                                assert(recorded(s, i_).to_set().contains(v));
                                assert(vals.contains(v));
                            }
                        } else {
                            assert(v == data_handle(d));
                            if q < old_mems.len() {
                                assert((old_handles + old_mems)[old_handles.len() + q] == v);
                                assert(recorded(s, i_).to_set().contains(v));
                                assert(vals.contains(v));
                            } else {
                                assert(v == new_mems[new_mems.len() - 1]);
                            }
                        }
                    }
                }
                // the combined set grows by exactly this slot's values
                assert forall|x: u64| (new_handles + new_mems).to_set().contains(x) implies
                    recorded(s, i_ + 1).to_set().contains(x) by {
                    let t = choose|t: int|
                        0 <= t < (new_handles + new_mems).len() && #[trigger] (new_handles
                            + new_mems)[t] == x;
                    if t < new_handles.len() {
                        if t < old_handles.len() {
                            assert((old_handles + old_mems)[t] == x);
                            assert(recorded(s, i_).to_set().contains(x));
                            let u = choose|u: int|
                                0 <= u < recorded(s, i_).len() && #[trigger] recorded(s, i_)[u]
                                    == x;
                            assert(recorded(s, i_ + 1)[u] == x);
                        } else {
                            assert(x == data_handle(d));
                            assert(recorded(s, i_ + 1)[recorded(s, i_).len() as int] == vals[0]);
                        }
                    } else {
                        let q = t - new_handles.len();
                        if q < old_mems.len() {
                            assert((old_handles + old_mems)[old_handles.len() + q] == x);
                            assert(recorded(s, i_).to_set().contains(x));
                            let u = choose|u: int|
                                0 <= u < recorded(s, i_).len() && #[trigger] recorded(s, i_)[u]
                                    == x;
                            assert(recorded(s, i_ + 1)[u] == x);
                        } else {
                            assert(x == vals[vals.len() - 1]);
                            assert(recorded(s, i_ + 1)[recorded(s, i_).len() + vals.len() - 1]
                                == x);
                        }
                    }
                }
                assert forall|x: u64| recorded(s, i_ + 1).to_set().contains(x) implies (
                new_handles + new_mems).to_set().contains(x) by {
                    let u = choose|u: int|
                        0 <= u < recorded(s, i_ + 1).len() && #[trigger] recorded(s, i_ + 1)[u]
                            == x;
                    if u < recorded(s, i_).len() {
                        assert(recorded(s, i_)[u] == x);
                        assert(recorded(s, i_).to_set().contains(x));
                        assert((old_handles + old_mems).to_set().contains(x));
                        let t = choose|t: int|
                            0 <= t < (old_handles + old_mems).len() && #[trigger] (old_handles
                                + old_mems)[t] == x;
                        if t < old_handles.len() {
                            assert(new_handles[t] == x);
                            assert((new_handles + new_mems)[t] == x);
                        } else {
                            assert(new_mems[t - old_handles.len()] == x);
                            assert((new_handles + new_mems)[new_handles.len() + t
                                - old_handles.len()] == x);
                        }
                    } else {
                        let q = u - recorded(s, i_).len();
                        assert(vals[q] == x);
                        if q == 0 {
                            assert(new_handles[new_handles.len() - 1] == x);
                            assert((new_handles + new_mems)[new_handles.len() - 1] == x);
                        } else {
                            assert(x == vals[vals.len() - 1]);
                            assert(new_mems[new_mems.len() - 1] == x);
                            assert((new_handles + new_mems)[(new_handles + new_mems).len() - 1]
                                == x);
                        }
                    }
                }
                assert((new_handles + new_mems).to_set() =~= recorded(s, i_ + 1).to_set());
                // and the region set by exactly this slot's regions
                assert forall|x: u64| new_mems.to_set().contains(x) implies recorded_mems(
                    s,
                    i_ + 1,
                ).to_set().contains(x) by {
                    let t = choose|t: int|
                        0 <= t < new_mems.len() && #[trigger] new_mems[t] == x;
                    if t < old_mems.len() {
                        assert(old_mems[t] == x);
                        assert(recorded_mems(s, i_).to_set().contains(x));
                        let u = choose|u: int|
                            0 <= u < recorded_mems(s, i_).len() && #[trigger] recorded_mems(
                                s,
                                i_,
                            )[u] == x;
                        assert(recorded_mems(s, i_ + 1)[u] == x);
                    } else {
                        assert(x == slot_mems(s[i_])[0]);
                        assert(recorded_mems(s, i_ + 1)[recorded_mems(s, i_).len() as int] == x);
                    }
                }
                assert forall|x: u64| recorded_mems(s, i_ + 1).to_set().contains(x) implies
                    new_mems.to_set().contains(x) by {
                    let u = choose|u: int|
                        0 <= u < recorded_mems(s, i_ + 1).len() && #[trigger] recorded_mems(
                            s,
                            i_ + 1,
                        )[u] == x;
                    if u < recorded_mems(s, i_).len() {
                        assert(recorded_mems(s, i_)[u] == x);
                        assert(recorded_mems(s, i_).to_set().contains(x));
                        let t = choose|t: int|
                            0 <= t < old_mems.len() && #[trigger] old_mems[t] == x;
                        assert(new_mems[t] == x);
                    } else {
                        assert(slot_mems(s[i_])[u - recorded_mems(s, i_).len()] == x);
                        assert(new_mems[new_mems.len() - 1] == x);
                    }
                }
                assert(new_mems.to_set() =~= recorded_mems(s, i_ + 1).to_set());
            }
            i = i + 1;
        }
        proof {
            lemma_distinct_concat(data_handles(data@), alloc_mems(allocations@));
        }
        (data, allocations)
    }

    /// Destroys the objects of a set in exactly the reverse of their
    /// creation order, then frees every retained allocation.
    pub fn destroy_resource_objects(
        &mut self,
        objects: Vec<ResourceObjectData>,
        allocations: Vec<Allocation>,
    )
        requires
            old(self).wf(),
            crate::device::distinct_seq(data_handles(objects@) + alloc_mems(allocations@)),
            (data_handles(objects@) + alloc_mems(allocations@)).to_set().subset_of(
                old(self).live(),
            ),
            alloc_mems(allocations@).to_set().subset_of(old(self).outstanding()),
        ensures
            final(self).wf(),
            final(self).id() == old(self).id(),
            final(self).used() == old(self).used(),
            final(self).live() == old(self).live().difference(
                (data_handles(objects@) + alloc_mems(allocations@)).to_set(),
            ),
            final(self).outstanding() == old(self).outstanding().difference(
                alloc_mems(allocations@).to_set(),
            ),
            final(self).log() == old(self).log() + destroy_ops(objects@, objects@.len() as int)
                + free_ops(allocations@, allocations@.len() as int),
    {
        let ghost hs = data_handles(objects@);
        let ghost ms = alloc_mems(allocations@);
        let ghost combined = hs + ms;
        let n = objects.len();
        let a_len = allocations.len();
        let mut k = n;
        while k > 0
            invariant
                hs == data_handles(objects@),
                ms == alloc_mems(allocations@),
                combined == hs + ms,
                n == objects@.len(),
                a_len == allocations@.len(),
                0 <= k <= n,
                self.wf(),
                self.id() == old(self).id(),
                self.used() == old(self).used(),
                self.outstanding() == old(self).outstanding(),
                crate::device::distinct_seq(combined),
                combined.to_set().subset_of(old(self).live()),
                ms.to_set().subset_of(old(self).outstanding()),
                self.live() == old(self).live().difference(
                    hs.subrange(k as int, n as int).to_set(),
                ),
                old(self).log() + destroy_ops(objects@, n as int) == self.log() + destroy_ops(
                    objects@,
                    k as int,
                ),
            decreases k,
        {
            let i = k - 1;
            let ghost i_ = i as int;
            let ghost live_pre = self.live();
            let ghost log_pre = self.log();
            let d = objects[i];
            proof {
                assert(hs[i_] == data_handle(d));
                assert(combined[i_] == data_handle(d));
                assert(combined.to_set().contains(data_handle(d))) by {
                    assert(combined[i_] == data_handle(d));
                }
                // not yet destroyed: it sits before the removed suffix
                assert(!hs.subrange(k as int, n as int).contains(data_handle(d))) by {
                    if hs.subrange(k as int, n as int).contains(data_handle(d)) {
                        let t = choose|t: int|
                            0 <= t < hs.subrange(k as int, n as int).len() && #[trigger] hs
                                .subrange(k as int, n as int)[t] == data_handle(d);
                        assert(combined[k + t] == data_handle(d));
                    }
                }
                assert(self.live().contains(data_handle(d)));
            }
            match d {
                ResourceObjectData::Buffer { handle } => self.device.destroy_buffer(handle),
                ResourceObjectData::BufferView { handle } => self.device.destroy_buffer_view(
                    handle,
                ),
                ResourceObjectData::Image { handle } => self.device.destroy_image(handle),
                ResourceObjectData::ImageView { handle } => self.device.destroy_image_view(handle),
            }
            proof {
                assert(self.log() =~= log_pre.push(
                    crate::resource_object_set::data_destroy_op(d),
                ));
                assert(destroy_ops(objects@, k as int) == seq![
                    crate::resource_object_set::data_destroy_op(objects@[i_]),
                ] + destroy_ops(objects@, i_));
                assert((log_pre.push(crate::resource_object_set::data_destroy_op(d))) + destroy_ops(
                    objects@,
                    i_,
                ) =~= log_pre + (seq![crate::resource_object_set::data_destroy_op(objects@[i_])]
                    + destroy_ops(objects@, i_)));
                assert(hs.subrange(i_, n as int) =~= seq![hs[i_]] + hs.subrange(k as int, n as int));
                assert forall|x: u64|
                    hs.subrange(i_, n as int).to_set().contains(x) implies x == hs[i_]
                    || hs.subrange(k as int, n as int).to_set().contains(x) by {
                    let t = choose|t: int|
                        0 <= t < hs.subrange(i_, n as int).len() && #[trigger] hs.subrange(
                            i_,
                            n as int,
                        )[t] == x;
                    if t > 0 {
                        assert(hs.subrange(k as int, n as int)[t - 1] == x);
                    }
                }
                assert forall|x: u64|
                    hs.subrange(k as int, n as int).to_set().contains(x) implies hs.subrange(
                        i_,
                        n as int,
                    ).to_set().contains(x) by {
                    let t = choose|t: int|
                        0 <= t < hs.subrange(k as int, n as int).len() && #[trigger] hs.subrange(
                            k as int,
                            n as int,
                        )[t] == x;
                    assert(hs.subrange(i_, n as int)[t + 1] == x);
                }
                assert(hs.subrange(i_, n as int).to_set().contains(hs[i_])) by {
                    assert(hs.subrange(i_, n as int)[0] == hs[i_]);
                }
                assert(self.live() =~= old(self).live().difference(
                    hs.subrange(i_, n as int).to_set(),
                ));
            }
            k = i;
        }
        proof {
            assert(hs.subrange(0, n as int) =~= hs);
            assert(self.log() + destroy_ops(objects@, 0) =~= self.log());
            assert(self.log() =~= old(self).log() + destroy_ops(objects@, n as int));
        }
        let ghost mid_log = self.log();
        let mut j: usize = 0;
        while j < a_len
            invariant
                hs == data_handles(objects@),
                ms == alloc_mems(allocations@),
                combined == hs + ms,
                a_len == allocations@.len(),
                n == objects@.len(),
                0 <= j <= a_len,
                self.wf(),
                self.id() == old(self).id(),
                self.used() == old(self).used(),
                crate::device::distinct_seq(combined),
                combined.to_set().subset_of(old(self).live()),
                ms.to_set().subset_of(old(self).outstanding()),
                mid_log == old(self).log() + destroy_ops(objects@, n as int),
                self.live() == old(self).live().difference(hs.to_set()).difference(
                    ms.subrange(0, j as int).to_set(),
                ),
                self.outstanding() == old(self).outstanding().difference(
                    ms.subrange(0, j as int).to_set(),
                ),
                self.log() == mid_log + free_ops(allocations@, j as int),
            decreases a_len - j,
        {
            let ghost j_ = j as int;
            let ghost live_pre = self.live();
            let ghost out_pre = self.outstanding();
            let ghost log_pre = self.log();
            let a = allocations[j];
            proof {
                assert(ms[j_] == a.memory);
                assert(combined[hs.len() + j_] == a.memory);
                assert(combined.to_set().contains(a.memory)) by {
                    assert(combined[hs.len() + j_] == a.memory);
                }
                assert(ms.to_set().contains(a.memory)) by {
                    assert(ms[j_] == a.memory);
                }
                // the region is not among the destroyed handles
                assert(!hs.to_set().contains(a.memory)) by {
                    if hs.to_set().contains(a.memory) {
                        let t = choose|t: int| 0 <= t < hs.len() && #[trigger] hs[t] == a.memory;
                        assert(combined[t] == a.memory);
                    }
                }
                // and not freed yet
                assert(!ms.subrange(0, j_).to_set().contains(a.memory)) by {
                    if ms.subrange(0, j_).to_set().contains(a.memory) {
                        let t = choose|t: int|
                            0 <= t < ms.subrange(0, j_).len() && #[trigger] ms.subrange(0, j_)[t]
                                == a.memory;
                        assert(combined[hs.len() + t] == a.memory);
                    }
                }
                assert(self.live().contains(a.memory));
                assert(self.outstanding().contains(a.memory));
            }
            self.allocator.free(&mut self.device, a);
            proof {
                assert(ms.subrange(0, j_ + 1) =~= ms.subrange(0, j_).push(ms[j_]));
                assert forall|x: u64|
                    ms.subrange(0, j_ + 1).to_set().contains(x) implies x == a.memory
                    || ms.subrange(0, j_).to_set().contains(x) by {
                    let t = choose|t: int|
                        0 <= t < ms.subrange(0, j_ + 1).len() && #[trigger] ms.subrange(
                            0,
                            j_ + 1,
                        )[t] == x;
                    if t < j_ {
                        assert(ms.subrange(0, j_)[t] == x);
                    }
                }
                assert forall|x: u64|
                    ms.subrange(0, j_).to_set().contains(x) implies ms.subrange(
                        0,
                        j_ + 1,
                    ).to_set().contains(x) by {
                    let t = choose|t: int|
                        0 <= t < ms.subrange(0, j_).len() && #[trigger] ms.subrange(0, j_)[t] == x;
                    assert(ms.subrange(0, j_ + 1)[t] == x);
                }
                assert(ms.subrange(0, j_ + 1).to_set().contains(a.memory)) by {
                    assert(ms.subrange(0, j_ + 1)[j_] == a.memory);
                }
                assert(self.live() =~= old(self).live().difference(hs.to_set()).difference(
                    ms.subrange(0, j_ + 1).to_set(),
                ));
                assert(self.outstanding() =~= old(self).outstanding().difference(
                    ms.subrange(0, j_ + 1).to_set(),
                ));
                assert(free_ops(allocations@, j_ + 1) == free_ops(allocations@, j_) + seq![
                    crate::device::TeardownOp::FreeMemory(allocations@[j_].memory),
                ]);
                assert(self.log() =~= log_pre.push(crate::device::TeardownOp::FreeMemory(a.memory)));
                assert(self.log() =~= mid_log + free_ops(allocations@, j_ + 1));
            }
            j = j + 1;
        }
        proof {
            assert(ms.subrange(0, a_len as int) =~= ms);
            lemma_to_set_concat(hs, ms);
            assert(self.live() =~= old(self).live().difference(combined.to_set()));
        }
    }

    /// Drives one whole build: create in ascending order; on any failure
    /// abort everything in descending order, leaving the device and the
    /// allocator exactly as they were; on success reduce the batch into
    /// its objects and retained allocations.
    pub fn build_resource_objects(&mut self, objects: Vec<ResourceObjectCreateMetadata>) -> (r:
        Result<(Vec<ResourceObjectData>, Vec<Allocation>), ObjectCreateError>)
        requires
            old(self).wf(),
            batch_dep_wf(objects@),
            batch_pristine(objects@),
            old(self).used() + 2 * objects@.len() <= u64::MAX,
        ensures
            final(self).wf(),
            final(self).id() == old(self).id(),
            old(self).used() <= final(self).used(),
            r is Ok <==> batch_ok(objects@),
            r matches Ok(p) ==> {
                &&& p.0@.len() == objects@.len()
                &&& forall|i: int|
                    0 <= i < objects@.len() ==> kind_matches(objects@[i], #[trigger] p.0@[i]) && 1
                        <= data_handle(p.0@[i])
                &&& crate::device::distinct_seq(data_handles(p.0@) + alloc_mems(p.1@))
                &&& in_range(
                    data_handles(p.0@) + alloc_mems(p.1@),
                    old(self).used() as int,
                    final(self).used() as int,
                )
                &&& final(self).live() == old(self).live() + (data_handles(p.0@) + alloc_mems(
                    p.1@,
                )).to_set()
                &&& final(self).outstanding() == old(self).outstanding() + alloc_mems(
                    p.1@,
                ).to_set()
                &&& final(self).log() == old(self).log()
            },
            r is Err ==> ({
                let m = first_bad(objects@);
                &&& 0 <= m < objects@.len()
                &&& r == Result::<
                    (Vec<ResourceObjectData>, Vec<Allocation>),
                    ObjectCreateError,
                >::Err(expected_error(objects@, m))
                &&& final(self).live() == old(self).live()
                &&& final(self).outstanding() == old(self).outstanding()
                &&& old(self).log() == final(self).log().subrange(0, old(self).log().len() as int)
                &&& teardown_kinds(
                    final(self).log().subrange(
                        old(self).log().len() as int,
                        final(self).log().len() as int,
                    ),
                ) == partial_kinds(objects@, m) + abort_kinds(objects@, m)
            }),
    {
        let ghost s0 = objects@;
        let mut objects = objects;
        let res = self.create_resource_objects(&mut objects);
        let ghost s1 = objects@;
        let ghost n = s0.len() as int;
        match res {
            Ok(()) => {
                proof {
                    lemma_resets_decide_ok(s0, s1);
                }
                let reduced = self.reduce_resource_objects(objects);
                proof {
                    let hs = data_handles(reduced.0@);
                    let ms = alloc_mems(reduced.1@);
                    assert forall|i: int| 0 <= i < n implies kind_matches(
                        s0[i],
                        #[trigger] reduced.0@[i],
                    ) && 1 <= data_handle(reduced.0@[i]) by {
                        assert(reduced.0@[i] == reduce_of(s1[i]));
                        assert(created(s1[i]));
                        assert(reset(s0[i]) == reset(s1[i]));
                        match (s0[i], s1[i]) {
                            (
                                ResourceObjectCreateMetadata::Buffer { .. },
                                ResourceObjectCreateMetadata::Buffer { .. },
                            ) => {},
                            (
                                ResourceObjectCreateMetadata::BufferView { .. },
                                ResourceObjectCreateMetadata::BufferView { .. },
                            ) => {},
                            (
                                ResourceObjectCreateMetadata::Image { .. },
                                ResourceObjectCreateMetadata::Image { .. },
                            ) => {},
                            (
                                ResourceObjectCreateMetadata::ImageView { .. },
                                ResourceObjectCreateMetadata::ImageView { .. },
                            ) => {},
                            _ => {
                                assert(false);
                            },
                        }
                    }
                    // every combined value is a recorded value, so in range
                    assert forall|t: int| 0 <= t < (hs + ms).len() implies old(self).used() <= (
                    #[trigger] (hs + ms)[t]) < self.used() by {
                        assert((hs + ms).to_set().contains((hs + ms)[t])) by {
                            assert((hs + ms)[t] == (hs + ms)[t]);
                        }
                        assert(recorded(s1, n).to_set().contains((hs + ms)[t]));
                        let u = choose|u: int|
                            0 <= u < recorded(s1, n).len() && #[trigger] recorded(s1, n)[u] == (hs
                                + ms)[t];
                    }
                    assert(self.live() =~= old(self).live() + (hs + ms).to_set());
                    assert(self.outstanding() =~= old(self).outstanding() + ms.to_set());
                }
                Ok(reduced)
            },
            Err(e) => {
                let ghost m = first_bad(s0);
                let ghost live1 = self.live();
                let ghost log0 = old(self).log();
                proof {
                    assert forall|x: u64| recorded(s1, n).to_set().contains(x) implies self.live()
                        .contains(x) by {}
                    assert forall|x: u64|
                        recorded_mems(s1, n).to_set().contains(x) implies self.outstanding()
                        .contains(x) by {
                        lemma_mems_sub(s1, n, x);
                    }
                }
                self.abort_resource_objects(&mut objects);
                proof {
                    old(self).lemma_live_bounded();
                    let rec = recorded(s1, n);
                    let recm = recorded_mems(s1, n);
                    // a fresh value was never live and never outstanding before
                    assert forall|x: u64| rec.to_set().contains(x) implies !old(self).live()
                        .contains(x) by {
                        let u = choose|u: int| 0 <= u < rec.len() && #[trigger] rec[u] == x;
                    }
                    assert forall|x: u64| recm.to_set().contains(x) implies !old(self)
                        .outstanding()
                        .contains(x) by {
                        lemma_mems_sub(s1, n, x);
                        let u = choose|u: int| 0 <= u < rec.len() && #[trigger] rec[u] == x;
                    }
                    assert(self.live() =~= old(self).live());
                    assert(self.outstanding() =~= old(self).outstanding());
                    // the log grew by exactly the abort trace of the batch
                    assert(self.log() == log0 + abort_ops(s1, n));
                    assert(log0 =~= self.log().subrange(0, log0.len() as int));
                    assert(self.log().subrange(log0.len() as int, self.log().len() as int)
                        =~= abort_ops(s1, n));
                    // and that trace destroys, in descending order, exactly
                    // the kinds the rejected prefix was queued with
                    assert forall|j: int| m + 1 <= j < n implies pristine(#[trigger] s1[j]) by {
                        assert(s1[j] == s0[j]);
                    }
                    lemma_recorded_pristine_tail(s1, m + 1, n);
                    assert(abort_ops(s1, n) == abort_ops(s1, m + 1));
                    assert(abort_ops(s1, m + 1) == slot_abort_ops(s1[m]) + abort_ops(s1, m));
                    lemma_kinds_concat(slot_abort_ops(s1[m]), abort_ops(s1, m));
                    lemma_abort_ops_kinds(s1, m);
                    lemma_resets_decide_ok(s0, s1);
                    lemma_abort_kinds_resets(s0, s1, m);
                    if s0[m] matches ResourceObjectCreateMetadata::Buffer { desc, .. }
                        && desc.size >= 1 {
                        let handle = s1[m]->Buffer_handle;
                        assert(slot_abort_ops(s1[m]) =~= seq![
                            crate::device::TeardownOp::DestroyBuffer(handle),
                        ]);
                        assert(teardown_kinds(slot_abort_ops(s1[m])) =~= partial_kinds(s0, m));
                    } else {
                        assert(s1[m] == s0[m]);
                        assert(pristine(s1[m]));
                        assert(slot_abort_ops(s1[m]) =~= Seq::<
                            crate::device::TeardownOp,
                        >::empty());
                        assert(teardown_kinds(slot_abort_ops(s1[m])) =~= partial_kinds(s0, m));
                    }
                    assert(teardown_kinds(abort_ops(s1, n)) =~= partial_kinds(s0, m)
                        + abort_kinds(s0, m));
                }
                Err(e)
            },
        }
    }
}

/// Public object manager api: the owner of the device context and the
/// allocator. All groups and sets created from it carry its generated id,
/// and every operation on them must come back to the same manager.
pub struct ObjectManager {
    imp: ObjectManagerImpl,
}

/// A set is valid against a manager when it is internally consistent,
/// every handle and region of it is alive there, its regions are
/// outstanding in the allocator, its group's semaphore is alive, and the
/// group belongs to that manager.
pub open spec fn set_valid_in(set: ResourceObjectSet, m: ObjectManager) -> bool {
    &&& set.distinct_wf()
    &&& (data_handles(set.objects_seq()) + alloc_mems(set.allocations_seq())).to_set().subset_of(
        m.live(),
    )
    &&& alloc_mems(set.allocations_seq()).to_set().subset_of(m.outstanding())
    &&& m.live().contains(set.group().semaphore_id())
    &&& set.group().manager_id() == m.id()
}

impl ObjectManager {
    /// The generated id this manager is identified by.
    pub closed spec fn id(self) -> u64 {
        self.imp.id()
    }

    /// The handles currently alive on this manager's device.
    pub closed spec fn live(self) -> Set<u64> {
        self.imp.live()
    }

    /// The first handle the device has not handed out yet.
    pub closed spec fn used(self) -> u64 {
        self.imp.used()
    }

    /// Every destruction the device performed, oldest first.
    pub closed spec fn log(self) -> Seq<TeardownOp> {
        self.imp.log()
    }

    /// The memory regions handed out and not yet freed.
    pub closed spec fn outstanding(self) -> Set<u64> {
        self.imp.outstanding()
    }

    /// The manager's state is well formed.
    pub closed spec fn wf(self) -> bool {
        self.imp.wf()
    }

    /// Every live handle and outstanding region lies below the counter.
    pub proof fn lemma_live_bounded(self)
        requires
            self.wf(),
        ensures
            1 <= self.used(),
            forall|h: u64| self.live().contains(h) ==> 1 <= h < self.used(),
            forall|v: u64| self.outstanding().contains(v) ==> v < self.used(),
    {
        self.imp.lemma_live_bounded();
    }

    /// Creates a new manager around a device context, with an identity
    /// drawn from the injected id counter.
    pub fn new(device: DeviceContext, ids: &mut IdCounter) -> (r: ObjectManager)
        requires
            device.wf(),
            old(ids).spent() < u64::MAX,
        ensures
            r.wf(),
            r.id() == old(ids).spent(),
            final(ids).spent() == old(ids).spent() + 1,
            r.live() == device.live_handles(),
            r.used() == device.used(),
            r.log() == device.log(),
            r.outstanding() == Set::<u64>::empty(),
    {
        let uuid = ids.fresh_id();
        ObjectManager { imp: ObjectManagerImpl::new(device, uuid) }
    }

    /// The manager's generated id.
    pub fn get_uuid(&self) -> (r: u64)
        ensures
            r == self.id(),
    {
        self.imp.uuid
    }

    /// Whether a handle is currently alive on this manager's device.
    pub fn is_handle_live(&self, handle: u64) -> (r: bool)
        ensures
            r == self.live().contains(handle),
    {
        self.imp.device.is_live(handle)
    }

    /// Every destruction performed so far, oldest first.
    pub fn teardown_ops(&self) -> (r: &Vec<TeardownOp>)
        ensures
            r@ == self.log(),
    {
        self.imp.device.teardown_ops()
    }

    /// The number of handles the device has handed out so far.
    pub fn used_handles(&self) -> (r: u64)
        ensures
            r == self.used(),
    {
        self.imp.device.used_handles()
    }

    /// Creates a new synchronization group managed by this object
    /// manager, around a fresh timeline semaphore. The semaphore is fresh,
    /// so no two groups of one manager ever share one.
    pub fn create_synchronization_group(&mut self) -> (r: SynchronizationGroup)
        requires
            old(self).wf(),
            old(self).used() < u64::MAX,
        ensures
            final(self).wf(),
            final(self).id() == old(self).id(),
            r.manager_id() == old(self).id(),
            r.semaphore_id() == old(self).used(),
            !old(self).live().contains(r.semaphore_id()),
            final(self).live() == old(self).live().insert(r.semaphore_id()),
            final(self).used() == old(self).used() + 1,
            final(self).log() == old(self).log(),
            final(self).outstanding() == old(self).outstanding(),
    {
        let semaphore = self.imp.create_group_semaphore(0u64);
        let uuid = self.imp.uuid;
        SynchronizationGroup::new(uuid, semaphore)
    }

    /// Releases a synchronization group, destroying its semaphore:
    /// exactly one destruction lands on the log. The group must belong to
    /// this manager, its semaphore must still be alive, and no set may
    /// still depend on it.
    pub fn destroy_synchronization_group(&mut self, synchronization_group: SynchronizationGroup)
        requires
            old(self).wf(),
            synchronization_group.manager_id() == old(self).id(),
            old(self).live().contains(synchronization_group.semaphore_id()),
        ensures
            final(self).wf(),
            final(self).id() == old(self).id(),
            final(self).used() == old(self).used(),
            final(self).live() == old(self).live().remove(synchronization_group.semaphore_id()),
            final(self).log() == old(self).log().push(
                TeardownOp::DestroySemaphore(synchronization_group.semaphore_id()),
            ),
            final(self).outstanding() == old(self).outstanding(),
    {
        let semaphore = synchronization_group.get_semaphore_handle();
        self.imp.destroy_group_semaphore(semaphore)
    }

    /// Creates a new resource object set builder bound to the group. The
    /// group must belong to this manager; handing over a group of another
    /// manager is a contract violation.
    pub fn create_resource_object_set(&self, synchronization_group: SynchronizationGroup) -> (r:
        ResourceObjectSetBuilder)
        requires
            synchronization_group.manager_id() == self.id(),
        ensures
            r.wf(),
            r.group() == synchronization_group,
            r.requests_seq() == Seq::<ResourceObjectCreateMetadata>::empty(),
    {
        ResourceObjectSetBuilder::new(synchronization_group)
    }

    /// The checked form of `create_resource_object_set`: yields no
    /// builder when the group belongs to a different manager, before any
    /// device state is touched.
    pub fn try_create_resource_object_set(&self, synchronization_group: SynchronizationGroup)
        -> (r: Option<ResourceObjectSetBuilder>)
        ensures
            r is Some <==> synchronization_group.manager_id() == self.id(),
            r matches Some(b) ==> b.wf() && b.group() == synchronization_group
                && b.requests_seq() == Seq::<ResourceObjectCreateMetadata>::empty(),
    {
        if synchronization_group.get_manager_uuid() != self.get_uuid() {
            return None;
        }
        Some(ResourceObjectSetBuilder::new(synchronization_group))
    }

    /// Destroys the objects of a set in the reverse of their creation
    /// order, then frees its allocations. See the inner pass for the
    /// contract details.
    pub fn destroy_resource_objects(
        &mut self,
        objects: Vec<ResourceObjectData>,
        allocations: Vec<Allocation>,
    )
        requires
            old(self).wf(),
            crate::device::distinct_seq(data_handles(objects@) + alloc_mems(allocations@)),
            (data_handles(objects@) + alloc_mems(allocations@)).to_set().subset_of(
                old(self).live(),
            ),
            alloc_mems(allocations@).to_set().subset_of(old(self).outstanding()),
        ensures
            final(self).wf(),
            final(self).id() == old(self).id(),
            final(self).used() == old(self).used(),
            final(self).live() == old(self).live().difference(
                (data_handles(objects@) + alloc_mems(allocations@)).to_set(),
            ),
            final(self).outstanding() == old(self).outstanding().difference(
                alloc_mems(allocations@).to_set(),
            ),
            final(self).log() == old(self).log() + destroy_ops(objects@, objects@.len() as int)
                + free_ops(allocations@, allocations@.len() as int),
    {
        self.imp.destroy_resource_objects(objects, allocations)
    }

    /// Builds a queued batch; see the inner pass for the contract
    /// details. Success exactly when every queued description is one the
    /// device and the allocator accept.
    pub fn build_resource_objects(&mut self, objects: Vec<ResourceObjectCreateMetadata>) -> (r:
        Result<(Vec<ResourceObjectData>, Vec<Allocation>), ObjectCreateError>)
        requires
            old(self).wf(),
            batch_dep_wf(objects@),
            batch_pristine(objects@),
            old(self).used() + 2 * objects@.len() <= u64::MAX,
        ensures
            final(self).wf(),
            final(self).id() == old(self).id(),
            old(self).used() <= final(self).used(),
            r is Ok <==> batch_ok(objects@),
            r matches Ok(p) ==> {
                &&& p.0@.len() == objects@.len()
                &&& forall|i: int|
                    0 <= i < objects@.len() ==> kind_matches(objects@[i], #[trigger] p.0@[i]) && 1
                        <= data_handle(p.0@[i])
                &&& crate::device::distinct_seq(data_handles(p.0@) + alloc_mems(p.1@))
                &&& in_range(
                    data_handles(p.0@) + alloc_mems(p.1@),
                    old(self).used() as int,
                    final(self).used() as int,
                )
                &&& final(self).live() == old(self).live() + (data_handles(p.0@) + alloc_mems(
                    p.1@,
                )).to_set()
                &&& final(self).outstanding() == old(self).outstanding() + alloc_mems(
                    p.1@,
                ).to_set()
                &&& final(self).log() == old(self).log()
            },
            r is Err ==> ({
                let m = first_bad(objects@);
                &&& 0 <= m < objects@.len()
                &&& r == Result::<
                    (Vec<ResourceObjectData>, Vec<Allocation>),
                    ObjectCreateError,
                >::Err(expected_error(objects@, m))
                &&& final(self).live() == old(self).live()
                &&& final(self).outstanding() == old(self).outstanding()
                &&& old(self).log() == final(self).log().subrange(0, old(self).log().len() as int)
                &&& teardown_kinds(
                    final(self).log().subrange(
                        old(self).log().len() as int,
                        final(self).log().len() as int,
                    ),
                ) == partial_kinds(objects@, m) + abort_kinds(objects@, m)
            }),
    {
        self.imp.build_resource_objects(objects)
    }

    /// Destroys a whole resource object set: per-object destruction in
    /// exactly the reverse of build order, then every retained allocation
    /// freed. The group's semaphore is untouched and still alive
    /// afterwards; the group is handed back to the caller, who releases
    /// it once nothing else depends on it.
    pub fn destroy_resource_object_set(&mut self, set: ResourceObjectSet) -> (r:
        SynchronizationGroup)
        requires
            old(self).wf(),
            set_valid_in(set, *old(self)),
        ensures
            final(self).wf(),
            final(self).id() == old(self).id(),
            final(self).used() == old(self).used(),
            r == set.group(),
            final(self).live() == old(self).live().difference(
                (data_handles(set.objects_seq()) + alloc_mems(set.allocations_seq())).to_set(),
            ),
            final(self).live().contains(set.group().semaphore_id()),
            final(self).outstanding() == old(self).outstanding().difference(
                alloc_mems(set.allocations_seq()).to_set(),
            ),
            final(self).log() == old(self).log() + destroy_ops(
                set.objects_seq(),
                set.objects_seq().len() as int,
            ) + free_ops(set.allocations_seq(), set.allocations_seq().len() as int),
    {
        let ghost combined = data_handles(set.objects_seq()) + alloc_mems(set.allocations_seq());
        let ghost semaphore = set.group().semaphore_id();
        let (objects, allocations, synchronization_group) = set.into_parts();
        self.imp.destroy_resource_objects(objects, allocations);
        proof {
            if combined.to_set().contains(semaphore) {
                let t = choose|t: int|
                    0 <= t < combined.len() && #[trigger] combined[t] == semaphore;
                assert(combined.contains(semaphore));
            }
            assert(self.live().contains(semaphore));
        }
        synchronization_group
    }
}

impl PartialEq for ObjectManager {
    /// Managers are equal exactly when they are the same manager: their
    /// generated ids match.
    fn eq(&self, other: &Self) -> (r: bool) {
        self.imp.uuid == other.imp.uuid
    }
}

impl vstd::std_specs::cmp::PartialEqSpecImpl for ObjectManager {
    open spec fn obeys_eq_spec() -> bool {
        true
    }

    open spec fn eq_spec(&self, other: &ObjectManager) -> bool {
        self.id() == other.id()
    }
}

impl Eq for ObjectManager {

}

impl ResourceObjectSetBuilder {
    /// Consumes the builder and realizes the batch against its manager,
    /// with all-or-nothing semantics: either every queued object exists in
    /// the returned set, or none does and the device is exactly as it
    /// was. The manager must be the one the builder's group belongs to.
    pub fn build(self, manager: &mut ObjectManager) -> (r: Result<
        ResourceObjectSet,
        ObjectCreateError,
    >)
        requires
            self.wf(),
            old(manager).wf(),
            self.group().manager_id() == old(manager).id(),
            old(manager).live().contains(self.group().semaphore_id()),
            old(manager).used() + 2 * self.requests_seq().len() <= u64::MAX,
        ensures
            final(manager).wf(),
            final(manager).id() == old(manager).id(),
            old(manager).used() <= final(manager).used(),
            r is Ok <==> batch_ok(self.requests_seq()),
            r matches Ok(set) ==> {
                &&& set.group() == self.group()
                &&& set.objects_seq().len() == self.requests_seq().len()
                &&& forall|i: int|
                    0 <= i < self.requests_seq().len() ==> kind_matches(
                        self.requests_seq()[i],
                        #[trigger] set.objects_seq()[i],
                    ) && 1 <= data_handle(set.objects_seq()[i]) && data_handle(
                        set.objects_seq()[i],
                    ) != crate::NULL_HANDLE
                &&& set_valid_in(set, *final(manager))
                &&& in_range(
                    data_handles(set.objects_seq()) + alloc_mems(set.allocations_seq()),
                    old(manager).used() as int,
                    final(manager).used() as int,
                )
                &&& final(manager).live() == old(manager).live() + (data_handles(
                    set.objects_seq(),
                ) + alloc_mems(set.allocations_seq())).to_set()
                &&& final(manager).outstanding() == old(manager).outstanding() + alloc_mems(
                    set.allocations_seq(),
                ).to_set()
                &&& final(manager).log() == old(manager).log()
            },
            r is Err ==> ({
                let m = first_bad(self.requests_seq());
                &&& 0 <= m < self.requests_seq().len()
                &&& r == Result::<ResourceObjectSet, ObjectCreateError>::Err(
                    expected_error(self.requests_seq(), m),
                )
                &&& final(manager).live() == old(manager).live()
                &&& final(manager).outstanding() == old(manager).outstanding()
                &&& final(manager).live().contains(self.group().semaphore_id())
                &&& old(manager).log() == final(manager).log().subrange(
                    0,
                    old(manager).log().len() as int,
                )
                &&& teardown_kinds(
                    final(manager).log().subrange(
                        old(manager).log().len() as int,
                        final(manager).log().len() as int,
                    ),
                ) == partial_kinds(self.requests_seq(), m) + abort_kinds(self.requests_seq(), m)
            }),
    {
        let ghost requests = self.requests_seq();
        let ghost semaphore = self.group().semaphore_id();
        let (synchronization_group, queued) = self.into_parts();
        let built = manager.build_resource_objects(queued);
        match built {
            Ok((data, allocations)) => {
                let ghost hs = data_handles(data@);
                let ghost ms = alloc_mems(allocations@);
                proof {
                    old(manager).lemma_live_bounded();
                    // nothing of the batch collides with the semaphore,
                    // which was alive, hence below the old counter
                    assert(!(hs + ms).contains(semaphore)) by {
                        if (hs + ms).contains(semaphore) {
                            let t = choose|t: int|
                                0 <= t < (hs + ms).len() && #[trigger] (hs + ms)[t] == semaphore;
                            assert(old(manager).used() <= (hs + ms)[t]);
                            assert(semaphore < old(manager).used());
                        }
                    }
                    assert forall|i: int| 0 <= i < hs.len() implies 1 <= #[trigger] hs[i] by {
                        assert((hs + ms)[i] == hs[i]);
                        assert(old(manager).used() <= (hs + ms)[i]);
                    }
                    assert forall|i: int| 0 <= i < ms.len() implies 1 <= (
                    #[trigger] ms[i]) by {
                        assert((hs + ms)[hs.len() + i] == ms[i]);
                        assert(old(manager).used() <= (hs + ms)[hs.len() + i]);
                    }
                    assert forall|x: u64| (hs + ms).to_set().contains(x) implies final(manager)
                        .live()
                        .contains(x) by {}
                    assert forall|x: u64| ms.to_set().contains(x) implies final(manager)
                        .outstanding()
                        .contains(x) by {
                        let t = choose|t: int| 0 <= t < ms.len() && #[trigger] ms[t] == x;
                    }
                }
                let set = ResourceObjectSet::assemble(data, allocations, synchronization_group);
                proof {
                    assert forall|i: int| 0 <= i < set.objects_seq().len() implies 1 <= data_handle(
                        #[trigger] set.objects_seq()[i],
                    ) by {
                        assert(data_handles(set.objects_seq())[i] == data_handle(
                            set.objects_seq()[i],
                        ));
                    }
                    assert forall|i: int| 0 <= i < set.allocations_seq().len() implies 1 <= (
                    #[trigger] set.allocations_seq()[i]).memory by {
                        assert(alloc_mems(set.allocations_seq())[i]
                            == set.allocations_seq()[i].memory);
                    }
                }
                Ok(set)
            },
            Err(e) => Err(e),
        }
    }
}

} // verus!

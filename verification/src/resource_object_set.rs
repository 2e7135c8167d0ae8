//! Resource object batches: descriptions, transient create-time state, the
//! built objects, the builder, and the immutable object set.
//!
//! A batch is an ordered sequence of object descriptions in which a view
//! may depend on an earlier buffer or image of the same batch. The create
//! phase walks the slots in ascending order; a failure aborts the whole
//! batch in descending order; success reduces every slot into its immutable
//! object datum and its retained allocation.
use vstd::prelude::*;

use crate::MAX_ALLOCATION_SIZE;
use crate::MAX_IMAGE_DIMENSION;
use crate::allocator::Allocation;
use crate::allocator::AllocationError;
use crate::device::DeviceError;
use crate::device::TeardownOp;
use crate::synchronization_group::SynchronizationGroup;

verus! {

/// A contiguous range of a buffer, in bytes.
#[derive(Clone, Copy, PartialEq, Eq, Structural, Debug)]
pub struct BufferRange {
    pub offset: u64,
    pub length: u64,
}

/// What a buffer is created from.
#[derive(Clone, Copy, PartialEq, Eq, Structural, Debug)]
pub struct BufferDescription {
    /// Size of the buffer in bytes; the device rejects zero.
    pub size: u64,
    /// Usage flags of the buffer.
    pub usage: u32,
}

impl BufferDescription {
    pub fn new_simple(size: u64, usage: u32) -> (r: BufferDescription)
        ensures
            r == (BufferDescription { size, usage }),
    {
        BufferDescription { size, usage }
    }
}

/// What a buffer view is created from; the range must lie inside the
/// buffer it views.
#[derive(Clone, Copy, PartialEq, Eq, Structural, Debug)]
pub struct BufferViewDescription {
    pub range: BufferRange,
    /// Format code of the view; zero is the undefined format.
    pub format: u32,
}

impl BufferViewDescription {
    pub fn new_simple(range: BufferRange, format: u32) -> (r: BufferViewDescription)
        ensures
            r == (BufferViewDescription { range, format }),
    {
        BufferViewDescription { range, format }
    }
}

/// What an image is created from.
#[derive(Clone, Copy, PartialEq, Eq, Structural, Debug)]
pub struct ImageDescription {
    pub width: u32,
    pub height: u32,
    /// Format code of the image; zero is the undefined format.
    pub format: u32,
    /// Usage flags of the image.
    pub usage: u32,
}

impl ImageDescription {
    pub fn new_simple(width: u32, height: u32, format: u32, usage: u32) -> (r: ImageDescription)
        ensures
            r == (ImageDescription { width, height, format, usage }),
    {
        ImageDescription { width, height, format, usage }
    }
}

/// What an image view is created from; its format must match the image's.
#[derive(Clone, Copy, PartialEq, Eq, Structural, Debug)]
pub struct ImageViewDescription {
    pub view_type: u32,
    /// Format code of the view; must equal the viewed image's format.
    pub format: u32,
}

impl ImageViewDescription {
    pub fn new_simple(view_type: u32, format: u32) -> (r: ImageViewDescription)
        ensures
            r == (ImageViewDescription { view_type, format }),
    {
        ImageViewDescription { view_type, format }
    }
}

/// The ordinal position of an object inside its batch, and after a
/// successful build its permanent lookup key into the resulting set.
#[derive(Clone, Copy, PartialEq, Eq, Structural, Debug)]
pub struct ObjectId {
    index: usize,
}

impl ObjectId {
    /// The slot this id names.
    pub closed spec fn slot(self) -> int {
        self.index as int
    }

    /// The id of the object at the given ordinal position of a batch.
    pub fn from_index(index: usize) -> (r: ObjectId)
        ensures
            r.slot() == index,
    {
        ObjectId { index }
    }

    /// The slot this id names, as a plain index.
    pub fn get_index(&self) -> (r: usize)
        ensures
            r == self.slot(),
    {
        self.index
    }
}

/// Why a batch build failed.
#[derive(Clone, Copy, PartialEq, Eq, Structural, Debug)]
pub enum ObjectCreateError {
    /// The allocator could not provide memory for an object.
    Allocation(AllocationError),
    /// The device rejected an object's parameters.
    Device(DeviceError),
}

/// Per-object state during the create phase: the description it was queued
/// with, and the handle and memory acquired so far (a zero handle and no
/// memory before creation). Never escapes the builder and the manager.
#[derive(Clone, Copy)]
pub enum ResourceObjectCreateMetadata {
    Buffer { desc: BufferDescription, handle: u64, memory: Option<Allocation> },
    BufferView { desc: BufferViewDescription, owner: usize, handle: u64 },
    Image { desc: ImageDescription, handle: u64, memory: Option<Allocation> },
    ImageView { desc: ImageViewDescription, owner: usize, handle: u64 },
}

/// The built, immutable form of one object: its handle, tagged by kind.
#[derive(Clone, Copy, PartialEq, Eq, Structural, Debug)]
pub enum ResourceObjectData {
    Buffer { handle: u64 },
    BufferView { handle: u64 },
    Image { handle: u64 },
    ImageView { handle: u64 },
}

/// The kind of handle a teardown step destroys, used to state the order of
/// an abort or destruction pass without naming handle values.
#[derive(Clone, Copy, PartialEq, Eq, Structural, Debug)]
pub enum ResourceKind {
    Semaphore,
    Buffer,
    BufferView,
    Image,
    ImageView,
    Memory,
}

/// A fresh buffer request, before the create phase.
pub open spec fn buffer_request(desc: BufferDescription) -> ResourceObjectCreateMetadata {
    ResourceObjectCreateMetadata::Buffer { desc, handle: 0, memory: None }
}

/// A fresh buffer view request, depending on slot `owner`.
pub open spec fn buffer_view_request(desc: BufferViewDescription, owner: usize)
    -> ResourceObjectCreateMetadata {
    ResourceObjectCreateMetadata::BufferView { desc, owner, handle: 0 }
}

/// A fresh image request, before the create phase.
pub open spec fn image_request(desc: ImageDescription) -> ResourceObjectCreateMetadata {
    ResourceObjectCreateMetadata::Image { desc, handle: 0, memory: None }
}

/// A fresh image view request, depending on slot `owner`.
pub open spec fn image_view_request(desc: ImageViewDescription, owner: usize)
    -> ResourceObjectCreateMetadata {
    ResourceObjectCreateMetadata::ImageView { desc, owner, handle: 0 }
}

/// A slot that the create phase has not touched: no handle, no memory.
pub open spec fn pristine(m: ResourceObjectCreateMetadata) -> bool {
    match m {
        ResourceObjectCreateMetadata::Buffer { handle, memory, .. } => handle == 0 && memory
            is None,
        ResourceObjectCreateMetadata::BufferView { handle, .. } => handle == 0,
        ResourceObjectCreateMetadata::Image { handle, memory, .. } => handle == 0 && memory
            is None,
        ResourceObjectCreateMetadata::ImageView { handle, .. } => handle == 0,
    }
}

/// A slot the create phase has fully realized.
pub open spec fn created(m: ResourceObjectCreateMetadata) -> bool {
    match m {
        ResourceObjectCreateMetadata::Buffer { handle, memory, .. } => 1 <= handle && memory
            is Some,
        ResourceObjectCreateMetadata::BufferView { handle, .. } => 1 <= handle,
        ResourceObjectCreateMetadata::Image { handle, memory, .. } => 1 <= handle && memory
            is Some,
        ResourceObjectCreateMetadata::ImageView { handle, .. } => 1 <= handle,
    }
}

/// The slot with its create-time state stripped: what the caller queued.
pub open spec fn reset(m: ResourceObjectCreateMetadata) -> ResourceObjectCreateMetadata {
    match m {
        ResourceObjectCreateMetadata::Buffer { desc, .. } => buffer_request(desc),
        ResourceObjectCreateMetadata::BufferView { desc, owner, .. } => buffer_view_request(
            desc,
            owner,
        ),
        ResourceObjectCreateMetadata::Image { desc, .. } => image_request(desc),
        ResourceObjectCreateMetadata::ImageView { desc, owner, .. } => image_view_request(
            desc,
            owner,
        ),
    }
}

/// Two batches that queue the same descriptions in the same order.
pub open spec fn resets_match(a: Seq<ResourceObjectCreateMetadata>, b: Seq<
    ResourceObjectCreateMetadata,
>) -> bool {
    a.len() == b.len() && forall|i: int| 0 <= i < a.len() ==> reset(#[trigger] a[i]) == reset(b[i])
}

/// Every slot of the batch is untouched.
pub open spec fn batch_pristine(s: Seq<ResourceObjectCreateMetadata>) -> bool {
    forall|i: int| 0 <= i < s.len() ==> pristine(#[trigger] s[i])
}

/// Every slot below `k` is fully created.
pub open spec fn created_upto(s: Seq<ResourceObjectCreateMetadata>, k: int) -> bool {
    forall|i: int| 0 <= i < k ==> created(#[trigger] s[i])
}

/// Every slot from `k` on is untouched.
pub open spec fn pristine_from(s: Seq<ResourceObjectCreateMetadata>, k: int) -> bool {
    forall|i: int| k <= i < s.len() ==> pristine(#[trigger] s[i])
}

/// A view slot depends on a strictly earlier slot of the matching kind.
/// Forward or self references are contract violations and never enter a
/// batch.
pub open spec fn dep_wf(s: Seq<ResourceObjectCreateMetadata>, i: int) -> bool {
    match s[i] {
        ResourceObjectCreateMetadata::BufferView { owner, .. } => owner < i && s[owner as int]
            is Buffer,
        ResourceObjectCreateMetadata::ImageView { owner, .. } => owner < i && s[owner as int]
            is Image,
        _ => true,
    }
}

/// Every dependency of the batch points strictly backwards.
pub open spec fn batch_dep_wf(s: Seq<ResourceObjectCreateMetadata>) -> bool {
    forall|i: int| 0 <= i < s.len() ==> #[trigger] dep_wf(s, i)
}

/// Whether the device and allocator will accept slot `i` of the batch:
/// buffers must be nonempty and allocatable, views must lie inside their
/// dependency and carry a defined, matching format, images must have
/// extents the device supports.
pub open spec fn slot_ok(s: Seq<ResourceObjectCreateMetadata>, i: int) -> bool {
    match s[i] {
        ResourceObjectCreateMetadata::Buffer { desc, .. } => 1 <= desc.size <= MAX_ALLOCATION_SIZE,
        ResourceObjectCreateMetadata::BufferView { desc, owner, .. } => match s[owner as int] {
            ResourceObjectCreateMetadata::Buffer { desc: bd, .. } => 1 <= desc.range.length
                && desc.format != 0 && desc.range.offset + desc.range.length <= bd.size,
            _ => false,
        },
        ResourceObjectCreateMetadata::Image { desc, .. } => 1 <= desc.width <= MAX_IMAGE_DIMENSION
            && 1 <= desc.height <= MAX_IMAGE_DIMENSION && desc.format != 0,
        ResourceObjectCreateMetadata::ImageView { desc, owner, .. } => match s[owner as int] {
            ResourceObjectCreateMetadata::Image { desc: id, .. } => desc.format == id.format,
            _ => false,
        },
    }
}

/// Every slot of the batch will be accepted.
pub open spec fn batch_ok(s: Seq<ResourceObjectCreateMetadata>) -> bool {
    forall|i: int| 0 <= i < s.len() ==> #[trigger] slot_ok(s, i)
}

/// The first slot at or after `i` that will be rejected, or the length if
/// there is none.
pub open spec fn first_bad_from(s: Seq<ResourceObjectCreateMetadata>, i: int) -> int
    decreases s.len() - i,
{
    if i < 0 || i >= s.len() {
        s.len() as int
    } else if !slot_ok(s, i) {
        i
    } else {
        first_bad_from(s, i + 1)
    }
}

/// The first slot of the batch that will be rejected, or the length if
/// the whole batch will be accepted.
pub open spec fn first_bad(s: Seq<ResourceObjectCreateMetadata>) -> int {
    first_bad_from(s, 0)
}

/// `first_bad` names the least rejected slot: everything before it is
/// accepted, and it is the length exactly when the whole batch is.
pub proof fn lemma_first_bad_from(s: Seq<ResourceObjectCreateMetadata>, i: int)
    requires
        0 <= i <= s.len(),
    ensures
        i <= first_bad_from(s, i) <= s.len(),
        forall|j: int| i <= j < first_bad_from(s, i) ==> #[trigger] slot_ok(s, j),
        first_bad_from(s, i) < s.len() ==> !slot_ok(s, first_bad_from(s, i)),
    decreases s.len() - i,
{
    if i < s.len() && slot_ok(s, i) {
        lemma_first_bad_from(s, i + 1);
    }
}

/// The error a rejected slot surfaces as: a too-large buffer exhausts
/// device memory; everything else the device rejects as invalid.
pub open spec fn expected_error(s: Seq<ResourceObjectCreateMetadata>, m: int)
    -> ObjectCreateError {
    match s[m] {
        ResourceObjectCreateMetadata::Buffer { desc, .. } => if desc.size == 0 {
            ObjectCreateError::Device(DeviceError::InvalidParameters)
        } else {
            ObjectCreateError::Allocation(AllocationError::OutOfDeviceMemory)
        },
        _ => ObjectCreateError::Device(DeviceError::InvalidParameters),
    }
}

/// The handles and memory regions slot `m` holds, creation order: the
/// object handle first, then its memory region.
pub open spec fn slot_vals(m: ResourceObjectCreateMetadata) -> Seq<u64> {
    match m {
        ResourceObjectCreateMetadata::Buffer { handle, memory, .. } => (if handle != 0 {
            seq![handle]
        } else {
            Seq::<u64>::empty()
        }) + (match memory {
            Option::Some(a) => seq![a.memory],
            Option::None => Seq::<u64>::empty(),
        }),
        ResourceObjectCreateMetadata::BufferView { handle, .. } => if handle != 0 {
            seq![handle]
        } else {
            Seq::<u64>::empty()
        },
        ResourceObjectCreateMetadata::Image { handle, memory, .. } => (if handle != 0 {
            seq![handle]
        } else {
            Seq::<u64>::empty()
        }) + (match memory {
            Option::Some(a) => seq![a.memory],
            Option::None => Seq::<u64>::empty(),
        }),
        ResourceObjectCreateMetadata::ImageView { handle, .. } => if handle != 0 {
            seq![handle]
        } else {
            Seq::<u64>::empty()
        },
    }
}

/// The memory regions slot `m` holds.
pub open spec fn slot_mems(m: ResourceObjectCreateMetadata) -> Seq<u64> {
    match m {
        ResourceObjectCreateMetadata::Buffer { memory: Option::Some(a), .. } => seq![a.memory],
        ResourceObjectCreateMetadata::Image { memory: Option::Some(a), .. } => seq![a.memory],
        _ => Seq::<u64>::empty(),
    }
}

/// All handles and memory regions held by slots below `k`, slot order.
pub open spec fn recorded(s: Seq<ResourceObjectCreateMetadata>, k: int) -> Seq<u64>
    decreases k,
{
    if k <= 0 {
        Seq::<u64>::empty()
    } else {
        recorded(s, k - 1) + slot_vals(s[k - 1])
    }
}

/// All memory regions held by slots below `k`, slot order.
pub open spec fn recorded_mems(s: Seq<ResourceObjectCreateMetadata>, k: int) -> Seq<u64>
    decreases k,
{
    if k <= 0 {
        Seq::<u64>::empty()
    } else {
        recorded_mems(s, k - 1) + slot_mems(s[k - 1])
    }
}

/// The values of the sequence grow strictly from left to right.
pub open spec fn strictly_increasing(q: Seq<u64>) -> bool {
    forall|i: int, j: int| 0 <= i < j < q.len() ==> q[i] < q[j]
}

/// Every value of the sequence lies in `[lo, hi)`.
pub open spec fn in_range(q: Seq<u64>, lo: int, hi: int) -> bool {
    forall|i: int| 0 <= i < q.len() ==> lo <= #[trigger] q[i] < hi
}

/// The teardown steps that aborting slot `m` performs: destroy its object
/// handle if one was created, then free its memory if any was allocated.
pub open spec fn slot_abort_ops(m: ResourceObjectCreateMetadata) -> Seq<TeardownOp> {
    match m {
        ResourceObjectCreateMetadata::Buffer { handle, memory, .. } => (if handle != 0 {
            seq![TeardownOp::DestroyBuffer(handle)]
        } else {
            Seq::<TeardownOp>::empty()
        }) + (match memory {
            Option::Some(a) => seq![TeardownOp::FreeMemory(a.memory)],
            Option::None => Seq::<TeardownOp>::empty(),
        }),
        ResourceObjectCreateMetadata::BufferView { handle, .. } => if handle != 0 {
            seq![TeardownOp::DestroyBufferView(handle)]
        } else {
            Seq::<TeardownOp>::empty()
        },
        ResourceObjectCreateMetadata::Image { handle, memory, .. } => (if handle != 0 {
            seq![TeardownOp::DestroyImage(handle)]
        } else {
            Seq::<TeardownOp>::empty()
        }) + (match memory {
            Option::Some(a) => seq![TeardownOp::FreeMemory(a.memory)],
            Option::None => Seq::<TeardownOp>::empty(),
        }),
        ResourceObjectCreateMetadata::ImageView { handle, .. } => if handle != 0 {
            seq![TeardownOp::DestroyImageView(handle)]
        } else {
            Seq::<TeardownOp>::empty()
        },
    }
}

/// The teardown steps of aborting slots `k-1` down to `0`, in that order.
pub open spec fn abort_ops(s: Seq<ResourceObjectCreateMetadata>, k: int) -> Seq<TeardownOp>
    decreases k,
{
    if k <= 0 {
        Seq::<TeardownOp>::empty()
    } else {
        slot_abort_ops(s[k - 1]) + abort_ops(s, k - 1)
    }
}

/// The kind of handle one teardown step destroys.
pub open spec fn teardown_kind(op: TeardownOp) -> ResourceKind {
    match op {
        TeardownOp::DestroySemaphore(..) => ResourceKind::Semaphore,
        TeardownOp::DestroyBuffer(..) => ResourceKind::Buffer,
        TeardownOp::DestroyBufferView(..) => ResourceKind::BufferView,
        TeardownOp::DestroyImage(..) => ResourceKind::Image,
        TeardownOp::DestroyImageView(..) => ResourceKind::ImageView,
        TeardownOp::FreeMemory(..) => ResourceKind::Memory,
    }
}

/// The kinds of a teardown trace, step by step.
pub open spec fn teardown_kinds(ops: Seq<TeardownOp>) -> Seq<ResourceKind> {
    ops.map_values(|op: TeardownOp| teardown_kind(op))
}

/// The teardown kinds a fully created slot contributes on abort.
pub open spec fn slot_full_kinds(m: ResourceObjectCreateMetadata) -> Seq<ResourceKind> {
    match m {
        ResourceObjectCreateMetadata::Buffer { .. } => seq![
            ResourceKind::Buffer,
            ResourceKind::Memory,
        ],
        ResourceObjectCreateMetadata::BufferView { .. } => seq![ResourceKind::BufferView],
        ResourceObjectCreateMetadata::Image { .. } => seq![
            ResourceKind::Image,
            ResourceKind::Memory,
        ],
        ResourceObjectCreateMetadata::ImageView { .. } => seq![ResourceKind::ImageView],
    }
}

/// The teardown kinds of aborting the fully created slots `m-1` down to
/// `0`, in strictly descending slot order.
pub open spec fn abort_kinds(s: Seq<ResourceObjectCreateMetadata>, m: int) -> Seq<ResourceKind>
    decreases m,
{
    if m <= 0 {
        Seq::<ResourceKind>::empty()
    } else {
        slot_full_kinds(s[m - 1]) + abort_kinds(s, m - 1)
    }
}

/// The teardown kinds the rejected slot itself contributes: a buffer whose
/// creation succeeded but whose allocation failed leaves a handle behind;
/// every other rejection leaves its slot untouched.
pub open spec fn partial_kinds(s: Seq<ResourceObjectCreateMetadata>, m: int) -> Seq<ResourceKind> {
    match s[m] {
        ResourceObjectCreateMetadata::Buffer { desc, .. } => if desc.size >= 1 {
            seq![ResourceKind::Buffer]
        } else {
            Seq::<ResourceKind>::empty()
        },
        _ => Seq::<ResourceKind>::empty(),
    }
}

/// The immutable datum slot `m` reduces to once the batch succeeded.
pub open spec fn reduce_of(m: ResourceObjectCreateMetadata) -> ResourceObjectData {
    match m {
        ResourceObjectCreateMetadata::Buffer { handle, .. } => ResourceObjectData::Buffer { handle },
        ResourceObjectCreateMetadata::BufferView { handle, .. } => ResourceObjectData::BufferView {
            handle,
        },
        ResourceObjectCreateMetadata::Image { handle, .. } => ResourceObjectData::Image { handle },
        ResourceObjectCreateMetadata::ImageView { handle, .. } => ResourceObjectData::ImageView {
            handle,
        },
    }
}

/// The allocation slot `m` retains, if its object needed dedicated memory.
pub open spec fn alloc_of(m: ResourceObjectCreateMetadata) -> Option<Allocation> {
    match m {
        ResourceObjectCreateMetadata::Buffer { memory, .. } => memory,
        ResourceObjectCreateMetadata::Image { memory, .. } => memory,
        _ => Option::None,
    }
}

/// The allocations retained by slots below `k`, slot order.
pub open spec fn allocations_of(s: Seq<ResourceObjectCreateMetadata>, k: int) -> Seq<Allocation>
    decreases k,
{
    if k <= 0 {
        Seq::<Allocation>::empty()
    } else {
        allocations_of(s, k - 1) + (match alloc_of(s[k - 1]) {
            Option::Some(a) => seq![a],
            Option::None => Seq::<Allocation>::empty(),
        })
    }
}

/// The handle of a built object.
pub open spec fn data_handle(d: ResourceObjectData) -> u64 {
    match d {
        ResourceObjectData::Buffer { handle } => handle,
        ResourceObjectData::BufferView { handle } => handle,
        ResourceObjectData::Image { handle } => handle,
        ResourceObjectData::ImageView { handle } => handle,
    }
}

/// The handles of a sequence of built objects, slot order.
pub open spec fn data_handles(d: Seq<ResourceObjectData>) -> Seq<u64> {
    d.map_values(|x: ResourceObjectData| data_handle(x))
}

/// The memory region handles of a sequence of allocations, slot order.
pub open spec fn alloc_mems(a: Seq<Allocation>) -> Seq<u64> {
    a.map_values(|x: Allocation| x.memory)
}

/// The teardown step that destroys a built object.
pub open spec fn data_destroy_op(d: ResourceObjectData) -> TeardownOp {
    match d {
        ResourceObjectData::Buffer { handle } => TeardownOp::DestroyBuffer(handle),
        ResourceObjectData::BufferView { handle } => TeardownOp::DestroyBufferView(handle),
        ResourceObjectData::Image { handle } => TeardownOp::DestroyImage(handle),
        ResourceObjectData::ImageView { handle } => TeardownOp::DestroyImageView(handle),
    }
}

/// The teardown steps of destroying objects `k-1` down to `0`: exactly the
/// reverse of their build order.
pub open spec fn destroy_ops(d: Seq<ResourceObjectData>, k: int) -> Seq<TeardownOp>
    decreases k,
{
    if k <= 0 {
        Seq::<TeardownOp>::empty()
    } else {
        seq![data_destroy_op(d[k - 1])] + destroy_ops(d, k - 1)
    }
}

/// The teardown steps of freeing allocations `0` up to `k-1`, after all
/// objects are gone.
pub open spec fn free_ops(a: Seq<Allocation>, k: int) -> Seq<TeardownOp>
    decreases k,
{
    if k <= 0 {
        Seq::<TeardownOp>::empty()
    } else {
        free_ops(a, k - 1) + seq![TeardownOp::FreeMemory(a[k - 1].memory)]
    }
}

/// Whether a built object has the kind its request asked for.
pub open spec fn kind_matches(m: ResourceObjectCreateMetadata, d: ResourceObjectData) -> bool {
    match m {
        ResourceObjectCreateMetadata::Buffer { .. } => d is Buffer,
        ResourceObjectCreateMetadata::BufferView { .. } => d is BufferView,
        ResourceObjectCreateMetadata::Image { .. } => d is Image,
        ResourceObjectCreateMetadata::ImageView { .. } => d is ImageView,
    }
}

/// Every handle or memory region a created slot holds appears among the
/// recorded values of any longer prefix.
pub proof fn lemma_recorded_contains(s: Seq<ResourceObjectCreateMetadata>, j: int, k: int, v: u64)
    requires
        0 <= j < k <= s.len(),
        slot_vals(s[j]).contains(v),
    ensures
        recorded(s, k).contains(v),
    decreases k,
{
    if j == k - 1 {
        let idx = choose|idx: int| 0 <= idx < slot_vals(s[j]).len() && slot_vals(s[j])[idx] == v;
        assert(recorded(s, k)[recorded(s, k - 1).len() + idx] == v);
    } else {
        lemma_recorded_contains(s, j, k - 1, v);
        let idx = choose|idx: int|
            0 <= idx < recorded(s, k - 1).len() && #[trigger] recorded(s, k - 1)[idx] == v;
        assert(recorded(s, k)[idx] == v);
    }
}

/// The recorded values of a shorter prefix are an initial segment of the
/// recorded values of a longer one, and likewise for memory regions.
pub proof fn lemma_recorded_prefix(s: Seq<ResourceObjectCreateMetadata>, k: int, n: int)
    requires
        0 <= k <= n,
    ensures
        recorded(s, k).len() <= recorded(s, n).len(),
        forall|t: int| 0 <= t < recorded(s, k).len() ==> recorded(s, n)[t] == recorded(s, k)[t],
        recorded_mems(s, k).len() <= recorded_mems(s, n).len(),
        forall|t: int|
            0 <= t < recorded_mems(s, k).len() ==> recorded_mems(s, n)[t] == recorded_mems(s, k)[t],
    decreases n - k,
{
    if k < n {
        lemma_recorded_prefix(s, k, n - 1);
    }
}

/// Every memory region a slot prefix holds is among its recorded values.
pub proof fn lemma_mems_sub(s: Seq<ResourceObjectCreateMetadata>, k: int, v: u64)
    requires
        recorded_mems(s, k).contains(v),
    ensures
        recorded(s, k).contains(v),
    decreases k,
{
    if k <= 0 {
    } else {
        let pm = recorded_mems(s, k - 1);
        let idx = choose|idx: int|
            0 <= idx < recorded_mems(s, k).len() && #[trigger] recorded_mems(s, k)[idx] == v;
        if idx < pm.len() {
            assert(pm[idx] == v);
            lemma_mems_sub(s, k - 1, v);
            let t = choose|t: int|
                0 <= t < recorded(s, k - 1).len() && #[trigger] recorded(s, k - 1)[t] == v;
            assert(recorded(s, k)[t] == v);
        } else {
            assert(slot_mems(s[k - 1])[idx - pm.len()] == v);
            assert(slot_vals(s[k - 1]).contains(v)) by {
                match s[k - 1] {
                    ResourceObjectCreateMetadata::Buffer { handle, memory, .. } => {
                        assert(slot_vals(s[k - 1])[slot_vals(s[k - 1]).len() - 1] == v);
                    },
                    ResourceObjectCreateMetadata::Image { handle, memory, .. } => {
                        assert(slot_vals(s[k - 1])[slot_vals(s[k - 1]).len() - 1] == v);
                    },
                    _ => {},
                }
            }
            let t = choose|t: int|
                0 <= t < slot_vals(s[k - 1]).len() && #[trigger] slot_vals(s[k - 1])[t] == v;
            assert(recorded(s, k)[recorded(s, k - 1).len() + t] == v);
        }
    }
}

/// Every memory region of one slot is among the memory regions of any
/// prefix that covers it.
pub proof fn lemma_recorded_mems_contains(
    s: Seq<ResourceObjectCreateMetadata>,
    j: int,
    k: int,
    v: u64,
)
    requires
        0 <= j < k <= s.len(),
        slot_mems(s[j]).contains(v),
    ensures
        recorded_mems(s, k).contains(v),
    decreases k,
{
    if j == k - 1 {
        let idx = choose|idx: int|
            0 <= idx < slot_mems(s[j]).len() && #[trigger] slot_mems(s[j])[idx] == v;
        assert(recorded_mems(s, k)[recorded_mems(s, k - 1).len() + idx] == v);
    } else {
        lemma_recorded_mems_contains(s, j, k - 1, v);
        let idx = choose|idx: int|
            0 <= idx < recorded_mems(s, k - 1).len() && #[trigger] recorded_mems(s, k - 1)[idx]
                == v;
        assert(recorded_mems(s, k)[idx] == v);
    }
}

/// The recorded values, memory regions, retained allocations and abort
/// trace of a prefix depend only on the slots of that prefix.
pub proof fn lemma_recorded_frame(
    a: Seq<ResourceObjectCreateMetadata>,
    b: Seq<ResourceObjectCreateMetadata>,
    k: int,
)
    requires
        forall|j: int| 0 <= j < k ==> a[j] == b[j],
    ensures
        recorded(a, k) == recorded(b, k),
        recorded_mems(a, k) == recorded_mems(b, k),
        allocations_of(a, k) == allocations_of(b, k),
        abort_ops(a, k) == abort_ops(b, k),
    decreases k,
{
    if k > 0 {
        lemma_recorded_frame(a, b, k - 1);
    }
}

/// Untouched slots contribute nothing: the recorded values, memory
/// regions and abort trace of a prefix reach no further than its last
/// created slot.
pub proof fn lemma_recorded_pristine_tail(s: Seq<ResourceObjectCreateMetadata>, k: int, n: int)
    requires
        0 <= k <= n <= s.len(),
        forall|j: int| k <= j < n ==> pristine(#[trigger] s[j]),
    ensures
        recorded(s, n) == recorded(s, k),
        recorded_mems(s, n) == recorded_mems(s, k),
        abort_ops(s, n) == abort_ops(s, k),
    decreases n - k,
{
    if k < n {
        lemma_recorded_pristine_tail(s, k, n - 1);
        assert(slot_vals(s[n - 1]) == Seq::<u64>::empty());
        assert(slot_mems(s[n - 1]) == Seq::<u64>::empty());
        assert(slot_abort_ops(s[n - 1]) == Seq::<TeardownOp>::empty());
        assert(recorded(s, n) =~= recorded(s, n - 1));
        assert(recorded_mems(s, n) =~= recorded_mems(s, n - 1));
        assert(abort_ops(s, n) =~= abort_ops(s, n - 1));
    }
}

/// Concatenating two strictly increasing sequences over adjacent ranges
/// yields a strictly increasing sequence over the joined range.
pub proof fn lemma_increasing_concat(a: Seq<u64>, b: Seq<u64>, lo: int, mid: int, hi: int)
    requires
        strictly_increasing(a),
        strictly_increasing(b),
        in_range(a, lo, mid),
        in_range(b, mid, hi),
        lo <= mid <= hi,
    ensures
        strictly_increasing(a + b),
        in_range(a + b, lo, hi),
{
    assert forall|i: int, j: int| 0 <= i < j < (a + b).len() implies (a + b)[i] < (a + b)[j] by {
        if j < a.len() {
        } else if i >= a.len() {
            assert((a + b)[i] == b[i - a.len()]);
            assert((a + b)[j] == b[j - a.len()]);
        } else {
            assert((a + b)[i] == a[i]);
            assert((a + b)[j] == b[j - a.len()]);
        }
    }
    assert forall|i: int| 0 <= i < (a + b).len() implies lo <= #[trigger] (a + b)[i] < hi by {
        if i < a.len() {
            assert((a + b)[i] == a[i]);
        } else {
            assert((a + b)[i] == b[i - a.len()]);
        }
    }
}

/// The set of a concatenation is the union of the sets.
pub proof fn lemma_to_set_concat(a: Seq<u64>, b: Seq<u64>)
    ensures
        (a + b).to_set() == a.to_set() + b.to_set(),
{
    assert forall|x: u64| (a + b).to_set().contains(x) implies (a.to_set() + b.to_set()).contains(
        x,
    ) by {
        let i = choose|i: int| 0 <= i < (a + b).len() && (a + b)[i] == x;
        if i < a.len() {
            assert(a[i] == x);
        } else {
            assert(b[i - a.len()] == x);
        }
    }
    assert forall|x: u64| (a.to_set() + b.to_set()).contains(x) implies (a + b).to_set().contains(
        x,
    ) by {
        if a.to_set().contains(x) {
            let i = choose|i: int| 0 <= i < a.len() && a[i] == x;
            assert((a + b)[i] == x);
        } else {
            let i = choose|i: int| 0 <= i < b.len() && b[i] == x;
            assert((a + b)[a.len() + i] == x);
        }
    }
    assert((a + b).to_set() =~= a.to_set() + b.to_set());
}

/// Appending a value no position holds keeps the sequence duplicate-free.
pub proof fn lemma_distinct_push(q: Seq<u64>, v: u64)
    requires
        crate::device::distinct_seq(q),
        !q.contains(v),
    ensures
        crate::device::distinct_seq(q.push(v)),
{
    assert forall|i: int, j: int| 0 <= i < j < q.push(v).len() implies q.push(v)[i] != q.push(
        v,
    )[j] by {
        if j == q.len() {
            assert(q.push(v)[i] == q[i]);
            if q[i] == v {
                assert(q.contains(v));
            }
        } else {
            assert(q.push(v)[i] == q[i]);
            assert(q.push(v)[j] == q[j]);
        }
    }
}

/// Concatenating two duplicate-free sequences that share no value yields
/// a duplicate-free sequence.
pub proof fn lemma_distinct_concat(a: Seq<u64>, b: Seq<u64>)
    requires
        crate::device::distinct_seq(a),
        crate::device::distinct_seq(b),
        forall|v: u64| a.contains(v) ==> !b.contains(v),
    ensures
        crate::device::distinct_seq(a + b),
{
    assert forall|i: int, j: int| 0 <= i < j < (a + b).len() implies (a + b)[i] != (a + b)[j] by {
        if j < a.len() {
        } else if i >= a.len() {
            assert((a + b)[i] == b[i - a.len()]);
            assert((a + b)[j] == b[j - a.len()]);
        } else {
            assert((a + b)[i] == a[i]);
            assert((a + b)[j] == b[j - a.len()]);
            if a[i] == b[j - a.len()] {
                assert(a.contains(a[i]));
                assert(b.contains(b[j - a.len()]));
            }
        }
    }
}

/// Mapping a teardown trace to its kinds distributes over concatenation.
pub proof fn lemma_kinds_concat(a: Seq<TeardownOp>, b: Seq<TeardownOp>)
    ensures
        teardown_kinds(a + b) == teardown_kinds(a) + teardown_kinds(b),
{
    assert(teardown_kinds(a + b) =~= teardown_kinds(a) + teardown_kinds(b));
}

/// Acceptance of a slot, the dependency discipline, the first rejected
/// slot and the error it surfaces as are all decided by the queued
/// descriptions alone; the create-time state of the slots plays no part.
pub proof fn lemma_resets_decide_ok(
    a: Seq<ResourceObjectCreateMetadata>,
    b: Seq<ResourceObjectCreateMetadata>,
)
    requires
        resets_match(a, b),
        batch_dep_wf(a),
    ensures
        batch_dep_wf(b),
        forall|i: int| 0 <= i < a.len() ==> #[trigger] slot_ok(a, i) == slot_ok(b, i),
        forall|m: int| 0 <= m < a.len() ==> #[trigger] expected_error(a, m) == expected_error(b, m),
        forall|m: int| 0 <= m < a.len() ==> #[trigger] partial_kinds(a, m) == partial_kinds(b, m),
        batch_ok(a) == batch_ok(b),
        first_bad(a) == first_bad(b),
{
    assert forall|i: int| 0 <= i < b.len() implies #[trigger] dep_wf(b, i) by {
        assert(dep_wf(a, i));
        assert(reset(a[i]) == reset(b[i]));
        match a[i] {
            ResourceObjectCreateMetadata::Buffer { .. } => {},
            ResourceObjectCreateMetadata::BufferView { owner, .. } => {
                assert(reset(a[owner as int]) == reset(b[owner as int]));
                match b[i] {
                    ResourceObjectCreateMetadata::BufferView { .. } => {},
                    _ => {
                        assert(false);
                    },
                }
            },
            ResourceObjectCreateMetadata::Image { .. } => {},
            ResourceObjectCreateMetadata::ImageView { owner, .. } => {
                assert(reset(a[owner as int]) == reset(b[owner as int]));
                match b[i] {
                    ResourceObjectCreateMetadata::ImageView { .. } => {},
                    _ => {
                        assert(false);
                    },
                }
            },
        }
    }
    assert forall|i: int| 0 <= i < a.len() implies #[trigger] slot_ok(a, i) == slot_ok(b, i) by {
        assert(dep_wf(a, i));
        assert(reset(a[i]) == reset(b[i]));
        match a[i] {
            ResourceObjectCreateMetadata::Buffer { .. } => {},
            ResourceObjectCreateMetadata::BufferView { owner, .. } => {
                assert(reset(a[owner as int]) == reset(b[owner as int]));
                match b[i] {
                    ResourceObjectCreateMetadata::BufferView { .. } => {},
                    _ => {
                        assert(false);
                    },
                }
            },
            ResourceObjectCreateMetadata::Image { .. } => {},
            ResourceObjectCreateMetadata::ImageView { owner, .. } => {
                assert(reset(a[owner as int]) == reset(b[owner as int]));
                match b[i] {
                    ResourceObjectCreateMetadata::ImageView { .. } => {},
                    _ => {
                        assert(false);
                    },
                }
            },
        }
    }
    assert forall|m: int| 0 <= m < a.len() implies #[trigger] expected_error(a, m)
        == expected_error(b, m) by {
        assert(reset(a[m]) == reset(b[m]));
    }
    assert forall|m: int| 0 <= m < a.len() implies #[trigger] partial_kinds(a, m) == partial_kinds(
        b,
        m,
    ) by {
        assert(reset(a[m]) == reset(b[m]));
    }
    if batch_ok(a) {
        assert forall|i: int| 0 <= i < b.len() implies #[trigger] slot_ok(b, i) by {
            assert(slot_ok(a, i));
        }
    } else {
        let i = choose|i: int| 0 <= i < a.len() && !(#[trigger] slot_ok(a, i));
        assert(!slot_ok(b, i));
    }
    lemma_first_bad_from(a, 0);
    lemma_first_bad_from(b, 0);
    let fa = first_bad(a);
    if fa < a.len() {
        assert forall|j: int| 0 <= j < fa implies #[trigger] slot_ok(b, j) by {
            assert(slot_ok(a, j));
        }
        assert(!slot_ok(b, fa));
        lemma_first_bad_is(b, fa);
    } else {
        let fb = first_bad(b);
        if fb < b.len() {
            assert(slot_ok(a, fb));
            assert(!slot_ok(b, fb));
        }
    }
}

/// The abort kinds of a prefix are decided by the queued descriptions
/// alone.
pub proof fn lemma_abort_kinds_resets(
    a: Seq<ResourceObjectCreateMetadata>,
    b: Seq<ResourceObjectCreateMetadata>,
    m: int,
)
    requires
        m <= a.len(),
        resets_match(a, b),
    ensures
        abort_kinds(a, m) == abort_kinds(b, m),
    decreases m,
{
    if m > 0 {
        lemma_abort_kinds_resets(a, b, m - 1);
        assert(reset(a[m - 1]) == reset(b[m - 1]));
        assert(slot_full_kinds(a[m - 1]) == slot_full_kinds(b[m - 1])) by {
            match (a[m - 1], b[m - 1]) {
                (
                    ResourceObjectCreateMetadata::Buffer { .. },
                    ResourceObjectCreateMetadata::Buffer { .. },
                ) => {},
                (
                    ResourceObjectCreateMetadata::BufferView { .. },
                    ResourceObjectCreateMetadata::BufferView { .. },
                ) => {},
                (
                    ResourceObjectCreateMetadata::Image { .. },
                    ResourceObjectCreateMetadata::Image { .. },
                ) => {},
                (
                    ResourceObjectCreateMetadata::ImageView { .. },
                    ResourceObjectCreateMetadata::ImageView { .. },
                ) => {},
                _ => {
                    assert(false);
                },
            }
        }
    }
}

/// When every slot before `i` is accepted and slot `i` is rejected, `i`
/// is the first rejected slot.
pub proof fn lemma_first_bad_is(s: Seq<ResourceObjectCreateMetadata>, i: int)
    requires
        0 <= i < s.len(),
        forall|j: int| 0 <= j < i ==> #[trigger] slot_ok(s, j),
        !slot_ok(s, i),
    ensures
        first_bad(s) == i,
{
    lemma_first_bad_step(s, 0, i);
}

/// Helper induction for `lemma_first_bad_is`, walking `first_bad_from`.
proof fn lemma_first_bad_step(s: Seq<ResourceObjectCreateMetadata>, j: int, i: int)
    requires
        0 <= j <= i < s.len(),
        forall|k: int| j <= k < i ==> #[trigger] slot_ok(s, k),
        !slot_ok(s, i),
    ensures
        first_bad_from(s, j) == i,
    decreases i - j,
{
    if j < i {
        assert(slot_ok(s, j));
        lemma_first_bad_step(s, j + 1, i);
    }
}

/// The abort trace of a fully created prefix destroys, slot by slot in
/// descending order, exactly the kinds those slots were queued with.
pub proof fn lemma_abort_ops_kinds(s: Seq<ResourceObjectCreateMetadata>, m: int)
    requires
        m <= s.len(),
        created_upto(s, m),
    ensures
        teardown_kinds(abort_ops(s, m)) == abort_kinds(s, m),
    decreases m,
{
    if m > 0 {
        lemma_abort_ops_kinds(s, m - 1);
        assert(created(s[m - 1]));
        lemma_kinds_concat(slot_abort_ops(s[m - 1]), abort_ops(s, m - 1));
        assert(teardown_kinds(slot_abort_ops(s[m - 1])) =~= slot_full_kinds(s[m - 1]));
        assert(teardown_kinds(abort_ops(s, m)) =~= abort_kinds(s, m));
    } else {
        assert(teardown_kinds(abort_ops(s, m)) =~= abort_kinds(s, m));
    }
}

/// Accumulates object descriptions for one batch, bound to the
/// synchronization group the built set will live under.
pub struct ResourceObjectSetBuilder {
    synchronization_group: SynchronizationGroup,
    requests: Vec<ResourceObjectCreateMetadata>,
}

impl ResourceObjectSetBuilder {
    /// The group every object of this batch will be protected by.
    pub closed spec fn group(self) -> SynchronizationGroup {
        self.synchronization_group
    }

    /// The queued requests, in the order their ids were handed out.
    pub closed spec fn requests_seq(self) -> Seq<ResourceObjectCreateMetadata> {
        self.requests@
    }

    /// Every queued request is untouched and depends only backwards.
    pub open spec fn wf(self) -> bool {
        batch_pristine(self.requests_seq()) && batch_dep_wf(self.requests_seq())
    }

    /// A builder starts empty. Builders are created by the manager, which
    /// checks that the group belongs to it.
    pub(crate) fn new(synchronization_group: SynchronizationGroup) -> (r: ResourceObjectSetBuilder)
        ensures
            r.wf(),
            r.group() == synchronization_group,
            r.requests_seq() == Seq::<ResourceObjectCreateMetadata>::empty(),
    {
        ResourceObjectSetBuilder { synchronization_group, requests: Vec::new() }
    }

    /// Queues a device-local buffer; its id is its position in the batch.
    pub fn add_default_gpu_only_buffer(&mut self, desc: BufferDescription) -> (id: ObjectId)
        requires
            old(self).wf(),
            old(self).requests_seq().len() < usize::MAX,
        ensures
            final(self).wf(),
            final(self).group() == old(self).group(),
            final(self).requests_seq() == old(self).requests_seq().push(buffer_request(desc)),
            id.slot() == old(self).requests_seq().len(),
    {
        let id = ObjectId::from_index(self.requests.len());
        self.requests.push(ResourceObjectCreateMetadata::Buffer { desc, handle: 0, memory: None });
        proof {
            let s = final(self).requests_seq();
            assert forall|i: int| 0 <= i < s.len() implies pristine(#[trigger] s[i])
                && dep_wf(s, i) by {
                if i < s.len() - 1 {
                    assert(s[i] == old(self).requests_seq()[i]);
                    assert(dep_wf(old(self).requests_seq(), i));
                }
            }
        }
        id
    }

    /// Queues a device-local image; its id is its position in the batch.
    pub fn add_default_gpu_only_image(&mut self, desc: ImageDescription) -> (id: ObjectId)
        requires
            old(self).wf(),
            old(self).requests_seq().len() < usize::MAX,
        ensures
            final(self).wf(),
            final(self).group() == old(self).group(),
            final(self).requests_seq() == old(self).requests_seq().push(image_request(desc)),
            id.slot() == old(self).requests_seq().len(),
    {
        let id = ObjectId::from_index(self.requests.len());
        self.requests.push(ResourceObjectCreateMetadata::Image { desc, handle: 0, memory: None });
        proof {
            let s = final(self).requests_seq();
            assert forall|i: int| 0 <= i < s.len() implies pristine(#[trigger] s[i])
                && dep_wf(s, i) by {
                if i < s.len() - 1 {
                    assert(s[i] == old(self).requests_seq()[i]);
                    assert(dep_wf(old(self).requests_seq(), i));
                }
            }
        }
        id
    }

    /// Queues a view over a buffer queued earlier in this same batch.
    /// Naming a slot that is not an earlier buffer of the batch is a
    /// contract violation.
    pub fn add_internal_buffer_view(&mut self, desc: BufferViewDescription, buffer: ObjectId) -> (id:
        ObjectId)
        requires
            old(self).wf(),
            old(self).requests_seq().len() < usize::MAX,
            0 <= buffer.slot() < old(self).requests_seq().len(),
            old(self).requests_seq()[buffer.slot()] is Buffer,
        ensures
            final(self).wf(),
            final(self).group() == old(self).group(),
            final(self).requests_seq() == old(self).requests_seq().push(
                buffer_view_request(desc, buffer.slot() as usize),
            ),
            id.slot() == old(self).requests_seq().len(),
    {
        let id = ObjectId::from_index(self.requests.len());
        let owner = buffer.get_index();
        self.requests.push(ResourceObjectCreateMetadata::BufferView { desc, owner, handle: 0 });
        proof {
            let s = final(self).requests_seq();
            assert forall|i: int| 0 <= i < s.len() implies pristine(#[trigger] s[i])
                && dep_wf(s, i) by {
                if i < s.len() - 1 {
                    assert(s[i] == old(self).requests_seq()[i]);
                    assert(dep_wf(old(self).requests_seq(), i));
                } else {
                    assert(s[buffer.slot()] == old(self).requests_seq()[buffer.slot()]);
                }
            }
        }
        id
    }

    /// The checked form of `add_internal_buffer_view`: queues nothing and
    /// yields nothing when the dependency id does not name an earlier
    /// buffer of this batch.
    pub fn try_add_internal_buffer_view(&mut self, desc: BufferViewDescription, buffer: ObjectId)
        -> (r: Option<ObjectId>)
        requires
            old(self).wf(),
            old(self).requests_seq().len() < usize::MAX,
        ensures
            final(self).wf(),
            final(self).group() == old(self).group(),
            r is Some <==> 0 <= buffer.slot() < old(self).requests_seq().len() && old(
                self,
            ).requests_seq()[buffer.slot()] is Buffer,
            r matches Some(id) ==> final(self).requests_seq() == old(self).requests_seq().push(
                buffer_view_request(desc, buffer.slot() as usize),
            ) && id.slot() == old(self).requests_seq().len(),
            r is None ==> *final(self) == *old(self),
    {
        let index = buffer.get_index();
        if index >= self.requests.len() {
            return None;
        }
        let is_buffer = match &self.requests[index] {
            ResourceObjectCreateMetadata::Buffer { .. } => true,
            _ => false,
        };
        if !is_buffer {
            return None;
        }
        Some(self.add_internal_buffer_view(desc, buffer))
    }

    /// Queues a view over an image queued earlier in this same batch.
    /// Naming a slot that is not an earlier image of the batch is a
    /// contract violation.
    pub fn add_internal_image_view(&mut self, desc: ImageViewDescription, image: ObjectId) -> (id:
        ObjectId)
        requires
            old(self).wf(),
            old(self).requests_seq().len() < usize::MAX,
            0 <= image.slot() < old(self).requests_seq().len(),
            old(self).requests_seq()[image.slot()] is Image,
        ensures
            final(self).wf(),
            final(self).group() == old(self).group(),
            final(self).requests_seq() == old(self).requests_seq().push(
                image_view_request(desc, image.slot() as usize),
            ),
            id.slot() == old(self).requests_seq().len(),
    {
        let id = ObjectId::from_index(self.requests.len());
        let owner = image.get_index();
        self.requests.push(ResourceObjectCreateMetadata::ImageView { desc, owner, handle: 0 });
        proof {
            let s = final(self).requests_seq();
            assert forall|i: int| 0 <= i < s.len() implies pristine(#[trigger] s[i])
                && dep_wf(s, i) by {
                if i < s.len() - 1 {
                    assert(s[i] == old(self).requests_seq()[i]);
                    assert(dep_wf(old(self).requests_seq(), i));
                } else {
                    assert(s[image.slot()] == old(self).requests_seq()[image.slot()]);
                }
            }
        }
        id
    }

    /// The checked form of `add_internal_image_view`: queues nothing and
    /// yields nothing when the dependency id does not name an earlier
    /// image of this batch.
    pub fn try_add_internal_image_view(&mut self, desc: ImageViewDescription, image: ObjectId)
        -> (r: Option<ObjectId>)
        requires
            old(self).wf(),
            old(self).requests_seq().len() < usize::MAX,
        ensures
            final(self).wf(),
            final(self).group() == old(self).group(),
            r is Some <==> 0 <= image.slot() < old(self).requests_seq().len() && old(
                self,
            ).requests_seq()[image.slot()] is Image,
            r matches Some(id) ==> final(self).requests_seq() == old(self).requests_seq().push(
                image_view_request(desc, image.slot() as usize),
            ) && id.slot() == old(self).requests_seq().len(),
            r is None ==> *final(self) == *old(self),
    {
        let index = image.get_index();
        if index >= self.requests.len() {
            return None;
        }
        let is_image = match &self.requests[index] {
            ResourceObjectCreateMetadata::Image { .. } => true,
            _ => false,
        };
        if !is_image {
            return None;
        }
        Some(self.add_internal_image_view(desc, image))
    }

    /// Takes the builder apart into its group and queued requests; used by
    /// the manager when the batch is built.
    pub(crate) fn into_parts(self) -> (r: (SynchronizationGroup, Vec<ResourceObjectCreateMetadata>))
        ensures
            r.0 == self.group(),
            r.1@ == self.requests_seq(),
    {
        (self.synchronization_group, self.requests)
    }
}

/// The immutable, shared result of a successful batch: the built objects
/// and their retained allocations in creation order, bound to their group.
/// It is the unit of destruction: all of it is torn down together, objects
/// in reverse creation order first, allocations freed after.
pub struct ResourceObjectSet {
    objects: Vec<ResourceObjectData>,
    allocations: Vec<Allocation>,
    synchronization_group: SynchronizationGroup,
}

impl ResourceObjectSet {
    /// The built objects, in creation order.
    pub closed spec fn objects_seq(self) -> Seq<ResourceObjectData> {
        self.objects@
    }

    /// The retained allocations, in creation order.
    pub closed spec fn allocations_seq(self) -> Seq<Allocation> {
        self.allocations@
    }

    /// The group all objects of this set are protected by.
    pub closed spec fn group(self) -> SynchronizationGroup {
        self.synchronization_group
    }

    /// Every handle and memory region of the set is distinct from every
    /// other, and none is the null handle or the group's semaphore.
    pub open spec fn distinct_wf(self) -> bool {
        &&& crate::device::distinct_seq(
            data_handles(self.objects_seq()) + alloc_mems(self.allocations_seq()),
        )
        &&& forall|i: int|
            0 <= i < self.objects_seq().len() ==> 1 <= data_handle(
                #[trigger] self.objects_seq()[i],
            )
        &&& forall|i: int| 0 <= i < self.allocations_seq().len() ==> 1 <= (
        #[trigger] self.allocations_seq()[i]).memory
        &&& !(data_handles(self.objects_seq()) + alloc_mems(
            self.allocations_seq(),
        )).contains(self.group().semaphore_id())
    }

    /// Only the manager assembles sets, from a successful batch.
    pub(crate) fn assemble(
        objects: Vec<ResourceObjectData>,
        allocations: Vec<Allocation>,
        synchronization_group: SynchronizationGroup,
    ) -> (r: ResourceObjectSet)
        ensures
            r.objects_seq() == objects@,
            r.allocations_seq() == allocations@,
            r.group() == synchronization_group,
    {
        ResourceObjectSet { objects, allocations, synchronization_group }
    }

    /// The number of objects in the set.
    pub fn object_count(&self) -> (r: usize)
        ensures
            r == self.objects_seq().len(),
    {
        self.objects.len()
    }

    /// The group this set is bound to.
    pub fn get_synchronization_group(&self) -> (r: SynchronizationGroup)
        ensures
            r == self.group(),
    {
        self.synchronization_group
    }

    /// The handle of the buffer the id was returned for. The id must name
    /// a buffer slot of this set's batch.
    pub fn get_buffer_handle(&self, id: ObjectId) -> (r: u64)
        requires
            0 <= id.slot() < self.objects_seq().len(),
            self.objects_seq()[id.slot()] is Buffer,
        ensures
            r == data_handle(self.objects_seq()[id.slot()]),
    {
        match &self.objects[id.get_index()] {
            ResourceObjectData::Buffer { handle } => *handle,
            _ => 0,
        }
    }

    /// The handle of the buffer view the id was returned for.
    pub fn get_buffer_view_handle(&self, id: ObjectId) -> (r: u64)
        requires
            0 <= id.slot() < self.objects_seq().len(),
            self.objects_seq()[id.slot()] is BufferView,
        ensures
            r == data_handle(self.objects_seq()[id.slot()]),
    {
        match &self.objects[id.get_index()] {
            ResourceObjectData::BufferView { handle } => *handle,
            _ => 0,
        }
    }

    /// The handle of the image the id was returned for.
    pub fn get_image_handle(&self, id: ObjectId) -> (r: u64)
        requires
            0 <= id.slot() < self.objects_seq().len(),
            self.objects_seq()[id.slot()] is Image,
        ensures
            r == data_handle(self.objects_seq()[id.slot()]),
    {
        match &self.objects[id.get_index()] {
            ResourceObjectData::Image { handle } => *handle,
            _ => 0,
        }
    }

    /// The handle of the image view the id was returned for.
    pub fn get_image_view_handle(&self, id: ObjectId) -> (r: u64)
        requires
            0 <= id.slot() < self.objects_seq().len(),
            self.objects_seq()[id.slot()] is ImageView,
        ensures
            r == data_handle(self.objects_seq()[id.slot()]),
    {
        match &self.objects[id.get_index()] {
            ResourceObjectData::ImageView { handle } => *handle,
            _ => 0,
        }
    }

    /// Takes the set apart for destruction; used by the manager only.
    pub(crate) fn into_parts(self) -> (r: (
        Vec<ResourceObjectData>,
        Vec<Allocation>,
        SynchronizationGroup,
    ))
        ensures
            r.0@ == self.objects_seq(),
            r.1@ == self.allocations_seq(),
            r.2 == self.group(),
    {
        (self.objects, self.allocations, self.synchronization_group)
    }
}

} // verus!

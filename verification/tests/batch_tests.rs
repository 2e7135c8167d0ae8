use object_manager::Allocation;
use object_manager::AllocationError;
use object_manager::Allocator;
use object_manager::BufferDescription;
use object_manager::BufferRange;
use object_manager::BufferViewDescription;
use object_manager::DeviceContext;
use object_manager::DeviceError;
use object_manager::IdCounter;
use object_manager::ImageDescription;
use object_manager::ImageViewDescription;
use object_manager::MemoryRequirements;
use object_manager::ObjectCreateError;
use object_manager::ObjectId;
use object_manager::ObjectManager;
use object_manager::Splitter;
use object_manager::TeardownOp;
use object_manager::BUFFER_USAGE_TRANSFER_SRC;
use object_manager::BUFFER_USAGE_UNIFORM_TEXEL_BUFFER;
use object_manager::FORMAT_R16_UNORM;
use object_manager::FORMAT_R8_UNORM;
use object_manager::IMAGE_USAGE_SAMPLED;
use object_manager::MAX_IMAGE_DIMENSION;
use object_manager::NULL_HANDLE;

fn create() -> ObjectManager {
    let mut ids = IdCounter::new();
    ObjectManager::new(DeviceContext::new(), &mut ids)
}

fn expect_build_failure(
    builder: object_manager::ResourceObjectSetBuilder,
    manager: &mut ObjectManager,
) -> ObjectCreateError {
    match builder.build(manager) {
        Ok(_) => panic!("the batch was expected to fail"),
        Err(e) => e,
    }
}

#[test]
fn buffer_view_round_trip_yields_distinct_nonnull_handles() {
    let mut manager = create();
    let group = manager.create_synchronization_group();
    let mut builder = manager.create_resource_object_set(group);

    let buffer = builder.add_default_gpu_only_buffer(BufferDescription::new_simple(
        1024,
        BUFFER_USAGE_UNIFORM_TEXEL_BUFFER,
    ));
    let view = builder.add_internal_buffer_view(
        BufferViewDescription::new_simple(
            BufferRange { offset: 0, length: 1024 },
            FORMAT_R16_UNORM,
        ),
        buffer,
    );

    let set = builder.build(&mut manager).unwrap();

    let buffer_handle = set.get_buffer_handle(buffer);
    let view_handle = set.get_buffer_view_handle(view);
    assert_ne!(buffer_handle, NULL_HANDLE);
    assert_ne!(view_handle, NULL_HANDLE);
    assert_ne!(buffer_handle, view_handle);
}

#[test]
fn forward_or_mismatched_dependency_is_rejected() {
    let mut manager = create();
    let group = manager.create_synchronization_group();
    let mut builder = manager.create_resource_object_set(group);

    let view_desc =
        BufferViewDescription::new_simple(BufferRange { offset: 0, length: 16 }, FORMAT_R16_UNORM);

    // no object with this id exists yet: the id would belong to an object
    // created later than the view
    assert!(builder.try_add_internal_buffer_view(view_desc, ObjectId::from_index(0)).is_none());
    assert!(builder.try_add_internal_buffer_view(view_desc, ObjectId::from_index(7)).is_none());

    // an earlier object of the wrong kind is rejected as well
    let image = builder.add_default_gpu_only_image(ImageDescription::new_simple(
        16,
        16,
        FORMAT_R8_UNORM,
        IMAGE_USAGE_SAMPLED,
    ));
    assert!(builder.try_add_internal_buffer_view(view_desc, image).is_none());
    assert!(builder
        .try_add_internal_image_view(ImageViewDescription::new_simple(1, FORMAT_R8_UNORM), image)
        .is_some());
}

#[test]
fn failed_creation_aborts_in_descending_order_and_leaks_nothing() {
    let mut manager = create();
    let group = manager.create_synchronization_group();
    let semaphore = group.get_semaphore_handle();
    let mut builder = manager.create_resource_object_set(group);

    // the semaphore takes handle 1; the first buffer takes handle 2 and
    // memory 3; the second buffer takes handle 4 and then its allocation
    // fails, because no single allocation of half the address space exists
    builder.add_default_gpu_only_buffer(BufferDescription::new_simple(
        1024,
        BUFFER_USAGE_TRANSFER_SRC,
    ));
    builder.add_default_gpu_only_buffer(BufferDescription::new_simple(
        u64::MAX / 2,
        BUFFER_USAGE_TRANSFER_SRC,
    ));

    let err = expect_build_failure(builder, &mut manager);
    assert_eq!(err, ObjectCreateError::Allocation(AllocationError::OutOfDeviceMemory));

    let ops = manager.teardown_ops().clone();
    assert_eq!(
        ops,
        vec![
            TeardownOp::DestroyBuffer(4),
            TeardownOp::DestroyBuffer(2),
            TeardownOp::FreeMemory(3),
        ]
    );

    // nothing of the batch stays alive; the group's semaphore does
    assert!(!manager.is_handle_live(2));
    assert!(!manager.is_handle_live(3));
    assert!(!manager.is_handle_live(4));
    assert!(manager.is_handle_live(semaphore));
}

#[test]
fn invalid_buffer_is_rejected_without_touching_the_device() {
    let mut manager = create();
    let group = manager.create_synchronization_group();
    let mut builder = manager.create_resource_object_set(group);

    builder.add_default_gpu_only_buffer(BufferDescription::new_simple(
        0,
        BUFFER_USAGE_TRANSFER_SRC,
    ));

    let err = expect_build_failure(builder, &mut manager);
    assert_eq!(err, ObjectCreateError::Device(DeviceError::InvalidParameters));
    assert!(manager.teardown_ops().is_empty());
}

#[test]
fn view_outside_its_buffer_fails_the_whole_batch() {
    let mut manager = create();
    let group = manager.create_synchronization_group();
    let mut builder = manager.create_resource_object_set(group);

    let buffer = builder.add_default_gpu_only_buffer(BufferDescription::new_simple(
        1024,
        BUFFER_USAGE_UNIFORM_TEXEL_BUFFER,
    ));
    builder.add_internal_buffer_view(
        BufferViewDescription::new_simple(
            BufferRange { offset: 512, length: 1024 },
            FORMAT_R16_UNORM,
        ),
        buffer,
    );

    let err = expect_build_failure(builder, &mut manager);
    assert_eq!(err, ObjectCreateError::Device(DeviceError::InvalidParameters));
    // the buffer of the failed batch was unwound again
    assert_eq!(
        manager.teardown_ops().clone(),
        vec![TeardownOp::DestroyBuffer(2), TeardownOp::FreeMemory(3)]
    );
}

#[test]
fn image_view_format_must_match_the_image() {
    let mut manager = create();
    let group = manager.create_synchronization_group();
    let mut builder = manager.create_resource_object_set(group);

    let image = builder.add_default_gpu_only_image(ImageDescription::new_simple(
        32,
        32,
        FORMAT_R8_UNORM,
        IMAGE_USAGE_SAMPLED,
    ));
    builder.add_internal_image_view(
        ImageViewDescription::new_simple(1, FORMAT_R16_UNORM),
        image,
    );

    let err = expect_build_failure(builder, &mut manager);
    assert_eq!(err, ObjectCreateError::Device(DeviceError::InvalidParameters));
}

#[test]
fn oversized_image_is_rejected() {
    let mut manager = create();
    let group = manager.create_synchronization_group();
    let mut builder = manager.create_resource_object_set(group);

    builder.add_default_gpu_only_image(ImageDescription::new_simple(
        MAX_IMAGE_DIMENSION + 1,
        32,
        FORMAT_R8_UNORM,
        IMAGE_USAGE_SAMPLED,
    ));

    let err = expect_build_failure(builder, &mut manager);
    assert_eq!(err, ObjectCreateError::Device(DeviceError::InvalidParameters));
}

#[test]
fn empty_batch_builds_an_empty_set() {
    let mut manager = create();
    let group = manager.create_synchronization_group();
    let builder = manager.create_resource_object_set(group);

    let set = builder.build(&mut manager).unwrap();
    assert_eq!(set.object_count(), 0);
}

#[test]
fn destruction_runs_in_reverse_build_order_then_frees_allocations() {
    let mut manager = create();
    let group = manager.create_synchronization_group();
    let mut builder = manager.create_resource_object_set(group);

    // handles: semaphore 1; buffer 2 with memory 3; buffer view 4;
    // image 5 with memory 6; image view 7
    let buffer = builder.add_default_gpu_only_buffer(BufferDescription::new_simple(
        1024,
        BUFFER_USAGE_UNIFORM_TEXEL_BUFFER,
    ));
    builder.add_internal_buffer_view(
        BufferViewDescription::new_simple(
            BufferRange { offset: 0, length: 1024 },
            FORMAT_R16_UNORM,
        ),
        buffer,
    );
    let image = builder.add_default_gpu_only_image(ImageDescription::new_simple(
        32,
        32,
        FORMAT_R8_UNORM,
        IMAGE_USAGE_SAMPLED,
    ));
    builder.add_internal_image_view(
        ImageViewDescription::new_simple(1, FORMAT_R8_UNORM),
        image,
    );

    let set = builder.build(&mut manager).unwrap();
    assert!(manager.teardown_ops().is_empty());

    let _group = manager.destroy_resource_object_set(set);

    assert_eq!(
        manager.teardown_ops().clone(),
        vec![
            TeardownOp::DestroyImageView(7),
            TeardownOp::DestroyImage(5),
            TeardownOp::DestroyBufferView(4),
            TeardownOp::DestroyBuffer(2),
            TeardownOp::FreeMemory(3),
            TeardownOp::FreeMemory(6),
        ]
    );
}

#[test]
fn semaphore_outlives_its_set_and_is_destroyed_exactly_once() {
    let mut manager = create();
    let group = manager.create_synchronization_group();
    let semaphore = group.get_semaphore_handle();
    let mut builder = manager.create_resource_object_set(group);

    builder.add_default_gpu_only_buffer(BufferDescription::new_simple(
        256,
        BUFFER_USAGE_TRANSFER_SRC,
    ));
    let set = builder.build(&mut manager).unwrap();

    assert!(manager.is_handle_live(semaphore));
    let group_back = manager.destroy_resource_object_set(set);
    // the set is gone, the semaphore is still alive and untouched
    assert!(manager.is_handle_live(semaphore));
    assert_eq!(group_back.get_semaphore_handle(), semaphore);

    manager.destroy_synchronization_group(group_back);
    assert!(!manager.is_handle_live(semaphore));

    let destroyed_count = manager
        .teardown_ops()
        .iter()
        .filter(|op| matches!(op, TeardownOp::DestroySemaphore(h) if *h == semaphore))
        .count();
    assert_eq!(destroyed_count, 1);
}

#[test]
fn splitter_rejects_an_out_of_range_current_index() {
    assert!(Splitter::try_new(4, 3).is_some());
    assert!(Splitter::try_new(4, 4).is_none());
    assert!(Splitter::try_new(0, 0).is_none());
}

#[test]
fn splitter_reads_the_other_slots_unchanged() {
    let slots: Vec<u64> = vec![10, 20, 30, 40];
    let splitter = Splitter::new(slots.len(), 2);
    assert_eq!(*splitter.read_other(&slots, 0), 10);
    assert_eq!(*splitter.read_other(&slots, 1), 20);
    assert_eq!(*splitter.read_other(&slots, 3), 40);
}

#[test]
fn allocator_hands_out_and_frees_regions() {
    let mut device = DeviceContext::new();
    let mut allocator = Allocator::new();

    let region = allocator
        .allocate(
            &mut device,
            MemoryRequirements { size: 4096, alignment: 1, host_visible: false },
        )
        .unwrap();
    assert_eq!(region.size, 4096);
    assert!(device.is_live(region.memory));

    allocator.free(&mut device, region);
    assert!(!device.is_live(region.memory));

    let invalid = allocator.allocate(
        &mut device,
        MemoryRequirements { size: 0, alignment: 1, host_visible: false },
    );
    assert_eq!(invalid.unwrap_err(), AllocationError::InvalidRequest);
}

#[test]
fn allocation_error_surfaces_for_oversized_buffers() {
    let mut manager = create();
    let group = manager.create_synchronization_group();
    let mut builder = manager.create_resource_object_set(group);

    builder.add_default_gpu_only_buffer(BufferDescription::new_simple(
        u64::MAX,
        BUFFER_USAGE_TRANSFER_SRC,
    ));

    let err = expect_build_failure(builder, &mut manager);
    assert_eq!(err, ObjectCreateError::Allocation(AllocationError::OutOfDeviceMemory));
}

#[test]
fn id_counter_never_repeats() {
    let mut ids = IdCounter::new();
    let a = ids.fresh_id();
    let b = ids.fresh_id();
    let c = ids.fresh_id();
    assert_ne!(a, b);
    assert_ne!(b, c);
    assert_ne!(a, c);
}

fn alloc_for_test(device: &mut DeviceContext, allocator: &mut Allocator, size: u64) -> Allocation {
    allocator
        .allocate(device, MemoryRequirements { size, alignment: 1, host_visible: false })
        .unwrap()
}

#[test]
fn device_tracks_liveness_of_every_kind() {
    let mut device = DeviceContext::new();
    let mut allocator = Allocator::new();

    let semaphore = device.create_semaphore(0);
    let buffer = device.create_buffer(64, BUFFER_USAGE_TRANSFER_SRC).unwrap();
    let region = alloc_for_test(&mut device, &mut allocator, 64);
    assert!(device.is_live(semaphore));
    assert!(device.is_live(buffer));
    assert!(device.is_live(region.memory));

    device.destroy_buffer(buffer);
    assert!(!device.is_live(buffer));
    assert!(device.is_live(semaphore));
    allocator.free(&mut device, region);
    device.destroy_semaphore(semaphore);
    assert!(!device.is_live(semaphore));
    assert_eq!(
        device.teardown_ops().clone(),
        vec![
            TeardownOp::DestroyBuffer(buffer),
            TeardownOp::FreeMemory(region.memory),
            TeardownOp::DestroySemaphore(semaphore),
        ]
    );
}

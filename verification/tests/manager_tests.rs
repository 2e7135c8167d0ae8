use object_manager::BufferDescription;
use object_manager::BufferRange;
use object_manager::BufferViewDescription;
use object_manager::DeviceContext;
use object_manager::IdCounter;
use object_manager::ImageDescription;
use object_manager::ImageViewDescription;
use object_manager::ObjectManager;
use object_manager::BUFFER_USAGE_TRANSFER_SRC;
use object_manager::BUFFER_USAGE_UNIFORM_TEXEL_BUFFER;
use object_manager::FORMAT_R16_UNORM;
use object_manager::FORMAT_R8_UNORM;
use object_manager::IMAGE_USAGE_SAMPLED;
use object_manager::IMAGE_USAGE_TRANSFER_SRC;
use object_manager::NULL_HANDLE;

fn create() -> ObjectManager {
    let mut ids = IdCounter::new();
    ObjectManager::new(DeviceContext::new(), &mut ids)
}

#[test]
fn create_destroy() {
    let mut ids = IdCounter::new();
    let manager = ObjectManager::new(DeviceContext::new(), &mut ids);
    drop(manager);
}

#[test]
fn create_synchronization_group() {
    let mut manager = create();
    let group = manager.create_synchronization_group();
    let group2 = manager.create_synchronization_group();

    assert_eq!(group, group);
    assert_eq!(group2, group2);
    assert_ne!(group, group2);

    drop(group2);
    drop(group);
}

#[test]
fn create_buffer() {
    let mut manager = create();
    let group = manager.create_synchronization_group();
    let mut builder = manager.create_resource_object_set(group);

    let id = builder
        .add_default_gpu_only_buffer(BufferDescription::new_simple(1024, BUFFER_USAGE_TRANSFER_SRC));

    let set = builder.build(&mut manager).unwrap();

    assert_ne!(set.get_buffer_handle(id), NULL_HANDLE);

    drop(set);
}

#[test]
fn create_buffer_view() {
    let mut manager = create();
    let group = manager.create_synchronization_group();
    let mut builder = manager.create_resource_object_set(group);

    let buffer = builder.add_default_gpu_only_buffer(BufferDescription::new_simple(
        1024,
        BUFFER_USAGE_UNIFORM_TEXEL_BUFFER,
    ));
    let view = builder.add_internal_buffer_view(
        BufferViewDescription::new_simple(
            BufferRange { offset: 0, length: 1024 },
            FORMAT_R16_UNORM,
        ),
        buffer,
    );

    let set = builder.build(&mut manager).unwrap();

    assert_ne!(set.get_buffer_view_handle(view), NULL_HANDLE);

    drop(set);
}

#[test]
fn create_image() {
    let mut manager = create();
    let group = manager.create_synchronization_group();
    let mut builder = manager.create_resource_object_set(group);

    let image = builder.add_default_gpu_only_image(ImageDescription::new_simple(
        32,
        32,
        FORMAT_R8_UNORM,
        IMAGE_USAGE_TRANSFER_SRC,
    ));

    let set = builder.build(&mut manager).unwrap();

    assert_ne!(set.get_image_handle(image), NULL_HANDLE);

    drop(set);
}

#[test]
fn create_image_view() {
    let mut manager = create();
    let group = manager.create_synchronization_group();
    let mut builder = manager.create_resource_object_set(group);

    let image = builder.add_default_gpu_only_image(ImageDescription::new_simple(
        32,
        32,
        FORMAT_R8_UNORM,
        IMAGE_USAGE_SAMPLED,
    ));
    let view = builder.add_internal_image_view(
        ImageViewDescription::new_simple(1, FORMAT_R8_UNORM),
        image,
    );

    let set = builder.build(&mut manager).unwrap();

    assert_ne!(set.get_image_view_handle(view), NULL_HANDLE);

    drop(set);
}

#[test]
fn managers_equal_only_to_themselves() {
    let mut ids = IdCounter::new();
    let manager_a = ObjectManager::new(DeviceContext::new(), &mut ids);
    let manager_b = ObjectManager::new(DeviceContext::new(), &mut ids);

    assert!(manager_a == manager_a);
    assert!(manager_b == manager_b);
    assert!(manager_a != manager_b);
}

#[test]
fn group_of_other_manager_is_rejected_before_any_device_call() {
    let mut ids = IdCounter::new();
    let mut manager_a = ObjectManager::new(DeviceContext::new(), &mut ids);
    let manager_b = ObjectManager::new(DeviceContext::new(), &mut ids);

    let group = manager_a.create_synchronization_group();

    assert!(manager_a.try_create_resource_object_set(group).is_some());
    assert!(manager_b.try_create_resource_object_set(group).is_none());
}

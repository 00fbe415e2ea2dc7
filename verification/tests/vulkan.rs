use aerugo::format::{
    fourcc_has_alpha, fourcc_to_vk, fourcc_to_wl, formats, get_opaque_fourcc, get_opaque_wl,
    wl_has_alpha, wl_shm_to_fourcc, wl_shm_to_vk,
};
use aerugo::vulkan::allocator::{
    check_device_extensions, check_image_request, format_query_outcome, is_format_supported,
    optimal_device_extensions, required_device_extensions, select_modifiers, DrmFormat,
    FormatLimits, ImageUsageFlags, SupportedFormats, VulkanAllocatorError,
};
use aerugo::vulkan::error::{ErrorKind, VkError};
use aerugo::vulkan::instance::{InstanceBuilder, InstanceError};
use aerugo::vulkan::renderer::{
    contains_flags, memory_type_index, shm_data_len_fits, Allocator, Error as RendererError, FormatProbe,
    MemoryProbe, ModifierProbe, RendererFormats,
    ShmFormatInfo, DMA_TEXTURE_FEATURES, DMA_TEXTURE_USAGE, EXTERNAL_MEMORY_IMPORTABLE, RENDER_FEATURES,
    RENDER_USAGE, TEXTURE_FEATURES, TEXTURE_USAGE,
};
use aerugo::vulkan::version::Version;
use aerugo::vulkan::{
    device_queries, drm_node, graphics_queue_family, validation_layer_name, DeviceQueries, UnsupportedVulkanVersion,
};
use ash::vk;
use drm_fourcc::DrmFourcc;
use wayland_server::protocol::wl_shm::Format;

/// This test asserts the device extensions specified in `required_device_extensions` are also
/// contained by `optimal_device_extensions`.
#[test]
fn optimal_extensions_superset() {
    assert_eq!(
        required_device_extensions()
            .iter()
            // Remove the extension from the iterator if the optimal extensions also contain it.
            .filter(|extension| !optimal_device_extensions().contains(*extension))
            .collect::<Vec<&&str>>(),
        Vec::<&&str>::new(),
        "Optimal device extensions must contain all required device extensions",
    );
}

#[test]
fn error_kinds_follow_ash_codes() {
    let cases = [
        (vk::Result::ERROR_LAYER_NOT_PRESENT, ErrorKind::LayerNotPresent),
        (vk::Result::ERROR_EXTENSION_NOT_PRESENT, ErrorKind::ExtensionNotPresent),
        (vk::Result::ERROR_INITIALIZATION_FAILED, ErrorKind::InitializationFailed),
        (vk::Result::ERROR_INCOMPATIBLE_DRIVER, ErrorKind::IncompatibleDriver),
        (vk::Result::ERROR_OUT_OF_HOST_MEMORY, ErrorKind::HostOutOfMemory),
        (vk::Result::ERROR_OUT_OF_DEVICE_MEMORY, ErrorKind::DeviceOutOfMemory),
        (vk::Result::ERROR_DEVICE_LOST, ErrorKind::DeviceLost),
        (vk::Result::ERROR_UNKNOWN, ErrorKind::Implementation),
        (vk::Result::ERROR_TOO_MANY_OBJECTS, ErrorKind::TooManyObjects),
        (vk::Result::ERROR_FORMAT_NOT_SUPPORTED, ErrorKind::Other),
        (vk::Result::SUCCESS, ErrorKind::Other),
    ];
    for (result, kind) in cases {
        let err = VkError::from_code(result.as_raw());
        assert_eq!(err.kind(), kind);
        assert_eq!(err.error(), result.as_raw());
    }
}

#[test]
fn error_messages() {
    assert_eq!(
        VkError::from_code(vk::Result::ERROR_DEVICE_LOST.as_raw()).message(),
        "the device has been lost (code: -4)"
    );
    assert_eq!(VkError::from_code(-1000001004).message(), "error code: -1000001004");
    assert_eq!(VkError::from_code(5).message(), "error code: 5");
    assert_eq!(ErrorKind::TooManyObjects.message(), "too many objects of some type have been already created");
    assert_eq!(UnsupportedVulkanVersion.message(), "Smithay requires at least Vulkan 1.1");
    assert_eq!(validation_layer_name(), "VK_LAYER_KHRONOS_validation");
}

fn strings(names: &[&str]) -> Vec<String> {
    names.iter().map(|s| s.to_string()).collect()
}

#[test]
fn builder_defaults_and_setters() {
    let plan = InstanceBuilder::new()
        .resolve(&Vec::new(), &Vec::new())
        .unwrap();
    assert_eq!(plan.api_version, Version::version_1_1());
    assert!(plan.extensions.is_empty());
    assert!(plan.layers.is_empty());
    assert_eq!(plan.app_name, None);
    assert_eq!(plan.app_version, None);
    assert!(!plan.debug_utils);

    let plan = InstanceBuilder::new()
        .api_version(Version::version_1_2())
        .extension("VK_KHR_surface")
        .layer("VK_LAYER_KHRONOS_validation")
        .app_name("aerugo")
        .app_version(Version::version_1_0())
        .resolve(
            &strings(&["VK_LAYER_KHRONOS_validation"]),
            &strings(&["VK_KHR_surface", "VK_EXT_debug_utils"]),
        )
        .unwrap();
    assert_eq!(plan.api_version, Version::version_1_2());
    assert_eq!(plan.extensions, strings(&["VK_KHR_surface", "VK_EXT_debug_utils"]));
    assert_eq!(plan.layers, strings(&["VK_LAYER_KHRONOS_validation"]));
    assert_eq!(plan.app_name.as_deref(), Some("aerugo"));
    assert_eq!(plan.app_version, Some(Version::version_1_0()));
    assert!(plan.debug_utils);
}

#[test]
fn builder_refuses_old_version() {
    let result = InstanceBuilder::new()
        .api_version(Version::version_1_0())
        .resolve(&Vec::new(), &Vec::new());
    assert!(matches!(result, Err(InstanceError::UnsupportedVulkanVersion(v)) if v == Version::version_1_0()));
    assert!(InstanceBuilder::new().api_version(Version::version_1_0()).check_version().is_err());
    assert!(InstanceBuilder::new().check_version().is_ok());
}

#[test]
fn builder_reports_missing_layers_before_extensions() {
    let result = InstanceBuilder::new()
        .layer("a")
        .layer("b")
        .layer("c")
        .extension("x")
        .resolve(&strings(&["b"]), &Vec::new());
    match result {
        Err(InstanceError::MissingLayers(names)) => assert_eq!(names, strings(&["a", "c"])),
        _ => panic!("expected missing layers"),
    }

    let result = InstanceBuilder::new()
        .extension("x")
        .extension("y")
        .resolve(&Vec::new(), &strings(&["y"]));
    match result {
        Err(InstanceError::MissingExtensions(names)) => assert_eq!(names, strings(&["x"])),
        _ => panic!("expected missing extensions"),
    }
}

#[test]
fn memory_type_index_picks_first_suitable_type() {
    let host_visible = vk::MemoryPropertyFlags::HOST_VISIBLE.as_raw();
    let device_local = vk::MemoryPropertyFlags::DEVICE_LOCAL.as_raw();
    let types = vec![device_local, host_visible, host_visible | device_local, 0];
    // All types allowed: the first host visible one is type 1.
    assert_eq!(memory_type_index(&types, 4, 0b1111, host_visible), Some(1));
    // Type 1 not allowed: the match is type 2.
    assert_eq!(memory_type_index(&types, 4, 0b1101, host_visible), Some(2));
    // Only the first two types are in use.
    assert_eq!(memory_type_index(&types, 2, 0b1101, host_visible), None);
    assert_eq!(memory_type_index(&types, 4, 0, 0), None);
    assert_eq!(memory_type_index(&types, 9, 0b1000, 0), Some(3));
}

#[test]
fn allocation_counter() {
    assert_eq!(Allocator::next_allocation_count(2, 0), Some(1));
    assert_eq!(Allocator::next_allocation_count(2, 1), Some(2));
    assert_eq!(Allocator::next_allocation_count(2, 2), None);
    assert_eq!(Allocator::next_allocation_count(usize::MAX, usize::MAX), None);

    let allocator = Allocator::new(1);
    let first = allocator.new_id().unwrap();
    // One live allocation and a maximum of one: a second one is refused.
    assert!(matches!(allocator.new_id(), Err(RendererError::TooManyAllocations(1))));
    drop(first);
    let second = allocator.new_id().unwrap();
    drop(second);
    assert!(allocator.new_id().is_ok());
}

#[test]
fn format_tables_follow_drm_and_ash() {
    let expected = [
        DrmFourcc::Argb8888,
        DrmFourcc::Xrgb8888,
        DrmFourcc::Abgr8888,
        DrmFourcc::Xbgr8888,
        DrmFourcc::Rgba8888,
        DrmFourcc::Rgbx8888,
        DrmFourcc::Bgr888,
        DrmFourcc::Rgb888,
        DrmFourcc::R8,
        DrmFourcc::Gr88,
    ];
    assert_eq!(formats(), expected.iter().map(|f| *f as u32).collect::<Vec<_>>());

    let argb = DrmFourcc::Argb8888 as u32;
    assert_eq!(get_opaque_fourcc(argb), Some(DrmFourcc::Xrgb8888 as u32));
    assert_eq!(get_opaque_fourcc(DrmFourcc::Abgr8888 as u32), Some(DrmFourcc::Xbgr8888 as u32));
    assert_eq!(get_opaque_fourcc(DrmFourcc::Rgba8888 as u32), Some(DrmFourcc::Rgbx8888 as u32));
    assert_eq!(get_opaque_fourcc(DrmFourcc::R8 as u32), None);
    assert!(fourcc_has_alpha(argb));
    assert!(!fourcc_has_alpha(DrmFourcc::Xrgb8888 as u32));

    assert_eq!(fourcc_to_vk(argb), Some((vk::Format::B8G8R8A8_SRGB.as_raw(), true)));
    assert_eq!(fourcc_to_vk(DrmFourcc::Xbgr8888 as u32), Some((vk::Format::R8G8B8A8_SRGB.as_raw(), false)));
    assert_eq!(fourcc_to_vk(DrmFourcc::Rgba8888 as u32), Some((vk::Format::A8B8G8R8_SRGB_PACK32.as_raw(), true)));
    assert_eq!(fourcc_to_vk(DrmFourcc::Bgr888 as u32), Some((vk::Format::R8G8B8_SRGB.as_raw(), false)));
    assert_eq!(fourcc_to_vk(DrmFourcc::Rgb888 as u32), Some((vk::Format::B8G8R8_SRGB.as_raw(), false)));
    assert_eq!(fourcc_to_vk(DrmFourcc::R8 as u32), Some((vk::Format::R8_SRGB.as_raw(), false)));
    assert_eq!(fourcc_to_vk(DrmFourcc::Gr88 as u32), Some((vk::Format::R8G8_SRGB.as_raw(), false)));
    assert_eq!(fourcc_to_vk(DrmFourcc::Nv12 as u32), None);
}

#[test]
fn wl_shm_tables() {
    let argb = u32::from(Format::Argb8888);
    let xrgb = u32::from(Format::Xrgb8888);
    assert_eq!(wl_shm_to_fourcc(argb), Some(DrmFourcc::Argb8888 as u32));
    assert_eq!(wl_shm_to_fourcc(DrmFourcc::Argb8888 as u32), None);
    assert_eq!(get_opaque_wl(argb), Some(xrgb));
    assert_eq!(get_opaque_wl(u32::from(Format::Abgr8888)), Some(u32::from(Format::Xbgr8888)));
    assert!(wl_has_alpha(argb));
    assert!(!wl_has_alpha(xrgb));
    assert_eq!(wl_shm_to_vk(xrgb), Some((vk::Format::B8G8R8A8_SRGB.as_raw(), false)));
    assert_eq!(wl_shm_to_vk(u32::from(Format::Nv12)), None);

    assert_eq!(fourcc_to_wl(DrmFourcc::Argb8888 as u32), Some(argb));
    assert_eq!(fourcc_to_wl(DrmFourcc::Xrgb8888 as u32), Some(xrgb));
    assert_eq!(fourcc_to_wl(DrmFourcc::Nv12 as u32), Some(u32::from(Format::Nv12)));
    assert_eq!(fourcc_to_wl(DrmFourcc::Rgba8888 as u32), Some(u32::from(Format::Rgba8888)));
    assert_eq!(fourcc_to_wl(0x1234_5678), None);
}

#[test]
fn allocator_extension_checks() {
    assert_eq!(
        check_device_extensions(&strings(&["VK_EXT_image_drm_format_modifier"])),
        Err(VulkanAllocatorError::MissingRequiredExtensions)
    );
    assert_eq!(
        check_device_extensions(&strings(&["VK_KHR_image_format_list", "VK_EXT_image_drm_format_modifier"])),
        Ok(false)
    );
    assert_eq!(
        check_device_extensions(&strings(&[
            "VK_EXT_image_drm_format_modifier",
            "VK_KHR_image_format_list",
            "VK_EXT_external_memory_dma_buf",
            "VK_KHR_external_memory_fd",
        ])),
        Ok(true)
    );
}

#[test]
fn allocator_image_checks() {
    let argb = DrmFourcc::Argb8888 as u32;
    assert_eq!(check_image_request(0, 0, DrmFourcc::Nv12 as u32), Err(VulkanAllocatorError::UnsupportedFormat));
    assert_eq!(check_image_request(0, 10, argb), Err(VulkanAllocatorError::InvalidSize));
    assert_eq!(check_image_request(10, 0, argb), Err(VulkanAllocatorError::InvalidSize));
    assert_eq!(check_image_request(10, 10, argb), Ok(vk::Format::B8G8R8A8_SRGB.as_raw()));

    let big = FormatLimits { max_width: 100, max_height: 100, max_depth: 1, sample_counts: 0b101 };
    let small = FormatLimits { max_width: 10, max_height: 100, max_depth: 1, sample_counts: 1 };
    let flat = FormatLimits { max_width: 100, max_height: 100, max_depth: 0, sample_counts: 1 };
    let multisample = FormatLimits { max_width: 100, max_height: 100, max_depth: 1, sample_counts: 0b100 };
    let candidates = vec![(1, Some(big)), (2, Some(small)), (3, None), (4, Some(flat)), (5, Some(multisample)), (6, Some(big))];
    assert_eq!(select_modifiers(50, 50, &candidates), Ok(vec![1, 6]));
    assert_eq!(select_modifiers(500, 50, &candidates), Err(VulkanAllocatorError::NoModifiers));
    assert_eq!(select_modifiers(1, 1, &Vec::new()), Err(VulkanAllocatorError::NoModifiers));

    assert_eq!(format_query_outcome(Ok(big)), Ok(Some(big)));
    assert_eq!(format_query_outcome(Err(vk::Result::ERROR_FORMAT_NOT_SUPPORTED.as_raw())), Ok(None));
    let lost = format_query_outcome(Err(vk::Result::ERROR_DEVICE_LOST.as_raw()));
    assert_eq!(lost, Err(VulkanAllocatorError::Vk(VkError::from_code(-4))));
    assert!(is_format_supported(&Ok(None)));
    assert!(!is_format_supported(&lost));

    let mut table = SupportedFormats::new();
    table.add_modifiers(argb, &vec![0, 7]);
    assert!(table.contains(DrmFormat { code: argb, modifier: 7 }));
    assert!(!table.contains(DrmFormat { code: argb, modifier: 8 }));
    assert_eq!(table.query_format(DrmFormat { code: argb, modifier: 0 }), Some(vk::Format::B8G8R8A8_SRGB.as_raw()));
    assert_eq!(table.query_format(DrmFormat { code: argb, modifier: 8 }), None);

    let usage = ImageUsageFlags::sampled().union(ImageUsageFlags::transfer_dst());
    assert_eq!(usage.bits(), (vk::ImageUsageFlags::SAMPLED | vk::ImageUsageFlags::TRANSFER_DST).as_raw());
    assert_eq!(ImageUsageFlags::color_attachment().bits(), vk::ImageUsageFlags::COLOR_ATTACHMENT.as_raw());
    assert_eq!(ImageUsageFlags::transfer_src().bits(), vk::ImageUsageFlags::TRANSFER_SRC.as_raw());
}

#[test]
fn renderer_flag_constants_follow_ash() {
    let f = vk::FormatFeatureFlags::COLOR_ATTACHMENT | vk::FormatFeatureFlags::COLOR_ATTACHMENT_BLEND;
    assert_eq!(RENDER_FEATURES, f.as_raw());
    let f = vk::FormatFeatureFlags::TRANSFER_SRC
        | vk::FormatFeatureFlags::TRANSFER_DST
        | vk::FormatFeatureFlags::SAMPLED_IMAGE;
    assert_eq!(TEXTURE_FEATURES, f.as_raw());
    assert_eq!(DMA_TEXTURE_FEATURES, vk::FormatFeatureFlags::SAMPLED_IMAGE.as_raw());
    assert_eq!(TEXTURE_USAGE, (vk::ImageUsageFlags::SAMPLED | vk::ImageUsageFlags::TRANSFER_DST).as_raw());
    assert_eq!(RENDER_USAGE, vk::ImageUsageFlags::COLOR_ATTACHMENT.as_raw());
    assert_eq!(DMA_TEXTURE_USAGE, vk::ImageUsageFlags::SAMPLED.as_raw());
    assert_eq!(EXTERNAL_MEMORY_IMPORTABLE, vk::ExternalMemoryFeatureFlags::IMPORTABLE.as_raw());
}

#[test]
fn renderer_formats_collect() {
    let argb = DrmFourcc::Argb8888 as u32;
    let mut formats = RendererFormats::new();
    assert_eq!(formats.check_mandatory(), Err(RendererError::MissingRequiredFormats));

    formats.add_dma_render(DrmFormat { code: argb, modifier: 1 }, Some(EXTERNAL_MEMORY_IMPORTABLE));
    formats.add_dma_render(DrmFormat { code: argb, modifier: 2 }, Some(0x1));
    formats.add_dma_texture(DrmFormat { code: argb, modifier: 3 }, None);

    // Not enough tiling features: nothing is added.
    formats.add_shm(DrmFourcc::Rgba8888 as u32, 57, 0x1, 10, 10);
    assert_eq!(formats.check_mandatory(), Err(RendererError::MissingRequiredFormats));
    formats.add_shm(DrmFourcc::Rgba8888 as u32, 57, TEXTURE_FEATURES, 10, 10);
    assert_eq!(formats.check_mandatory(), Err(RendererError::MissingRequiredFormats));
    formats.add_shm(argb, 50, TEXTURE_FEATURES | 0x2, 64, 32);
    // Both ARGB8888 and XRGB8888 are mandatory.
    assert_eq!(formats.check_mandatory(), Err(RendererError::MissingRequiredFormats));
    formats.add_shm(DrmFourcc::Xrgb8888 as u32, 50, TEXTURE_FEATURES, 64, 32);
    assert_eq!(formats.check_mandatory(), Ok(()));
    let _ = ShmFormatInfo { shm: 0, vk: 50, max_width: 64, max_height: 32 };
    assert!(contains_flags(0b111, 0b101));
    assert!(!contains_flags(0b011, 0b101));
}

#[test]
fn shm_data_sizes() {
    assert!(shm_data_len_fits(2, 3, 24));
    assert!(shm_data_len_fits(2, 3, 100));
    assert!(!shm_data_len_fits(2, 3, 23));
    assert!(!shm_data_len_fits(-2, 3, 100));
    assert!(shm_data_len_fits(0, 3, 0));
}

#[test]
fn device_query_decisions() {
    assert_eq!(
        device_queries(&strings(&["VK_KHR_driver_properties"])),
        DeviceQueries { driver_properties: true, drm_properties: false }
    );
    assert_eq!(
        device_queries(&strings(&["VK_EXT_physical_device_drm", "VK_KHR_swapchain"])),
        DeviceQueries { driver_properties: false, drm_properties: true }
    );
    assert_eq!(drm_node(vk::TRUE, 226, 128), Some((226, 128)));
    assert_eq!(drm_node(vk::FALSE, 226, 128), None);
}

#[test]
fn load_collects_probe_results() {
    let argb = DrmFourcc::Argb8888 as u32;
    let xrgb = DrmFourcc::Xrgb8888 as u32;
    let probes = vec![
        FormatProbe {
            fourcc: argb,
            vk: 44,
            modifiers: vec![
                // Renderable and a dmabuf texture, both importable.
                ModifierProbe {
                    modifier: 0,
                    tiling_features: RENDER_FEATURES | DMA_TEXTURE_FEATURES,
                    render_external: Some(EXTERNAL_MEMORY_IMPORTABLE),
                    texture_external: Some(EXTERNAL_MEMORY_IMPORTABLE),
                },
                // A texture only; its render memory would not be importable anyway.
                ModifierProbe {
                    modifier: 7,
                    tiling_features: DMA_TEXTURE_FEATURES,
                    render_external: Some(EXTERNAL_MEMORY_IMPORTABLE),
                    texture_external: Some(EXTERNAL_MEMORY_IMPORTABLE),
                },
                // Renderable, but the device does not support the images.
                ModifierProbe {
                    modifier: 9,
                    tiling_features: RENDER_FEATURES,
                    render_external: None,
                    texture_external: None,
                },
            ],
            memory: Some(MemoryProbe { optimal_tiling_features: TEXTURE_FEATURES, max_width: 4096, max_height: 2048 }),
        },
        FormatProbe {
            fourcc: xrgb,
            vk: 44,
            modifiers: vec![ModifierProbe {
                modifier: 0,
                tiling_features: RENDER_FEATURES,
                render_external: Some(0),
                texture_external: None,
            }],
            memory: Some(MemoryProbe { optimal_tiling_features: DMA_TEXTURE_FEATURES, max_width: 1, max_height: 1 }),
        },
    ];
    let f = RendererFormats::load(&probes);
    assert_eq!(f.dma_render_formats(), &vec![DrmFormat { code: argb, modifier: 0 }]);
    assert_eq!(
        f.dma_texture_formats(),
        &vec![DrmFormat { code: argb, modifier: 0 }, DrmFormat { code: argb, modifier: 7 }]
    );
    assert_eq!(f.shm_formats(), &vec![Format::Argb8888 as u32]);
    assert_eq!(
        f.shm_format_info(),
        &vec![ShmFormatInfo { shm: Format::Argb8888 as u32, vk: 44, max_width: 4096, max_height: 2048 }]
    );
    // XRGB8888 was not found usable, so the mandatory check fails.
    assert!(matches!(f.check_mandatory(), Err(RendererError::MissingRequiredFormats)));
}

#[test]
fn graphics_queue_family_is_the_first_with_graphics() {
    let graphics = vk::QueueFlags::GRAPHICS.as_raw();
    let transfer = vk::QueueFlags::TRANSFER.as_raw();
    let compute = vk::QueueFlags::COMPUTE.as_raw();
    assert_eq!(graphics_queue_family(&vec![transfer, compute | graphics, graphics]), Some(1));
    assert_eq!(graphics_queue_family(&vec![transfer, compute]), None);
    assert_eq!(graphics_queue_family(&vec![]), None);
}

#[test]
fn error_codes_are_written_in_full() {
    assert_eq!(VkError::from_code(i32::MIN).message(), "error code: -2147483648");
    assert_eq!(VkError::from_code(i32::MAX).message(), "error code: 2147483647");
    assert_eq!(VkError::from_code(0).message(), "error code: 0");
}

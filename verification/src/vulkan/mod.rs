//! Helper types for using the Vulkan API: versions, errors, instance requests, device memory
//! accounting and the device allocator's checks.

pub mod allocator;
pub mod error;
pub mod instance;
pub mod renderer;
pub mod version;

use vstd::prelude::*;

use crate::vulkan::instance::contains_name;
use crate::vulkan::renderer::{contains_flags, has_flags};

verus! {

/// The error returned when the Vulkan API version is older than 1.1, the oldest version the
/// compositor supports.
#[derive(Debug, Clone, Copy, PartialEq, Eq, Structural)]
pub struct UnsupportedVulkanVersion;

impl UnsupportedVulkanVersion {
    /// Returns the text of the error.
    pub fn message(&self) -> (s: &'static str)
        ensures
            s@ == "Smithay requires at least Vulkan 1.1"@,
    {
        "Smithay requires at least Vulkan 1.1"
    }
}

/// The name of the validation layer.
///
/// This may be passed to [`instance::InstanceBuilder::layer`] to enable validation layers, which
/// are meant for development only.
pub fn validation_layer_name() -> (s: &'static str)
    ensures
        s@ == "VK_LAYER_KHRONOS_validation"@,
{
    "VK_LAYER_KHRONOS_validation"
}

/// The extra properties to ask a physical device for, given the extensions it lists.
#[derive(Debug, Clone, Copy, PartialEq, Eq, Structural)]
pub struct DeviceQueries {
    /// Ask for the driver properties, which `VK_KHR_driver_properties` provides.
    pub driver_properties: bool,
    /// Ask for the DRM properties, which `VK_EXT_physical_device_drm` provides.
    pub drm_properties: bool,
}

/// Returns which extra properties to ask a physical device for, given its extensions.
pub fn device_queries(extensions: &Vec<String>) -> (q: DeviceQueries)
    ensures
        q.driver_properties == extensions.deep_view().contains("VK_KHR_driver_properties"@),
        q.drm_properties == extensions.deep_view().contains("VK_EXT_physical_device_drm"@),
{
    DeviceQueries {
        driver_properties: contains_name(extensions, "VK_KHR_driver_properties"),
        drm_properties: contains_name(extensions, "VK_EXT_physical_device_drm"),
    }
}

/// The DRM node a physical device reports, as a major and minor device number, if it reports
/// one: `has` is a `VkBool32`, true when it is 1.
pub fn drm_node(has: u32, major: i64, minor: i64) -> (r: Option<(i64, i64)>)
    ensures
        r == (if has == 1 {
            Some((major, minor))
        } else {
            None
        }),
{
    if has == 1 {
        Some((major, minor))
    } else {
        None
    }
}

/// The queue capability of graphics operations, `VK_QUEUE_GRAPHICS_BIT`.
pub const QUEUE_GRAPHICS: u32 = 0x1;

/// Returns the index of the first queue family, among the capability flags of a device's
/// queue families, that supports graphics; a graphics queue also supports transfers. `None`
/// if no family does.
pub fn graphics_queue_family(queue_flags: &Vec<u32>) -> (r: Option<usize>)
    ensures
        match r {
            Some(i) => i < queue_flags.len() && has_flags(queue_flags@[i as int], QUEUE_GRAPHICS)
                && forall|j: int| 0 <= j < i ==> !has_flags(#[trigger] queue_flags@[j], QUEUE_GRAPHICS),
            None => forall|j: int|
                0 <= j < queue_flags.len() ==> !has_flags(#[trigger] queue_flags@[j], QUEUE_GRAPHICS),
        },
{
    let mut i: usize = 0;
    while i < queue_flags.len()
        invariant
            i <= queue_flags.len(),
            forall|j: int| 0 <= j < i ==> !has_flags(#[trigger] queue_flags@[j], QUEUE_GRAPHICS),
        decreases queue_flags.len() - i,
    {
        if contains_flags(queue_flags[i], QUEUE_GRAPHICS) {
            return Some(i);
        }
        i += 1;
    }
    None
}

} // verus!

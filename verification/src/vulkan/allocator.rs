//! The checks of the Vulkan device allocator: the device extensions it needs, the formats and
//! modifiers it can create images with, and the requests it refuses.

use vstd::prelude::*;

use crate::format::{fourcc_to_vk, vk_format_of};
use crate::vulkan::error::{ERROR_FORMAT_NOT_SUPPORTED, VkError, kind_of_code};
use crate::vulkan::instance::contains_name;

verus! {

/// An error of the device allocator.
#[derive(Debug, Clone, Copy, PartialEq, Eq, Structural)]
pub enum VulkanAllocatorError {
    /// The device was not created with the required device extensions.
    MissingRequiredExtensions,
    /// The requested format is not supported.
    UnsupportedFormat,
    /// The buffer was requested with an invalid size.
    InvalidSize,
    /// No usable modifier was specified.
    NoModifiers,
    /// A Vulkan API error.
    Vk(VkError),
}

/// An error converting an image.
#[derive(Debug, Clone, Copy, PartialEq, Eq, Structural)]
pub enum ImageConvertError {
    /// The device does not support dmabuf import or export.
    ///
    /// This may occur if the device was not created with the optimal device extensions.
    NotSupported,
}

/// Flags to indicate the intended usage for an image, as the bits of `VkImageUsageFlags`.
#[derive(Debug, Clone, Copy, PartialEq, Eq, Structural)]
pub struct ImageUsageFlags {
    bits: u32,
}

impl ImageUsageFlags {
    /// The bits of the flags.
    pub closed spec fn raw(&self) -> u32 {
        self.bits
    }

    /// The image may be the source of a transfer command.
    pub fn transfer_src() -> (f: ImageUsageFlags)
        ensures
            f.raw() == 0x1,
    {
        ImageUsageFlags { bits: 0x1 }
    }

    /// The image may be the destination of a transfer command.
    pub fn transfer_dst() -> (f: ImageUsageFlags)
        ensures
            f.raw() == 0x2,
    {
        ImageUsageFlags { bits: 0x2 }
    }

    /// The image may be sampled in a shader.
    pub fn sampled() -> (f: ImageUsageFlags)
        ensures
            f.raw() == 0x4,
    {
        ImageUsageFlags { bits: 0x4 }
    }

    /// The image may be used in a color attachment.
    pub fn color_attachment() -> (f: ImageUsageFlags)
        ensures
            f.raw() == 0x10,
    {
        ImageUsageFlags { bits: 0x10 }
    }

    /// The flags of both.
    pub fn union(self, other: ImageUsageFlags) -> (f: ImageUsageFlags)
        ensures
            f.raw() == self.raw() | other.raw(),
    {
        ImageUsageFlags { bits: self.bits | other.bits }
    }

    /// Returns the bits of the flags.
    pub fn bits(&self) -> (b: u32)
        ensures
            b == self.raw(),
    {
        self.bits
    }
}

/// The device extensions the allocator requires.
pub open spec fn required_extensions() -> Seq<Seq<char>> {
    seq!["VK_EXT_image_drm_format_modifier"@, "VK_KHR_image_format_list"@]
}

/// The device extensions with which the allocator offers all its features: the required ones,
/// then those for dmabuf import and export.
pub open spec fn optimal_extensions() -> Seq<Seq<char>> {
    seq![
        "VK_EXT_image_drm_format_modifier"@,
        "VK_KHR_image_format_list"@,
        "VK_KHR_external_memory_fd"@,
        "VK_EXT_external_memory_dma_buf"@,
    ]
}

/// The views of a list of string slices.
pub open spec fn str_views(s: Seq<&str>) -> Seq<Seq<char>> {
    s.map_values(|x: &str| x@)
}

/// Returns the device extensions a device must enable to use the allocator.
pub fn required_device_extensions() -> (r: Vec<&'static str>)
    ensures
        str_views(r@) == required_extensions(),
{
    let r = vec!["VK_EXT_image_drm_format_modifier", "VK_KHR_image_format_list"];
    assert(str_views(r@) =~= required_extensions());
    r
}

/// Returns the device extensions a device must enable to use all features of the allocator.
///
/// This is a superset of the required device extensions.
pub fn optimal_device_extensions() -> (r: Vec<&'static str>)
    ensures
        str_views(r@) == optimal_extensions(),
{
    let r = vec![
        "VK_EXT_image_drm_format_modifier",
        "VK_KHR_image_format_list",
        "VK_KHR_external_memory_fd",
        "VK_EXT_external_memory_dma_buf",
    ];
    assert(str_views(r@) =~= optimal_extensions());
    r
}

/// Every name of `names` is in `enabled`.
pub open spec fn all_enabled(names: Seq<Seq<char>>, enabled: Seq<Seq<char>>) -> bool {
    forall|i: int| 0 <= i < names.len() ==> enabled.contains(#[trigger] names[i])
}

/// Returns true if every name of `names` is in `enabled`.
fn all_names_enabled(names: &Vec<&'static str>, enabled: &Vec<String>) -> (r: bool)
    ensures
        r == all_enabled(str_views(names@), enabled.deep_view()),
{
    let mut i: usize = 0;
    while i < names.len()
        invariant
            i <= names.len(),
            forall|j: int| 0 <= j < i ==> enabled.deep_view().contains(#[trigger] str_views(names@)[j]),
        decreases names.len() - i,
    {
        if !contains_name(enabled, names[i]) {
            assert(str_views(names@)[i as int] == names@[i as int]@);
            return false;
        }
        i += 1;
    }
    true
}

/// Checks the extensions a device was created with.
///
/// Returns [`VulkanAllocatorError::MissingRequiredExtensions`] if a required extension is not
/// enabled; otherwise whether all the optimal extensions are enabled, that is whether the
/// allocator can import and export dmabufs.
pub fn check_device_extensions(enabled: &Vec<String>) -> (r: Result<bool, VulkanAllocatorError>)
    ensures
        !all_enabled(required_extensions(), enabled.deep_view()) ==> r == Err::<
            bool,
            VulkanAllocatorError,
        >(VulkanAllocatorError::MissingRequiredExtensions),
        all_enabled(required_extensions(), enabled.deep_view()) ==> r == Ok::<
            bool,
            VulkanAllocatorError,
        >(all_enabled(optimal_extensions(), enabled.deep_view())),
{
    if !all_names_enabled(&required_device_extensions(), enabled) {
        return Err(VulkanAllocatorError::MissingRequiredExtensions);
    }
    Ok(all_names_enabled(&optimal_device_extensions(), enabled))
}

/// Checks the format and size of an image request, returning the Vulkan format to create the
/// image with.
pub fn check_image_request(width: u32, height: u32, fourcc: u32) -> (r: Result<
    i32,
    VulkanAllocatorError,
>)
    ensures
        vk_format_of(fourcc) is None ==> r == Err::<i32, VulkanAllocatorError>(
            VulkanAllocatorError::UnsupportedFormat,
        ),
        vk_format_of(fourcc) is Some && (width == 0 || height == 0) ==> r == Err::<
            i32,
            VulkanAllocatorError,
        >(VulkanAllocatorError::InvalidSize),
        vk_format_of(fourcc) is Some && width != 0 && height != 0 ==> r == Ok::<
            i32,
            VulkanAllocatorError,
        >(vk_format_of(fourcc).unwrap()),
{
    let format = match fourcc_to_vk(fourcc) {
        Some((format, _)) => format,
        None => {
            return Err(VulkanAllocatorError::UnsupportedFormat);
        },
    };
    if width == 0 || height == 0 {
        return Err(VulkanAllocatorError::InvalidSize);
    }
    Ok(format)
}

/// The limits Vulkan reports for images of a format, modifier and usage.
#[derive(Debug, Clone, Copy, PartialEq, Eq, Structural)]
pub struct FormatLimits {
    /// The largest width.
    pub max_width: u32,
    /// The largest height.
    pub max_height: u32,
    /// The largest depth.
    pub max_depth: u32,
    /// The bits of the supported sample counts.
    pub sample_counts: u32,
}

/// An image of the given size with one sample fits the limits.
pub open spec fn fits(limits: FormatLimits, width: u32, height: u32) -> bool {
    &&& limits.max_width >= width
    &&& limits.max_height >= height
    &&& limits.max_depth >= 1
    &&& limits.sample_counts & 1u32 == 1u32
}

/// The modifiers whose limits are known and fit an image of the given size, in order.
pub open spec fn usable_modifiers(
    candidates: Seq<(u64, Option<FormatLimits>)>,
    width: u32,
    height: u32,
) -> Seq<u64>
    decreases candidates.len(),
{
    if candidates.len() == 0 {
        Seq::empty()
    } else {
        let rest = usable_modifiers(candidates.drop_last(), width, height);
        let (modifier, limits) = candidates.last();
        match limits {
            Some(l) => if fits(l, width, height) {
                rest.push(modifier)
            } else {
                rest
            },
            None => rest,
        }
    }
}

/// Keeps the modifiers an image of the given size can be created with.
///
/// Each candidate comes with the limits the device reported for it, or none if the device does
/// not support it. Returns [`VulkanAllocatorError::NoModifiers`] if none is left.
pub fn select_modifiers(width: u32, height: u32, candidates: &Vec<(u64, Option<FormatLimits>)>) -> (r:
    Result<Vec<u64>, VulkanAllocatorError>)
    ensures
        usable_modifiers(candidates@, width, height).len() == 0 ==> r == Err::<
            Vec<u64>,
            VulkanAllocatorError,
        >(VulkanAllocatorError::NoModifiers),
        usable_modifiers(candidates@, width, height).len() > 0 ==> (r matches Ok(m) && m@
            == usable_modifiers(candidates@, width, height)),
{
    let mut out: Vec<u64> = Vec::new();
    let mut i: usize = 0;
    while i < candidates.len()
        invariant
            i <= candidates.len(),
            out@ == usable_modifiers(candidates@.take(i as int), width, height),
        decreases candidates.len() - i,
    {
        assert(candidates@.take(i + 1).drop_last() =~= candidates@.take(i as int));
        let (modifier, limits) = candidates[i];
        match limits {
            Some(l) => {
                if l.max_width >= width && l.max_height >= height && l.max_depth >= 1
                    && l.sample_counts & 1u32 == 1u32 {
                    out.push(modifier);
                }
            },
            None => {},
        }
        i += 1;
    }
    assert(candidates@.take(candidates.len() as int) =~= candidates@);
    if out.len() == 0 {
        return Err(VulkanAllocatorError::NoModifiers);
    }
    Ok(out)
}

/// Interprets the result of asking Vulkan for the limits of a format and usage: the limits, none
/// if the combination is not supported (`VK_ERROR_FORMAT_NOT_SUPPORTED`), or the error.
pub fn format_query_outcome(result: Result<FormatLimits, i32>) -> (r: Result<
    Option<FormatLimits>,
    VulkanAllocatorError,
>)
    ensures
        result matches Ok(l) ==> r == Ok::<Option<FormatLimits>, VulkanAllocatorError>(Some(l)),
        result == Err::<FormatLimits, i32>(ERROR_FORMAT_NOT_SUPPORTED) ==> r == Ok::<
            Option<FormatLimits>,
            VulkanAllocatorError,
        >(None),
        match result {
            Err(code) => code != ERROR_FORMAT_NOT_SUPPORTED ==> (r matches Err(
                VulkanAllocatorError::Vk(e),
            ) && e.code() == code && e.kind_of() == kind_of_code(code)),
            Ok(_) => true,
        },
{
    match result {
        Ok(limits) => Ok(Some(limits)),
        Err(code) => {
            if code == ERROR_FORMAT_NOT_SUPPORTED {
                Ok(None)
            } else {
                Err(VulkanAllocatorError::Vk(VkError::from_code(code)))
            }
        },
    }
}

/// A format with a modifier, as DRM names them.
#[derive(Debug, Clone, Copy, PartialEq, Eq, Hash, Structural)]
pub struct DrmFormat {
    /// The fourcc code.
    pub code: u32,
    /// The format modifier.
    pub modifier: u64,
}

/// The formats and modifiers a device can create images with.
pub struct SupportedFormats {
    formats: Vec<DrmFormat>,
}

impl SupportedFormats {
    /// The formats, in the order they were added.
    pub closed spec fn list(&self) -> Seq<DrmFormat> {
        self.formats@
    }

    /// Creates an empty table.
    pub fn new() -> (s: SupportedFormats)
        ensures
            s.list() == Seq::<DrmFormat>::empty(),
    {
        SupportedFormats { formats: Vec::new() }
    }

    /// Adds the modifiers the device reports for a format, in order.
    pub fn add_modifiers(&mut self, code: u32, modifiers: &Vec<u64>)
        ensures
            final(self).list().len() == old(self).list().len() + modifiers@.len(),
            forall|i: int| 0 <= i < old(self).list().len() ==> final(self).list()[i] == old(self).list()[i],
            forall|j: int|
                0 <= j < modifiers@.len() ==> final(self).list()[old(self).list().len() + j]
                    == (DrmFormat { code, modifier: modifiers@[j] }),
    {
        let mut i: usize = 0;
        while i < modifiers.len()
            invariant
                i <= modifiers.len(),
                self.formats@.len() == old(self).formats@.len() + i,
                forall|k: int| 0 <= k < old(self).formats@.len() ==> self.formats@[k] == old(self).formats@[k],
                forall|j: int|
                    0 <= j < i ==> self.formats@[old(self).formats@.len() + j] == (DrmFormat {
                        code,
                        modifier: modifiers@[j],
                    }),
            decreases modifiers.len() - i,
        {
            self.formats.push(DrmFormat { code, modifier: modifiers[i] });
            i += 1;
        }
    }

    /// Returns true if the format with its modifier is in the table.
    pub fn contains(&self, format: DrmFormat) -> (r: bool)
        ensures
            r == self.list().contains(format),
    {
        let mut i: usize = 0;
        while i < self.formats.len()
            invariant
                i <= self.formats.len(),
                forall|j: int| 0 <= j < i ==> self.formats@[j] != format,
            decreases self.formats.len() - i,
        {
            if self.formats[i] == format {
                assert(self.formats@[i as int] == format);
                return true;
            }
            i += 1;
        }
        false
    }

    /// Returns the Vulkan format to ask about a format with, or none if the format is not in
    /// the table, in which case nothing is asked and the format counts as unsupported.
    pub fn query_format(&self, format: DrmFormat) -> (r: Option<i32>)
        requires
            forall|i: int| 0 <= i < self.list().len() ==> vk_format_of(#[trigger] self.list()[i].code) is Some,
        ensures
            !self.list().contains(format) ==> r is None,
            self.list().contains(format) ==> r == vk_format_of(format.code),
    {
        if !self.contains(format) {
            return None;
        }
        match fourcc_to_vk(format.code) {
            Some((vk, _)) => Some(vk),
            None => None,
        }
    }
}

/// Whether a format counts as supported, given the outcome of looking up its limits.
///
/// Any outcome other than an error counts, an unsupported combination too.
pub fn is_format_supported(outcome: &Result<Option<FormatLimits>, VulkanAllocatorError>) -> (r: bool)
    ensures
        r == outcome is Ok,
{
    outcome.is_ok()
}

/// The required device extensions are among the optimal ones.
pub proof fn lemma_optimal_superset()
    ensures
        forall|i: int|
            0 <= i < required_extensions().len() ==> optimal_extensions().contains(
                #[trigger] required_extensions()[i],
            ),
{
    assert(optimal_extensions()[0] == required_extensions()[0]);
    assert(optimal_extensions()[1] == required_extensions()[1]);
}

/// Every name of `names` is in `enabled` exactly when each name that `names` holds, at any
/// position, is in `enabled`.
pub proof fn lemma_all_enabled(names: Seq<Seq<char>>, enabled: Seq<Seq<char>>)
    ensures
        all_enabled(names, enabled) <==> forall|x: Seq<char>| #[trigger] names.contains(x) ==> enabled.contains(x),
        all_enabled(names, enabled) ==> forall|i: int| 0 <= i < names.len() ==> enabled.contains(#[trigger] names[i]),
{
    if all_enabled(names, enabled) {
        assert forall|x: Seq<char>| #[trigger] names.contains(x) implies enabled.contains(x) by {
            let i = choose|i: int| 0 <= i < names.len() && names[i] == x;
            assert(enabled.contains(names[i]));
        }
    }
    if forall|x: Seq<char>| #[trigger] names.contains(x) ==> enabled.contains(x) {
        assert forall|i: int| 0 <= i < names.len() implies enabled.contains(#[trigger] names[i]) by {
            assert(names.contains(names[i]));
        }
    }
}

/// The required extensions are enabled exactly when `VK_EXT_image_drm_format_modifier` and
/// `VK_KHR_image_format_list` both are.
pub proof fn lemma_required_enabled(enabled: Seq<Seq<char>>)
    ensures
        all_enabled(required_extensions(), enabled) <==> (enabled.contains(
            "VK_EXT_image_drm_format_modifier"@,
        ) && enabled.contains("VK_KHR_image_format_list"@)),
{
    let names = required_extensions();
    lemma_all_enabled(names, enabled);
    assert(names[0] == "VK_EXT_image_drm_format_modifier"@);
    assert(names[1] == "VK_KHR_image_format_list"@);
    assert(names.contains(names[0]));
    assert(names.contains(names[1]));
    if enabled.contains("VK_EXT_image_drm_format_modifier"@) && enabled.contains("VK_KHR_image_format_list"@) {
        assert forall|i: int| 0 <= i < names.len() implies enabled.contains(#[trigger] names[i]) by {
            if i == 0 {
            } else {
                assert(i == 1);
            }
        }
    }
}

/// The optimal extensions, with which dmabufs can be imported and exported, are enabled
/// exactly when all four of `VK_EXT_image_drm_format_modifier`, `VK_KHR_image_format_list`,
/// `VK_KHR_external_memory_fd` and `VK_EXT_external_memory_dma_buf` are.
pub proof fn lemma_optimal_enabled(enabled: Seq<Seq<char>>)
    ensures
        all_enabled(optimal_extensions(), enabled) <==> (enabled.contains(
            "VK_EXT_image_drm_format_modifier"@,
        ) && enabled.contains("VK_KHR_image_format_list"@) && enabled.contains(
            "VK_KHR_external_memory_fd"@,
        ) && enabled.contains("VK_EXT_external_memory_dma_buf"@)),
        all_enabled(optimal_extensions(), enabled) ==> all_enabled(required_extensions(), enabled),
{
    let names = optimal_extensions();
    lemma_all_enabled(names, enabled);
    lemma_required_enabled(enabled);
    assert(names[0] == "VK_EXT_image_drm_format_modifier"@);
    assert(names[1] == "VK_KHR_image_format_list"@);
    assert(names[2] == "VK_KHR_external_memory_fd"@);
    assert(names[3] == "VK_EXT_external_memory_dma_buf"@);
    assert(names.contains(names[0]));
    assert(names.contains(names[1]));
    assert(names.contains(names[2]));
    assert(names.contains(names[3]));
    if enabled.contains("VK_EXT_image_drm_format_modifier"@) && enabled.contains("VK_KHR_image_format_list"@)
        && enabled.contains("VK_KHR_external_memory_fd"@) && enabled.contains("VK_EXT_external_memory_dma_buf"@) {
        assert forall|i: int| 0 <= i < names.len() implies enabled.contains(#[trigger] names[i]) by {
            if i == 0 {
            } else if i == 1 {
            } else if i == 2 {
            } else {
                assert(i == 3);
            }
        }
    }
}

/// An image fits the limits exactly when its width is within the largest width, its height
/// within the largest height, a depth of one is allowed and a single sample is supported.
pub proof fn lemma_fits(limits: FormatLimits, width: u32, height: u32)
    ensures
        fits(limits, width, height) <==> (width <= limits.max_width && height <= limits.max_height
            && 1 <= limits.max_depth && limits.sample_counts % 2 == 1),
{
    let c = limits.sample_counts;
    assert((c & 1u32 == 1u32) <==> (c % 2 == 1)) by (bit_vector);
}

/// The modifiers kept for an image are exactly those of candidates whose limits are known and
/// let the image's width within the largest width and its height within the largest height,
/// with a depth of one and a single sample.
pub proof fn lemma_usable_modifiers(
    candidates: Seq<(u64, Option<FormatLimits>)>,
    width: u32,
    height: u32,
    m: u64,
)
    ensures
        usable_modifiers(candidates, width, height).contains(m) <==> exists|i: int|
            0 <= i < candidates.len() && #[trigger] candidates[i].0 == m && (
            candidates[i].1 matches Some(l) && width <= l.max_width && height <= l.max_height
                && 1 <= l.max_depth && l.sample_counts % 2 == 1),
        usable_modifiers(candidates, width, height).len() <= candidates.len(),
    decreases candidates.len(),
{
    if candidates.len() > 0 {
        let init = candidates.drop_last();
        lemma_usable_modifiers(init, width, height, m);
        let rest = usable_modifiers(init, width, height);
        let n = candidates.len() - 1;
        let (modifier, limits) = candidates.last();
        match limits {
            Some(l) => lemma_fits(l, width, height),
            None => {},
        }
        let u = usable_modifiers(candidates, width, height);
        if u.contains(m) {
            let k = choose|k: int| 0 <= k < u.len() && u[k] == m;
            if k < rest.len() {
                assert(rest[k] == m);
                let i = choose|i: int|
                    0 <= i < init.len() && #[trigger] init[i].0 == m && (init[i].1 matches Some(l)
                        && width <= l.max_width && height <= l.max_height && 1 <= l.max_depth
                        && l.sample_counts % 2 == 1);
                assert(candidates[i] == init[i]);
            } else {
                assert(candidates[n] == candidates.last());
            }
        }
        if exists|i: int|
            0 <= i < candidates.len() && #[trigger] candidates[i].0 == m && (candidates[i].1 matches Some(l)
                && width <= l.max_width && height <= l.max_height && 1 <= l.max_depth
                && l.sample_counts % 2 == 1) {
            let i = choose|i: int|
                0 <= i < candidates.len() && #[trigger] candidates[i].0 == m && (candidates[i].1 matches Some(l)
                    && width <= l.max_width && height <= l.max_height && 1 <= l.max_depth
                    && l.sample_counts % 2 == 1);
            if i < n {
                assert(init[i] == candidates[i]);
                assert(rest.contains(m));
                let k = choose|k: int| 0 <= k < rest.len() && rest[k] == m;
                assert(u[k] == m);
            } else {
                assert(candidates.last() == candidates[i]);
                assert(u[rest.len() as int] == m);
            }
        }
    }
}

} // verus!

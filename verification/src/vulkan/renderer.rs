//! Decisions of the Vulkan renderer: its errors, the count of device memory allocations and the
//! choice of a memory type.

use std::sync::Arc;
use std::sync::atomic::{AtomicUsize, Ordering};

use vstd::prelude::*;

use crate::format::{FOURCC_ARGB8888, FOURCC_XRGB8888, WL_SHM_ARGB8888, WL_SHM_XRGB8888, fourcc_to_wl, wl_shm_format_code};
use crate::vulkan::UnsupportedVulkanVersion;
use crate::vulkan::allocator::DrmFormat;
use crate::vulkan::error::VkError;

verus! {

/// An error of the Vulkan renderer.
#[derive(Debug, Clone, Copy, PartialEq, Eq, Structural)]
pub enum Error {
    /// Vulkan API error.
    Vk(VkError),
    /// The Vulkan API version is too old.
    Version(UnsupportedVulkanVersion),
    /// The required extensions are not enabled.
    MissingRequiredExtensions,
    /// There is no target framebuffer to render to.
    NoTargetFramebuffer,
    /// The extensions required for dmabuf import or export are not enabled or available.
    DmabufNotSupported,
    /// The required `wl_shm` formats are not supported.
    MissingRequiredFormats,
    /// The maximum number of device allocations has been reached; the count found is given.
    TooManyAllocations(usize),
}

/// The allocation count that follows `count` when one more allocation is made, or none if one
/// more would exceed the maximum or the count cannot grow.
pub open spec fn next_count(max: usize, count: usize) -> Option<usize> {
    if max <= count {
        None
    } else if count == usize::MAX {
        None
    } else {
        Some((count + 1) as usize)
    }
}

/// `AtomicUsize::fetch_update`, asked to apply [`Allocator::next_allocation_count`].
///
/// The update is retried until it applies to the value then held, which the call returns as
/// `Ok`, or until the function refuses that value, which the call returns as `Err`. What the
/// value is depends on other threads, so the contract only ties the result to the function.
#[verifier::external_body]
fn count_up(count: &AtomicUsize, max: usize) -> (r: Result<usize, usize>)
    ensures
        match r {
            Ok(prev) => next_count(max, prev) is Some,
            Err(prev) => next_count(max, prev) is None,
        },
{
    count.fetch_update(
        Ordering::Release,
        Ordering::Relaxed,
        |c| Allocator::next_allocation_count(max, c),
    )
}

/// `AtomicUsize::fetch_update` with `usize::checked_sub(1)`: decreases the value unless it is
/// zero, and returns the value it found. Neither the update nor `checked_sub` panics.
#[verifier::external_body]
fn count_down(count: &AtomicUsize) -> (r: Result<usize, usize>)
    ensures
        match r {
            Ok(prev) => prev > 0,
            Err(prev) => prev == 0,
        },
    opens_invariants none
    no_unwind
{
    count.fetch_update(Ordering::Release, Ordering::Relaxed, |c| c.checked_sub(1))
}

/// `Arc::clone`: another pointer to the same allocation, so the clone is the same counter.
#[verifier::external_body]
fn share_counter(count: &Arc<AtomicUsize>) -> (r: Arc<AtomicUsize>)
    ensures
        r == *count,
{
    count.clone()
}

/// Counts the device memory allocations of a renderer against a maximum.
pub struct Allocator {
    allocation_count: Arc<AtomicUsize>,
    max_allocation_count: usize,
}

impl Allocator {
    /// The most allocations the counter accepts before it refuses one.
    pub closed spec fn max(&self) -> usize {
        self.max_allocation_count
    }

    /// The shared counter of allocations.
    pub closed spec fn counter(&self) -> Arc<AtomicUsize> {
        self.allocation_count
    }

    /// Creates a counter with no allocation, accepting up to `max_allocation_count`.
    pub fn new(max_allocation_count: usize) -> (a: Allocator)
        ensures
            a.max() == max_allocation_count,
    {
        Allocator { allocation_count: Arc::new(AtomicUsize::new(0)), max_allocation_count }
    }

    /// The count that follows `count` when one more allocation is made: none if one more would
    /// exceed the maximum or the count cannot grow.
    pub fn next_allocation_count(max: usize, count: usize) -> (r: Option<usize>)
        ensures
            r == next_count(max, count),
    {
        // Fail if the maximum allocation count would be exceeded.
        if max <= count {
            return None;
        }
        count.checked_add(1)
    }

    /// Counts one more allocation and returns the token that tracks it.
    ///
    /// Returns [`Error::TooManyAllocations`] with the count found if the maximum number of
    /// allocations is exceeded.
    pub fn new_id(&self) -> (r: Result<AllocationId, Error>)
        ensures
            r matches Ok(id) ==> id.counter() == self.counter(),
            r matches Err(e) ==> (e matches Error::TooManyAllocations(c) && next_count(self.max(), c)
                is None),
    {
        let count = share_counter(&self.allocation_count);
        match count_up(&count, self.max_allocation_count) {
            Ok(_) => Ok(AllocationId(count)),
            Err(found) => Err(Error::TooManyAllocations(found)),
        }
    }
}

/// The property flags `have` contain all of `want`.
pub open spec fn has_flags(have: u32, want: u32) -> bool {
    have & want == want
}

/// The number of memory types that are looked at: the count the device reports, but no more than
/// there are entries.
pub open spec fn types_in_use(types: Seq<u32>, count: u32) -> nat {
    if (count as nat) < types.len() {
        count as nat
    } else {
        types.len()
    }
}

/// The memory type `i` is allowed by `required_bits` and its property flags contain `flags`.
pub open spec fn suitable_type(types: Seq<u32>, i: int, required_bits: u32, flags: u32) -> bool {
    required_bits & (1u32 << (i as u32)) != 0 && has_flags(types[i], flags)
}

/// Returns the index of the first memory type that is allowed by `required_bits` and whose
/// property flags contain `flags`.
///
/// `type_flags` holds the property flags of the device's memory types and `type_count` the
/// number of them in use.
pub fn memory_type_index(type_flags: &Vec<u32>, type_count: u32, required_bits: u32, flags: u32) -> (r:
    Option<usize>)
    requires
        type_flags.len() <= 32,
    ensures
        match r {
            Some(i) => i < types_in_use(type_flags@, type_count) && suitable_type(
                type_flags@,
                i as int,
                required_bits,
                flags,
            ) && forall|j: int|
                0 <= j < i ==> !#[trigger] suitable_type(type_flags@, j, required_bits, flags),
            None => forall|j: int|
                0 <= j < types_in_use(type_flags@, type_count) ==> !#[trigger] suitable_type(
                    type_flags@,
                    j,
                    required_bits,
                    flags,
                ),
        },
{
    let limit: usize = if (type_count as usize) < type_flags.len() {
        type_count as usize
    } else {
        type_flags.len()
    };
    assert(limit == types_in_use(type_flags@, type_count));
    let mut i: usize = 0;
    while i < limit
        invariant
            limit == types_in_use(type_flags@, type_count),
            limit <= type_flags@.len() <= 32,
            i <= limit,
            forall|j: int| 0 <= j < i ==> !#[trigger] suitable_type(type_flags@, j, required_bits, flags),
        decreases limit - i,
    {
        let bit: u32 = 1u32 << (i as u32);
        if required_bits & bit != 0 && type_flags[i] & flags == flags {
            assert(suitable_type(type_flags@, i as int, required_bits, flags));
            return Some(i);
        }
        assert(!suitable_type(type_flags@, i as int, required_bits, flags));
        i += 1;
    }
    None
}

/// The format features, as `VkFormatFeatureFlags` bits, a format needs to be rendered to:
/// color attachment and color attachment blending.
pub const RENDER_FEATURES: u32 = 0x180;
/// The format features a format needs to be a texture: sampled image, transfer source and
/// transfer destination.
pub const TEXTURE_FEATURES: u32 = 0xc001;
/// The format features a format needs to be a dmabuf texture: sampled image.
pub const DMA_TEXTURE_FEATURES: u32 = 0x1;
/// The image usage, as `VkImageUsageFlags` bits, of textures: sampled and transfer destination.
pub const TEXTURE_USAGE: u32 = 0x6;
/// The image usage of render targets: color attachment.
pub const RENDER_USAGE: u32 = 0x10;
/// The image usage of dmabuf textures: sampled.
pub const DMA_TEXTURE_USAGE: u32 = 0x4;
/// The external memory feature of memory that can be imported, `VK_EXTERNAL_MEMORY_FEATURE_IMPORTABLE_BIT`.
pub const EXTERNAL_MEMORY_IMPORTABLE: u32 = 0x4;

/// Returns true if the flags `have` contain all the flags `want`.
pub fn contains_flags(have: u32, want: u32) -> (r: bool)
    ensures
        r == has_flags(have, want),
{
    have & want == want
}

/// What a `wl_shm` format is backed by in the renderer.
#[derive(Debug, Clone, Copy, PartialEq, Eq, Structural)]
pub struct ShmFormatInfo {
    /// The `wl_shm` code.
    pub shm: u32,
    /// The raw Vulkan format.
    pub vk: i32,
    /// The largest width of a texture.
    pub max_width: u32,
    /// The largest height of a texture.
    pub max_height: u32,
}

/// The formats the renderer found it can use, collected while probing the device.
pub struct RendererFormats {
    dma_render_formats: Vec<DrmFormat>,
    dma_texture_formats: Vec<DrmFormat>,
    shm_format_info: Vec<ShmFormatInfo>,
    shm_formats: Vec<u32>,
}

/// The code is one of the two `wl_shm` formats every renderer must support.
pub open spec fn mandatory_shm(code: u32) -> bool {
    code == WL_SHM_ARGB8888 || code == WL_SHM_XRGB8888
}

/// The `wl_shm` code of a fourcc code, as [`fourcc_to_wl`] gives it.
pub open spec fn wl_code_of(fourcc: u32) -> Option<u32> {
    if fourcc == FOURCC_ARGB8888 {
        Some(WL_SHM_ARGB8888)
    } else if fourcc == FOURCC_XRGB8888 {
        Some(WL_SHM_XRGB8888)
    } else {
        wl_shm_format_code(fourcc)
    }
}

/// What the device reported for one modifier of a format.
#[derive(Debug, Clone, Copy, PartialEq, Eq, Structural)]
pub struct ModifierProbe {
    /// The format modifier.
    pub modifier: u64,
    /// The tiling features of the modifier, as `VkFormatFeatureFlags` bits.
    pub tiling_features: u32,
    /// The external memory features of dmabuf images for rendering, when the modifier has the
    /// render features and the device supports such images.
    pub render_external: Option<u32>,
    /// The external memory features of dmabuf images for texturing, when the modifier has the
    /// dmabuf texture features and the device supports such images.
    pub texture_external: Option<u32>,
}

/// What the device reported of textures of a format in optimal tiling.
#[derive(Debug, Clone, Copy, PartialEq, Eq, Structural)]
pub struct MemoryProbe {
    /// The optimal tiling features of the format.
    pub optimal_tiling_features: u32,
    /// The largest width of a texture.
    pub max_width: u32,
    /// The largest height of a texture.
    pub max_height: u32,
}

/// What the device reported for one format.
#[derive(Debug, Clone)]
pub struct FormatProbe {
    /// The fourcc code.
    pub fourcc: u32,
    /// The raw Vulkan format.
    pub vk: i32,
    /// The modifiers the device lists for the format.
    pub modifiers: Vec<ModifierProbe>,
    /// The texture properties, when the device supports textures of the format.
    pub memory: Option<MemoryProbe>,
}

/// The formats with modifiers among `mods` that can be rendered to through dmabufs.
pub open spec fn probe_render(fourcc: u32, mods: Seq<ModifierProbe>) -> Seq<DrmFormat>
    decreases mods.len(),
{
    if mods.len() == 0 {
        Seq::empty()
    } else {
        let r = probe_render(fourcc, mods.drop_last());
        let m = mods.last();
        if has_flags(m.tiling_features, RENDER_FEATURES) && (m.render_external matches Some(f)
            && has_flags(f, EXTERNAL_MEMORY_IMPORTABLE)) {
            r.push(DrmFormat { code: fourcc, modifier: m.modifier })
        } else {
            r
        }
    }
}

/// The formats with modifiers among `mods` that can be dmabuf textures.
pub open spec fn probe_texture(fourcc: u32, mods: Seq<ModifierProbe>) -> Seq<DrmFormat>
    decreases mods.len(),
{
    if mods.len() == 0 {
        Seq::empty()
    } else {
        let r = probe_texture(fourcc, mods.drop_last());
        let m = mods.last();
        if has_flags(m.tiling_features, DMA_TEXTURE_FEATURES) && (m.texture_external matches Some(f)
            && has_flags(f, EXTERNAL_MEMORY_IMPORTABLE)) {
            r.push(DrmFormat { code: fourcc, modifier: m.modifier })
        } else {
            r
        }
    }
}

/// The format of the probe can back `wl_shm` buffers.
pub open spec fn probe_is_shm(p: FormatProbe) -> bool {
    p.memory matches Some(mem) && has_flags(mem.optimal_tiling_features, TEXTURE_FEATURES)
        && wl_code_of(p.fourcc) is Some
}

/// The `wl_shm` format the probe gives, if any, and how it is backed.
pub open spec fn probe_shm_info(p: FormatProbe) -> Seq<ShmFormatInfo> {
    if probe_is_shm(p) {
        seq![
            ShmFormatInfo {
                shm: wl_code_of(p.fourcc).unwrap(),
                vk: p.vk,
                max_width: p.memory.unwrap().max_width,
                max_height: p.memory.unwrap().max_height,
            },
        ]
    } else {
        Seq::empty()
    }
}

/// The `wl_shm` code the probe gives, if any.
pub open spec fn probe_shm(p: FormatProbe) -> Seq<u32> {
    if probe_is_shm(p) {
        seq![wl_code_of(p.fourcc).unwrap()]
    } else {
        Seq::empty()
    }
}

/// The dmabuf render formats that the probes of `ps` give, in order.
pub open spec fn probes_render(ps: Seq<FormatProbe>) -> Seq<DrmFormat>
    decreases ps.len(),
{
    if ps.len() == 0 {
        Seq::empty()
    } else {
        probes_render(ps.drop_last()) + probe_render(ps.last().fourcc, ps.last().modifiers@)
    }
}

/// The dmabuf texture formats that the probes of `ps` give, in order.
pub open spec fn probes_texture(ps: Seq<FormatProbe>) -> Seq<DrmFormat>
    decreases ps.len(),
{
    if ps.len() == 0 {
        Seq::empty()
    } else {
        probes_texture(ps.drop_last()) + probe_texture(ps.last().fourcc, ps.last().modifiers@)
    }
}

/// The `wl_shm` formats that the probes of `ps` give, with how they are backed, in order.
pub open spec fn probes_shm_info(ps: Seq<FormatProbe>) -> Seq<ShmFormatInfo>
    decreases ps.len(),
{
    if ps.len() == 0 {
        Seq::empty()
    } else {
        probes_shm_info(ps.drop_last()) + probe_shm_info(ps.last())
    }
}

/// The `wl_shm` codes that the probes of `ps` give, in order.
pub open spec fn probes_shm(ps: Seq<FormatProbe>) -> Seq<u32>
    decreases ps.len(),
{
    if ps.len() == 0 {
        Seq::empty()
    } else {
        probes_shm(ps.drop_last()) + probe_shm(ps.last())
    }
}

impl RendererFormats {
    /// The formats with modifiers that can be rendered to through dmabufs, in order found.
    pub closed spec fn dma_render(&self) -> Seq<DrmFormat> {
        self.dma_render_formats@
    }

    /// The formats with modifiers that can be dmabuf textures, in order found.
    pub closed spec fn dma_texture(&self) -> Seq<DrmFormat> {
        self.dma_texture_formats@
    }

    /// The `wl_shm` formats and how they are backed, in order found.
    pub closed spec fn shm_info(&self) -> Seq<ShmFormatInfo> {
        self.shm_format_info@
    }

    /// The `wl_shm` codes, in order found.
    pub closed spec fn shm(&self) -> Seq<u32> {
        self.shm_formats@
    }

    /// Creates an empty collection.
    pub fn new() -> (f: RendererFormats)
        ensures
            f.dma_render() == Seq::<DrmFormat>::empty(),
            f.dma_texture() == Seq::<DrmFormat>::empty(),
            f.shm_info() == Seq::<ShmFormatInfo>::empty(),
            f.shm() == Seq::<u32>::empty(),
    {
        RendererFormats {
            dma_render_formats: Vec::new(),
            dma_texture_formats: Vec::new(),
            shm_format_info: Vec::new(),
            shm_formats: Vec::new(),
        }
    }

    /// Records a format and modifier as a dmabuf render target if the device reported memory of
    /// it as importable; `external_memory_features` is what it reported, or none if the usage
    /// is not supported.
    pub fn add_dma_render(&mut self, format: DrmFormat, external_memory_features: Option<u32>)
        ensures
            final(self).dma_render() == (match external_memory_features {
                Some(f) => if has_flags(f, EXTERNAL_MEMORY_IMPORTABLE) {
                    old(self).dma_render().push(format)
                } else {
                    old(self).dma_render()
                },
                None => old(self).dma_render(),
            }),
            final(self).dma_texture() == old(self).dma_texture(),
            final(self).shm_info() == old(self).shm_info(),
            final(self).shm() == old(self).shm(),
    {
        if let Some(features) = external_memory_features {
            if contains_flags(features, EXTERNAL_MEMORY_IMPORTABLE) {
                self.dma_render_formats.push(format);
            }
        }
    }

    /// Records a format and modifier as a dmabuf texture format if the device reported memory of
    /// it as importable.
    pub fn add_dma_texture(&mut self, format: DrmFormat, external_memory_features: Option<u32>)
        ensures
            final(self).dma_texture() == (match external_memory_features {
                Some(f) => if has_flags(f, EXTERNAL_MEMORY_IMPORTABLE) {
                    old(self).dma_texture().push(format)
                } else {
                    old(self).dma_texture()
                },
                None => old(self).dma_texture(),
            }),
            final(self).dma_render() == old(self).dma_render(),
            final(self).shm_info() == old(self).shm_info(),
            final(self).shm() == old(self).shm(),
    {
        if let Some(features) = external_memory_features {
            if contains_flags(features, EXTERNAL_MEMORY_IMPORTABLE) {
                self.dma_texture_formats.push(format);
            }
        }
    }

    /// Records a format as a `wl_shm` format if its optimal tiling supports textures and
    /// `wl_shm` has a code for it.
    pub fn add_shm(&mut self, fourcc: u32, vk: i32, optimal_tiling_features: u32, max_width: u32, max_height: u32)
        ensures
            final(self).dma_render() == old(self).dma_render(),
            final(self).dma_texture() == old(self).dma_texture(),
            has_flags(optimal_tiling_features, TEXTURE_FEATURES) && wl_code_of(fourcc) is Some ==> {
                let shm = wl_code_of(fourcc).unwrap();
                &&& final(self).shm_info() == old(self).shm_info().push(
                    ShmFormatInfo { shm, vk, max_width, max_height },
                )
                &&& final(self).shm() == old(self).shm().push(shm)
            },
            !(has_flags(optimal_tiling_features, TEXTURE_FEATURES) && wl_code_of(fourcc) is Some)
                ==> final(self).shm_info() == old(self).shm_info() && final(self).shm() == old(
                self,
            ).shm(),
    {
        if contains_flags(optimal_tiling_features, TEXTURE_FEATURES) {
            if let Some(shm) = fourcc_to_wl(fourcc) {
                self.shm_format_info.push(ShmFormatInfo { shm, vk, max_width, max_height });
                self.shm_formats.push(shm);
            }
        }
    }

    /// Adds what the device reported for a format: each modifier with the render features whose
    /// dmabuf images can be imported is a render format, each with the dmabuf texture features
    /// whose images can be imported is a texture format, and the format backs `wl_shm` buffers
    /// when its textures have the texture features.
    pub fn add_probe(&mut self, p: &FormatProbe)
        ensures
            final(self).dma_render() == old(self).dma_render() + probe_render(p.fourcc, p.modifiers@),
            final(self).dma_texture() == old(self).dma_texture() + probe_texture(p.fourcc, p.modifiers@),
            final(self).shm_info() == old(self).shm_info() + probe_shm_info(*p),
            final(self).shm() == old(self).shm() + probe_shm(*p),
    {
        let mut j: usize = 0;
        assert(p.modifiers@.take(0) =~= Seq::<ModifierProbe>::empty());
        assert(old(self).dma_render() + Seq::<DrmFormat>::empty() =~= old(self).dma_render());
        assert(old(self).dma_texture() + Seq::<DrmFormat>::empty() =~= old(self).dma_texture());
        while j < p.modifiers.len()
            invariant
                j <= p.modifiers.len(),
                self.dma_render() == old(self).dma_render() + probe_render(p.fourcc, p.modifiers@.take(j as int)),
                self.dma_texture() == old(self).dma_texture() + probe_texture(p.fourcc, p.modifiers@.take(j as int)),
                self.shm_info() == old(self).shm_info(),
                self.shm() == old(self).shm(),
            decreases p.modifiers.len() - j,
        {
            let m = p.modifiers[j];
            let format = DrmFormat { code: p.fourcc, modifier: m.modifier };
            if contains_flags(m.tiling_features, RENDER_FEATURES) {
                self.add_dma_render(format, m.render_external);
            }
            if contains_flags(m.tiling_features, DMA_TEXTURE_FEATURES) {
                self.add_dma_texture(format, m.texture_external);
            }
            proof {
                let t = p.modifiers@.take(j + 1);
                assert(t.drop_last() =~= p.modifiers@.take(j as int));
                assert(t.last() == m);
            }
            j += 1;
        }
        assert(p.modifiers@.take(j as int) =~= p.modifiers@);
        let ghost r = self.dma_render();
        let ghost x = self.dma_texture();
        match p.memory {
            Some(mem) => {
                self.add_shm(p.fourcc, p.vk, mem.optimal_tiling_features, mem.max_width, mem.max_height);
            },
            None => {},
        }
        proof {
            if probe_is_shm(*p) {
                assert(probe_shm_info(*p) == seq![
                    ShmFormatInfo {
                        shm: wl_code_of(p.fourcc).unwrap(),
                        vk: p.vk,
                        max_width: p.memory.unwrap().max_width,
                        max_height: p.memory.unwrap().max_height,
                    },
                ]);
            } else {
                assert(old(self).shm_info() + probe_shm_info(*p) =~= old(self).shm_info());
                assert(old(self).shm() + probe_shm(*p) =~= old(self).shm());
            }
        }
    }

    /// Collects the formats the probes give, format by format in order.
    pub fn load(probes: &Vec<FormatProbe>) -> (f: RendererFormats)
        ensures
            f.dma_render() == probes_render(probes@),
            f.dma_texture() == probes_texture(probes@),
            f.shm_info() == probes_shm_info(probes@),
            f.shm() == probes_shm(probes@),
    {
        let mut f = RendererFormats::new();
        let mut i: usize = 0;
        assert(probes@.take(0) =~= Seq::<FormatProbe>::empty());
        while i < probes.len()
            invariant
                i <= probes.len(),
                f.dma_render() == probes_render(probes@.take(i as int)),
                f.dma_texture() == probes_texture(probes@.take(i as int)),
                f.shm_info() == probes_shm_info(probes@.take(i as int)),
                f.shm() == probes_shm(probes@.take(i as int)),
            decreases probes.len() - i,
        {
            f.add_probe(&probes[i]);
            proof {
                let t = probes@.take(i + 1);
                assert(t.drop_last() =~= probes@.take(i as int));
                assert(t.last() == probes@[i as int]);
            }
            i += 1;
        }
        assert(probes@.take(i as int) =~= probes@);
        f
    }

    /// The formats with modifiers that can be rendered to through dmabufs.
    pub fn dma_render_formats(&self) -> (r: &Vec<DrmFormat>)
        ensures
            r@ == self.dma_render(),
    {
        &self.dma_render_formats
    }

    /// The formats with modifiers that can be dmabuf textures.
    pub fn dma_texture_formats(&self) -> (r: &Vec<DrmFormat>)
        ensures
            r@ == self.dma_texture(),
    {
        &self.dma_texture_formats
    }

    /// The `wl_shm` formats and how they are backed.
    pub fn shm_format_info(&self) -> (r: &Vec<ShmFormatInfo>)
        ensures
            r@ == self.shm_info(),
    {
        &self.shm_format_info
    }

    /// The `wl_shm` codes.
    pub fn shm_formats(&self) -> (r: &Vec<u32>)
        ensures
            r@ == self.shm(),
    {
        &self.shm_formats
    }

    /// Returns [`Error::MissingRequiredFormats`] unless both mandatory formats, ARGB8888 and
    /// XRGB8888, were found among the `wl_shm` formats.
    pub fn check_mandatory(&self) -> (r: Result<(), Error>)
        ensures
            r == (if self.shm().contains(WL_SHM_ARGB8888) && self.shm().contains(WL_SHM_XRGB8888) {
                Ok::<(), Error>(())
            } else {
                Err(Error::MissingRequiredFormats)
            }),
    {
        let mut argb = false;
        let mut xrgb = false;
        let mut i: usize = 0;
        while i < self.shm_formats.len()
            invariant
                i <= self.shm_formats.len(),
                argb == self.shm_formats@.take(i as int).contains(WL_SHM_ARGB8888),
                xrgb == self.shm_formats@.take(i as int).contains(WL_SHM_XRGB8888),
            decreases self.shm_formats.len() - i,
        {
            let ghost t = self.shm_formats@.take(i as int);
            assert(self.shm_formats@.take(i + 1) =~= t.push(self.shm_formats@[i as int]));
            let code = self.shm_formats[i];
            if code == WL_SHM_ARGB8888 {
                argb = true;
            }
            if code == WL_SHM_XRGB8888 {
                xrgb = true;
            }
            proof {
                let t1 = t.push(code);
                assert(t1[t.len() as int] == code);
                assert forall|c: u32| t1.contains(c) <==> t.contains(c) || c == code by {
                    if t.contains(c) {
                        let w = choose|w: int| 0 <= w < t.len() && t[w] == c;
                        assert(t1[w] == c);
                    }
                    if t1.contains(c) && c != code {
                        let w = choose|w: int| 0 <= w < t1.len() && t1[w] == c;
                        assert(t[w] == c);
                    }
                }
            }
            i += 1;
        }
        assert(self.shm_formats@.take(i as int) =~= self.shm_formats@);
        if argb && xrgb {
            Ok(())
        } else {
            Err(Error::MissingRequiredFormats)
        }
    }
}

/// Whether `len` bytes hold an ARGB8888 image of the given size: the byte count, four per
/// pixel, is not negative and at most `len`.
pub open spec fn shm_data_fits(width: i32, height: i32, len: usize) -> bool {
    0 <= width * height * 4 <= len
}

/// Returns true if `len` bytes hold an ARGB8888 image of the given size, as checked before
/// memory is imported.
///
/// The byte count is computed in `i32`, so it must fit there; a negative count never fits.
pub fn shm_data_len_fits(width: i32, height: i32, len: usize) -> (r: bool)
    requires
        i32::MIN <= width * height <= i32::MAX,
        i32::MIN <= width * height * 4 <= i32::MAX,
    ensures
        r == shm_data_fits(width, height, len),
{
    let bytes: i32 = width * height * 4;
    if bytes < 0 {
        false
    } else {
        (bytes as usize) <= len
    }
}

/// A token held for the lifetime of one allocation; dropping it decreases the count.
#[derive(Debug)]
pub struct AllocationId(Arc<AtomicUsize>);

impl AllocationId {
    /// The counter that dropping the token decreases.
    pub closed spec fn counter(&self) -> Arc<AtomicUsize> {
        self.0
    }
}

impl Drop for AllocationId {
    fn drop(&mut self)
        opens_invariants none
        no_unwind
    {
        let _ = count_down(&self.0);
    }
}

/// Containing all wanted flags means that every wanted bit is set: the wanted flags add nothing
/// to the flags present, no flags are always contained, and flags contain themselves.
pub proof fn lemma_has_flags(have: u32, want: u32)
    ensures
        has_flags(have, want) <==> (have | want) == have,
        has_flags(have, want) ==> (have & want) == want,
        has_flags(have, 0u32),
        has_flags(have, have),
        (have & want) != want ==> !has_flags(have, want),
{
    assert(((have & want) == want) <==> ((have | want) == have)) by (bit_vector);
    assert((have & 0u32) == 0u32) by (bit_vector);
    assert((have & have) == have) by (bit_vector);
}

/// Memory type `i` of the first 32 is suitable exactly when bit `i` of `required_bits` is set
/// and its property flags contain every one of `flags`.
pub proof fn lemma_suitable_type(types: Seq<u32>, i: int, required_bits: u32, flags: u32)
    requires
        0 <= i < 32,
    ensures
        suitable_type(types, i, required_bits, flags) <==> ((required_bits >> (i as u32)) & 1u32
            == 1u32 && (types[i] & flags) == flags),
{
    let k = i as u32;
    assert((required_bits & (1u32 << k) != 0u32) <==> ((required_bits >> k) & 1u32 == 1u32)) by (bit_vector)
        requires
            k < 32u32,
    ;
}

/// What [`memory_type_index`] returns: a memory type among those in use that `required_bits`
/// allows and whose property flags contain all of `flags`, no earlier such type existing; or
/// none when no type in use is allowed and contains them all.
pub proof fn lemma_memory_type_index_result(
    types: Seq<u32>,
    type_count: u32,
    required_bits: u32,
    flags: u32,
    r: Option<usize>,
)
    requires
        types.len() <= 32,
        match r {
            Some(i) => i < types_in_use(types, type_count) && suitable_type(
                types,
                i as int,
                required_bits,
                flags,
            ) && forall|j: int| 0 <= j < i ==> !#[trigger] suitable_type(types, j, required_bits, flags),
            None => forall|j: int|
                0 <= j < types_in_use(types, type_count) ==> !#[trigger] suitable_type(
                    types,
                    j,
                    required_bits,
                    flags,
                ),
        },
    ensures
        match r {
            Some(i) => {
                &&& i < type_count && i < types.len()
                &&& (types[i as int] & flags) == flags
                &&& (required_bits >> (i as u32)) & 1u32 == 1u32
                &&& forall|j: int|
                    0 <= j < i ==> !((#[trigger] types[j] & flags) == flags && (required_bits >> (
                    j as u32)) & 1u32 == 1u32)
            },
            None => forall|j: int|
                0 <= j < type_count && j < types.len() ==> !((#[trigger] types[j] & flags) == flags
                    && (required_bits >> (j as u32)) & 1u32 == 1u32),
        },
{
    match r {
        Some(i) => {
            lemma_suitable_type(types, i as int, required_bits, flags);
            assert forall|j: int| 0 <= j < i implies !((#[trigger] types[j] & flags) == flags && (
            required_bits >> (j as u32)) & 1u32 == 1u32) by {
                assert(!suitable_type(types, j, required_bits, flags));
                lemma_suitable_type(types, j, required_bits, flags);
            }
        },
        None => {
            assert forall|j: int| 0 <= j < type_count && j < types.len() implies !((
            #[trigger] types[j] & flags) == flags && (required_bits >> (j as u32)) & 1u32 == 1u32) by {
                assert(!suitable_type(types, j, required_bits, flags));
                lemma_suitable_type(types, j, required_bits, flags);
            }
        },
    }
}

/// The number of memory types in use is the smaller of the count the device reports and the
/// number of entries.
pub proof fn lemma_types_in_use(types: Seq<u32>, count: u32)
    ensures
        types_in_use(types, count) <= types.len(),
        types_in_use(types, count) <= count,
        types_in_use(types, count) == count || types_in_use(types, count) == types.len(),
{
}

/// A modifier is a dmabuf render format exactly when its tiling features contain the render
/// features and the external memory features reported for render usage make it importable;
/// what is reported for texture usage plays no part.
pub proof fn lemma_probe_render(fourcc: u32, mods: Seq<ModifierProbe>, d: DrmFormat)
    ensures
        probe_render(fourcc, mods).contains(d) <==> exists|i: int|
            0 <= i < mods.len() && d.code == fourcc && #[trigger] mods[i].modifier == d.modifier
                && (mods[i].tiling_features & RENDER_FEATURES) == RENDER_FEATURES && (
            mods[i].render_external matches Some(f) && (f & EXTERNAL_MEMORY_IMPORTABLE)
                == EXTERNAL_MEMORY_IMPORTABLE),
    decreases mods.len(),
{
    if mods.len() > 0 {
        let init = mods.drop_last();
        lemma_probe_render(fourcc, init, d);
        let m = mods.last();
        let n = mods.len() - 1;
        let r = probe_render(fourcc, init);
        if probe_render(fourcc, mods).contains(d) {
            if r.contains(d) {
                let i = choose|i: int|
                    0 <= i < init.len() && d.code == fourcc && #[trigger] init[i].modifier == d.modifier
                        && (init[i].tiling_features & RENDER_FEATURES) == RENDER_FEATURES && (
                    init[i].render_external matches Some(f) && (f & EXTERNAL_MEMORY_IMPORTABLE)
                        == EXTERNAL_MEMORY_IMPORTABLE);
                assert(mods[i] == init[i]);
            } else {
                assert(probe_render(fourcc, mods) != r);
                let k = choose|k: int| 0 <= k < r.push(DrmFormat { code: fourcc, modifier: m.modifier }).len()
                    && r.push(DrmFormat { code: fourcc, modifier: m.modifier })[k] == d;
                if k < r.len() {
                    assert(r[k] == d);
                }
                assert(mods[n] == m);
            }
        }
        if exists|i: int|
            0 <= i < mods.len() && d.code == fourcc && #[trigger] mods[i].modifier == d.modifier
                && (mods[i].tiling_features & RENDER_FEATURES) == RENDER_FEATURES && (
            mods[i].render_external matches Some(f) && (f & EXTERNAL_MEMORY_IMPORTABLE)
                == EXTERNAL_MEMORY_IMPORTABLE) {
            let i = choose|i: int|
                0 <= i < mods.len() && d.code == fourcc && #[trigger] mods[i].modifier == d.modifier
                    && (mods[i].tiling_features & RENDER_FEATURES) == RENDER_FEATURES && (
                mods[i].render_external matches Some(f) && (f & EXTERNAL_MEMORY_IMPORTABLE)
                    == EXTERNAL_MEMORY_IMPORTABLE);
            if i < n {
                assert(init[i] == mods[i]);
                assert(r.contains(d));
                let k = choose|k: int| 0 <= k < r.len() && r[k] == d;
                if probe_render(fourcc, mods) != r {
                    assert(probe_render(fourcc, mods)[k] == d);
                }
            } else {
                assert(m == mods[i]);
                assert(d == DrmFormat { code: fourcc, modifier: m.modifier });
                assert(probe_render(fourcc, mods)[r.len() as int] == d);
            }
        }
    }
}

/// A modifier is a dmabuf texture format exactly when its tiling features contain the dmabuf
/// texture features and the external memory features reported for texture usage make it
/// importable; what is reported for render usage plays no part.
pub proof fn lemma_probe_texture(fourcc: u32, mods: Seq<ModifierProbe>, d: DrmFormat)
    ensures
        probe_texture(fourcc, mods).contains(d) <==> exists|i: int|
            0 <= i < mods.len() && d.code == fourcc && #[trigger] mods[i].modifier == d.modifier
                && (mods[i].tiling_features & DMA_TEXTURE_FEATURES) == DMA_TEXTURE_FEATURES && (
            mods[i].texture_external matches Some(f) && (f & EXTERNAL_MEMORY_IMPORTABLE)
                == EXTERNAL_MEMORY_IMPORTABLE),
    decreases mods.len(),
{
    if mods.len() > 0 {
        let init = mods.drop_last();
        lemma_probe_texture(fourcc, init, d);
        let m = mods.last();
        let n = mods.len() - 1;
        let r = probe_texture(fourcc, init);
        if probe_texture(fourcc, mods).contains(d) {
            if r.contains(d) {
                let i = choose|i: int|
                    0 <= i < init.len() && d.code == fourcc && #[trigger] init[i].modifier == d.modifier
                        && (init[i].tiling_features & DMA_TEXTURE_FEATURES) == DMA_TEXTURE_FEATURES && (
                    init[i].texture_external matches Some(f) && (f & EXTERNAL_MEMORY_IMPORTABLE)
                        == EXTERNAL_MEMORY_IMPORTABLE);
                assert(mods[i] == init[i]);
            } else {
                assert(probe_texture(fourcc, mods) != r);
                let k = choose|k: int| 0 <= k < r.push(DrmFormat { code: fourcc, modifier: m.modifier }).len()
                    && r.push(DrmFormat { code: fourcc, modifier: m.modifier })[k] == d;
                if k < r.len() {
                    assert(r[k] == d);
                }
                assert(mods[n] == m);
            }
        }
        if exists|i: int|
            0 <= i < mods.len() && d.code == fourcc && #[trigger] mods[i].modifier == d.modifier
                && (mods[i].tiling_features & DMA_TEXTURE_FEATURES) == DMA_TEXTURE_FEATURES && (
            mods[i].texture_external matches Some(f) && (f & EXTERNAL_MEMORY_IMPORTABLE)
                == EXTERNAL_MEMORY_IMPORTABLE) {
            let i = choose|i: int|
                0 <= i < mods.len() && d.code == fourcc && #[trigger] mods[i].modifier == d.modifier
                    && (mods[i].tiling_features & DMA_TEXTURE_FEATURES) == DMA_TEXTURE_FEATURES && (
                mods[i].texture_external matches Some(f) && (f & EXTERNAL_MEMORY_IMPORTABLE)
                    == EXTERNAL_MEMORY_IMPORTABLE);
            if i < n {
                assert(init[i] == mods[i]);
                assert(r.contains(d));
                let k = choose|k: int| 0 <= k < r.len() && r[k] == d;
                if probe_texture(fourcc, mods) != r {
                    assert(probe_texture(fourcc, mods)[k] == d);
                }
            } else {
                assert(m == mods[i]);
                assert(d == DrmFormat { code: fourcc, modifier: m.modifier });
                assert(probe_texture(fourcc, mods)[r.len() as int] == d);
            }
        }
    }
}

/// One more allocation is allowed exactly while the count is below the maximum, and then
/// makes the count one larger, never above the maximum.
pub proof fn lemma_next_count(max: usize, count: usize)
    ensures
        next_count(max, count) is None <==> max <= count,
        next_count(max, count) matches Some(n) ==> n == count + 1 && n <= max,
{
}

/// The `wl_shm` codes of the two mandatory formats: ARGB8888 and XRGB8888 are backed by the
/// `wl_shm` formats of the same names.
pub proof fn lemma_wl_code_of_mandatory()
    ensures
        wl_code_of(FOURCC_ARGB8888) == Some(WL_SHM_ARGB8888),
        wl_code_of(FOURCC_XRGB8888) == Some(WL_SHM_XRGB8888),
        mandatory_shm(WL_SHM_ARGB8888),
        mandatory_shm(WL_SHM_XRGB8888),
{
}

/// A format backs `wl_shm` buffers exactly when its textures are supported with all the
/// texture features and it has a `wl_shm` code; it then gives one entry, with that code, its
/// Vulkan format and the largest extent of its textures, and otherwise none.
pub proof fn lemma_probe_shm(p: FormatProbe)
    ensures
        probe_is_shm(p) <==> (p.memory matches Some(mem) && (mem.optimal_tiling_features
            & TEXTURE_FEATURES) == TEXTURE_FEATURES && wl_code_of(p.fourcc) is Some),
        probe_is_shm(p) ==> probe_shm_info(p).len() == 1 && probe_shm(p).len() == 1 && {
            let info = probe_shm_info(p)[0];
            &&& info.shm == wl_code_of(p.fourcc).unwrap()
            &&& probe_shm(p)[0] == info.shm
            &&& info.vk == p.vk
            &&& info.max_width == p.memory.unwrap().max_width
            &&& info.max_height == p.memory.unwrap().max_height
        },
        !probe_is_shm(p) ==> probe_shm_info(p).len() == 0 && probe_shm(p).len() == 0,
{
}

/// The dmabuf render formats of a run of probes are those of its probes, each probe giving its
/// own formats.
pub proof fn lemma_probes_render(ps: Seq<FormatProbe>, d: DrmFormat)
    ensures
        probes_render(ps).contains(d) <==> exists|i: int|
            0 <= i < ps.len() && #[trigger] probe_render(ps[i].fourcc, ps[i].modifiers@).contains(d),
    decreases ps.len(),
{
    if ps.len() > 0 {
        let init = ps.drop_last();
        lemma_probes_render(init, d);
        let a = probes_render(init);
        let b = probe_render(ps.last().fourcc, ps.last().modifiers@);
        let n = ps.len() - 1;
        assert(probes_render(ps) == a + b);
        if (a + b).contains(d) {
            let k = choose|k: int| 0 <= k < (a + b).len() && (a + b)[k] == d;
            if k < a.len() {
                assert(a[k] == d);
                let i = choose|i: int| 0 <= i < init.len() && #[trigger] probe_render(init[i].fourcc, init[i].modifiers@).contains(d);
                assert(ps[i] == init[i]);
            } else {
                assert(b[k - a.len()] == d);
                assert(ps[n] == ps.last());
                assert(probe_render(ps[n].fourcc, ps[n].modifiers@).contains(d));
            }
        }
        if exists|i: int| 0 <= i < ps.len() && #[trigger] probe_render(ps[i].fourcc, ps[i].modifiers@).contains(d) {
            let i = choose|i: int| 0 <= i < ps.len() && #[trigger] probe_render(ps[i].fourcc, ps[i].modifiers@).contains(d);
            if i < n {
                assert(init[i] == ps[i]);
                assert(a.contains(d));
                let k = choose|k: int| 0 <= k < a.len() && a[k] == d;
                assert((a + b)[k] == d);
            } else {
                assert(ps[i] == ps.last());
                let k = choose|k: int| 0 <= k < b.len() && b[k] == d;
                assert((a + b)[a.len() + k] == d);
            }
        }
    }
}

/// The dmabuf texture formats of a run of probes are those of its probes, each probe giving
/// its own formats.
pub proof fn lemma_probes_texture(ps: Seq<FormatProbe>, d: DrmFormat)
    ensures
        probes_texture(ps).contains(d) <==> exists|i: int|
            0 <= i < ps.len() && #[trigger] probe_texture(ps[i].fourcc, ps[i].modifiers@).contains(d),
    decreases ps.len(),
{
    if ps.len() > 0 {
        let init = ps.drop_last();
        lemma_probes_texture(init, d);
        let a = probes_texture(init);
        let b = probe_texture(ps.last().fourcc, ps.last().modifiers@);
        let n = ps.len() - 1;
        assert(probes_texture(ps) == a + b);
        if (a + b).contains(d) {
            let k = choose|k: int| 0 <= k < (a + b).len() && (a + b)[k] == d;
            if k < a.len() {
                assert(a[k] == d);
                let i = choose|i: int| 0 <= i < init.len() && #[trigger] probe_texture(init[i].fourcc, init[i].modifiers@).contains(d);
                assert(ps[i] == init[i]);
            } else {
                assert(b[k - a.len()] == d);
                assert(ps[n] == ps.last());
                assert(probe_texture(ps[n].fourcc, ps[n].modifiers@).contains(d));
            }
        }
        if exists|i: int| 0 <= i < ps.len() && #[trigger] probe_texture(ps[i].fourcc, ps[i].modifiers@).contains(d) {
            let i = choose|i: int| 0 <= i < ps.len() && #[trigger] probe_texture(ps[i].fourcc, ps[i].modifiers@).contains(d);
            if i < n {
                assert(init[i] == ps[i]);
                assert(a.contains(d));
                let k = choose|k: int| 0 <= k < a.len() && a[k] == d;
                assert((a + b)[k] == d);
            } else {
                assert(ps[i] == ps.last());
                let k = choose|k: int| 0 <= k < b.len() && b[k] == d;
                assert((a + b)[a.len() + k] == d);
            }
        }
    }
}

/// An ARGB8888 image of the given size fits `len` bytes exactly when its byte count, four
/// bytes per pixel, is not negative and at most `len`.
pub proof fn lemma_shm_data_fits(width: i32, height: i32, len: usize)
    ensures
        shm_data_fits(width, height, len) <==> (0 <= 4 * (width * height) && 4 * (width * height) <= len),
{
    assert(width * height * 4 == 4 * (width * height)) by (nonlinear_arith);
}

} // verus!

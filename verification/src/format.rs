//! Pixel format tables.
//!
//! Formats are named by their DRM fourcc code. A `wl_shm` format is named by its code on the
//! wire, which is the fourcc code except for ARGB8888 and XRGB8888, which `wl_shm` numbers 0
//! and 1. A Vulkan format is named by its raw `VkFormat` value.

use vstd::prelude::*;

verus! {

/// The fourcc code of ARGB8888.
pub const FOURCC_ARGB8888: u32 = 0x3432_5241;
/// The fourcc code of XRGB8888.
pub const FOURCC_XRGB8888: u32 = 0x3432_5258;
/// The fourcc code of ABGR8888.
pub const FOURCC_ABGR8888: u32 = 0x3432_4241;
/// The fourcc code of XBGR8888.
pub const FOURCC_XBGR8888: u32 = 0x3432_4258;
/// The fourcc code of RGBA8888.
pub const FOURCC_RGBA8888: u32 = 0x3432_4152;
/// The fourcc code of RGBX8888.
pub const FOURCC_RGBX8888: u32 = 0x3432_5852;
/// The fourcc code of BGR888.
pub const FOURCC_BGR888: u32 = 0x3432_4742;
/// The fourcc code of RGB888.
pub const FOURCC_RGB888: u32 = 0x3432_4752;
/// The fourcc code of R8.
pub const FOURCC_R8: u32 = 0x2020_3852;
/// The fourcc code of GR88.
pub const FOURCC_GR88: u32 = 0x3838_5247;

/// The `wl_shm` code of ARGB8888.
pub const WL_SHM_ARGB8888: u32 = 0;
/// The `wl_shm` code of XRGB8888.
pub const WL_SHM_XRGB8888: u32 = 1;

/// The raw value of `VK_FORMAT_R8_SRGB`.
pub const VK_FORMAT_R8_SRGB: i32 = 15;
/// The raw value of `VK_FORMAT_R8G8_SRGB`.
pub const VK_FORMAT_R8G8_SRGB: i32 = 22;
/// The raw value of `VK_FORMAT_R8G8B8_SRGB`.
pub const VK_FORMAT_R8G8B8_SRGB: i32 = 29;
/// The raw value of `VK_FORMAT_B8G8R8_SRGB`.
pub const VK_FORMAT_B8G8R8_SRGB: i32 = 36;
/// The raw value of `VK_FORMAT_R8G8B8A8_SRGB`.
pub const VK_FORMAT_R8G8B8A8_SRGB: i32 = 43;
/// The raw value of `VK_FORMAT_B8G8R8A8_SRGB`.
pub const VK_FORMAT_B8G8R8A8_SRGB: i32 = 50;
/// The raw value of `VK_FORMAT_A8B8G8R8_SRGB_PACK32`.
pub const VK_FORMAT_A8B8G8R8_SRGB_PACK32: i32 = 57;

/// The formats the renderer knows, in table order: the two that `wl_shm` mandates first.
pub open spec fn format_list() -> Seq<u32> {
    seq![
        FOURCC_ARGB8888,
        FOURCC_XRGB8888,
        FOURCC_ABGR8888,
        FOURCC_XBGR8888,
        FOURCC_RGBA8888,
        FOURCC_RGBX8888,
        FOURCC_BGR888,
        FOURCC_RGB888,
        FOURCC_R8,
        FOURCC_GR88,
    ]
}

/// The opaque equivalent of a format, where the alpha component is padding instead.
pub open spec fn opaque_of(fourcc: u32) -> Option<u32> {
    if fourcc == FOURCC_ARGB8888 {
        Some(FOURCC_XRGB8888)
    } else if fourcc == FOURCC_ABGR8888 {
        Some(FOURCC_XBGR8888)
    } else if fourcc == FOURCC_RGBA8888 {
        Some(FOURCC_RGBX8888)
    } else {
        None
    }
}

/// The format has an alpha channel.
pub open spec fn alpha_of(fourcc: u32) -> bool {
    fourcc == FOURCC_ARGB8888 || fourcc == FOURCC_ABGR8888 || fourcc == FOURCC_RGBA8888
}

/// The Vulkan format of a known format, little-endian host assumed for the `PACK32` formats.
pub open spec fn vk_format_of(fourcc: u32) -> Option<i32> {
    if fourcc == FOURCC_ARGB8888 || fourcc == FOURCC_XRGB8888 {
        Some(VK_FORMAT_B8G8R8A8_SRGB)
    } else if fourcc == FOURCC_ABGR8888 || fourcc == FOURCC_XBGR8888 {
        Some(VK_FORMAT_R8G8B8A8_SRGB)
    } else if fourcc == FOURCC_RGBA8888 || fourcc == FOURCC_RGBX8888 {
        Some(VK_FORMAT_A8B8G8R8_SRGB_PACK32)
    } else if fourcc == FOURCC_BGR888 {
        Some(VK_FORMAT_R8G8B8_SRGB)
    } else if fourcc == FOURCC_RGB888 {
        Some(VK_FORMAT_B8G8R8_SRGB)
    } else if fourcc == FOURCC_R8 {
        Some(VK_FORMAT_R8_SRGB)
    } else if fourcc == FOURCC_GR88 {
        Some(VK_FORMAT_R8G8_SRGB)
    } else {
        None
    }
}

/// The known format that a `wl_shm` code names.
pub open spec fn wl_to_fourcc(wl: u32) -> Option<u32> {
    if wl == WL_SHM_ARGB8888 {
        Some(FOURCC_ARGB8888)
    } else if wl == WL_SHM_XRGB8888 {
        Some(FOURCC_XRGB8888)
    } else if wl != FOURCC_ARGB8888 && wl != FOURCC_XRGB8888 && format_list().contains(wl) {
        Some(wl)
    } else {
        None
    }
}

/// The `wl_shm` code of a known format.
pub open spec fn fourcc_to_wl_code(fourcc: u32) -> u32 {
    if fourcc == FOURCC_ARGB8888 {
        WL_SHM_ARGB8888
    } else if fourcc == FOURCC_XRGB8888 {
        WL_SHM_XRGB8888
    } else {
        fourcc
    }
}

/// Returns the formats the renderer knows, in table order.
pub fn formats() -> (r: Vec<u32>)
    ensures
        r@ == format_list(),
{
    let r = vec![
        FOURCC_ARGB8888,
        FOURCC_XRGB8888,
        FOURCC_ABGR8888,
        FOURCC_XBGR8888,
        FOURCC_RGBA8888,
        FOURCC_RGBX8888,
        FOURCC_BGR888,
        FOURCC_RGB888,
        FOURCC_R8,
        FOURCC_GR88,
    ];
    assert(r@ =~= format_list());
    r
}

/// Returns an equivalent fourcc code that is opaque.
///
/// An opaque code will generally have padding instead of an alpha value.
pub fn get_opaque_fourcc(fourcc: u32) -> (r: Option<u32>)
    ensures
        r == opaque_of(fourcc),
{
    if fourcc == FOURCC_ARGB8888 {
        Some(FOURCC_XRGB8888)
    } else if fourcc == FOURCC_ABGR8888 {
        Some(FOURCC_XBGR8888)
    } else if fourcc == FOURCC_RGBA8888 {
        Some(FOURCC_RGBX8888)
    } else {
        None
    }
}

/// Returns true if the fourcc code has an alpha channel.
pub fn fourcc_has_alpha(fourcc: u32) -> (r: bool)
    ensures
        r == alpha_of(fourcc),
{
    fourcc == FOURCC_ARGB8888 || fourcc == FOURCC_ABGR8888 || fourcc == FOURCC_RGBA8888
}

/// Returns an equivalent Vulkan format from the specified fourcc code.
///
/// The second field of the returned tuple describes whether Vulkan needs to swizzle the alpha
/// component: it is whether the format has an alpha channel.
pub fn fourcc_to_vk(fourcc: u32) -> (r: Option<(i32, bool)>)
    ensures
        r == (match vk_format_of(fourcc) {
            Some(vk) => Some((vk, alpha_of(fourcc))),
            None => None,
        }),
{
    let vk = if fourcc == FOURCC_ARGB8888 || fourcc == FOURCC_XRGB8888 {
        VK_FORMAT_B8G8R8A8_SRGB
    } else if fourcc == FOURCC_ABGR8888 || fourcc == FOURCC_XBGR8888 {
        VK_FORMAT_R8G8B8A8_SRGB
    } else if fourcc == FOURCC_RGBA8888 || fourcc == FOURCC_RGBX8888 {
        VK_FORMAT_A8B8G8R8_SRGB_PACK32
    } else if fourcc == FOURCC_BGR888 {
        VK_FORMAT_R8G8B8_SRGB
    } else if fourcc == FOURCC_RGB888 {
        VK_FORMAT_B8G8R8_SRGB
    } else if fourcc == FOURCC_R8 {
        VK_FORMAT_R8_SRGB
    } else if fourcc == FOURCC_GR88 {
        VK_FORMAT_R8G8_SRGB
    } else {
        return None;
    };
    Some((vk, fourcc_has_alpha(fourcc)))
}

/// Returns the known format that a `wl_shm` code names, if any.
pub fn wl_shm_to_fourcc(wl: u32) -> (r: Option<u32>)
    ensures
        r == wl_to_fourcc(wl),
{
    if wl == WL_SHM_ARGB8888 {
        return Some(FOURCC_ARGB8888);
    }
    if wl == WL_SHM_XRGB8888 {
        return Some(FOURCC_XRGB8888);
    }
    if wl == FOURCC_ARGB8888 || wl == FOURCC_XRGB8888 {
        return None;
    }
    let known = formats();
    let mut i: usize = 0;
    while i < known.len()
        invariant
            i <= known.len(),
            known@ == format_list(),
            wl != WL_SHM_ARGB8888 && wl != WL_SHM_XRGB8888,
            wl != FOURCC_ARGB8888 && wl != FOURCC_XRGB8888,
            forall|j: int| 0 <= j < i ==> known@[j] != wl,
        decreases known.len() - i,
    {
        if known[i] == wl {
            assert(format_list()[i as int] == wl);
            assert(format_list().contains(wl));
            return Some(wl);
        }
        i += 1;
    }
    assert(!format_list().contains(wl));
    None
}

/// Returns an equivalent `wl_shm` code that is opaque.
pub fn get_opaque_wl(wl: u32) -> (r: Option<u32>)
    ensures
        r == (match wl_to_fourcc(wl) {
            Some(f) => match opaque_of(f) {
                Some(o) => Some(fourcc_to_wl_code(o)),
                None => None,
            },
            None => None,
        }),
{
    match wl_shm_to_fourcc(wl) {
        Some(fourcc) => match get_opaque_fourcc(fourcc) {
            Some(opaque) => Some(fourcc_wl_code(opaque)),
            None => None,
        },
        None => None,
    }
}

/// Returns true if the `wl_shm` code has an alpha channel.
pub fn wl_has_alpha(wl: u32) -> (r: bool)
    ensures
        r == (match wl_to_fourcc(wl) {
            Some(f) => alpha_of(f),
            None => false,
        }),
{
    match wl_shm_to_fourcc(wl) {
        Some(fourcc) => fourcc_has_alpha(fourcc),
        None => false,
    }
}

/// Returns an equivalent Vulkan format from the specified `wl_shm` code.
pub fn wl_shm_to_vk(wl: u32) -> (r: Option<(i32, bool)>)
    ensures
        r == (match wl_to_fourcc(wl) {
            Some(f) => match vk_format_of(f) {
                Some(vk) => Some((vk, alpha_of(f))),
                None => None,
            },
            None => None,
        }),
{
    match wl_shm_to_fourcc(wl) {
        Some(fourcc) => fourcc_to_vk(fourcc),
        None => None,
    }
}

/// Returns the `wl_shm` code of a fourcc code, mapping ARGB8888 and XRGB8888 to their `wl_shm`
/// numbers and leaving other codes as they are.
fn fourcc_wl_code(fourcc: u32) -> (r: u32)
    ensures
        r == fourcc_to_wl_code(fourcc),
{
    if fourcc == FOURCC_ARGB8888 {
        WL_SHM_ARGB8888
    } else if fourcc == FOURCC_XRGB8888 {
        WL_SHM_XRGB8888
    } else {
        fourcc
    }
}

/// What `wl_shm::Format::try_from` gives for a code, taken back to a code: the code itself
/// when it names a `wl_shm` format, none otherwise.
pub uninterp spec fn wl_shm_format_code(code: u32) -> Option<u32>;

/// `wayland_server::protocol::wl_shm::Format::try_from`, then `u32::from`.
///
/// The conversion matches the code against the formats `wayland.xml` lists and gives back the
/// same number for each, so a result is always the code that went in.
#[verifier::external_body]
fn wl_shm_format_from_code(code: u32) -> (r: Option<u32>)
    ensures
        r == wl_shm_format_code(code),
        r matches Some(c) ==> c == code,
{
    match wayland_server::protocol::wl_shm::Format::try_from(code) {
        Ok(format) => Some(u32::from(format)),
        Err(()) => None,
    }
}

/// Returns the `wl_shm` code for a fourcc code, if `wl_shm` has one.
///
/// The two mandatory formats are mapped by hand; every other `wl_shm` format uses its fourcc
/// code.
pub fn fourcc_to_wl(fourcc: u32) -> (r: Option<u32>)
    ensures
        fourcc == FOURCC_ARGB8888 ==> r == Some(WL_SHM_ARGB8888),
        fourcc == FOURCC_XRGB8888 ==> r == Some(WL_SHM_XRGB8888),
        fourcc != FOURCC_ARGB8888 && fourcc != FOURCC_XRGB8888 ==> r == wl_shm_format_code(fourcc),
{
    if fourcc == FOURCC_ARGB8888 {
        Some(WL_SHM_ARGB8888)
    } else if fourcc == FOURCC_XRGB8888 {
        Some(WL_SHM_XRGB8888)
    } else {
        wl_shm_format_from_code(fourcc)
    }
}

/// Every known format that has an opaque equivalent has an alpha channel, and the equivalent is
/// a known format without one that maps to the same Vulkan format.
pub proof fn lemma_opaque_pairs(fourcc: u32)
    requires
        opaque_of(fourcc) is Some,
    ensures
        format_list().contains(fourcc),
        alpha_of(fourcc),
        format_list().contains(opaque_of(fourcc).unwrap()),
        !alpha_of(opaque_of(fourcc).unwrap()),
        vk_format_of(opaque_of(fourcc).unwrap()) == vk_format_of(fourcc),
{
    if fourcc == FOURCC_ARGB8888 {
        assert(format_list()[0] == fourcc);
        assert(format_list()[1] == FOURCC_XRGB8888);
    } else if fourcc == FOURCC_ABGR8888 {
        assert(format_list()[2] == fourcc);
        assert(format_list()[3] == FOURCC_XBGR8888);
    } else {
        assert(format_list()[4] == fourcc);
        assert(format_list()[5] == FOURCC_RGBX8888);
    }
}

/// Each known format has a Vulkan format, and its `wl_shm` code names it back.
pub proof fn lemma_known_formats(fourcc: u32)
    requires
        format_list().contains(fourcc),
    ensures
        vk_format_of(fourcc) is Some,
        wl_to_fourcc(fourcc_to_wl_code(fourcc)) == Some(fourcc),
{
}

} // verus!

//! Vulkan API versions.

use std::cmp::Ordering;
use vstd::prelude::*;

verus! {

/// A Vulkan API version.
#[derive(Debug, Clone, Copy, PartialEq, Eq, Structural)]
pub struct Version {
    /// The variant of the Vulkan API.
    ///
    /// Generally this value will be `0` because the Vulkan specification uses variant `0`.
    pub variant: u32,
    /// The major version of the Vulkan API.
    pub major: u32,
    /// The minor version of the Vulkan API.
    pub minor: u32,
    /// The patch version of the Vulkan API.
    pub patch: u32,
}

/// The packed form of a version, as Vulkan's `VK_MAKE_API_VERSION` builds it.
pub open spec fn packed(variant: u32, major: u32, minor: u32, patch: u32) -> u32 {
    (variant << 29u32) | (major << 22u32) | (minor << 12u32) | patch
}

/// Whether every field of the version fits in its bit range of the packed form.
pub open spec fn fits_packed(v: Version) -> bool {
    &&& v.variant < 8
    &&& v.major < 128
    &&& v.minor < 1024
    &&& v.patch < 4096
}

/// The version that a packed value describes.
pub open spec fn unpacked(raw: u32) -> Version {
    Version {
        variant: raw >> 29u32,
        major: (raw >> 22u32) & 0x7fu32,
        minor: (raw >> 12u32) & 0x3ffu32,
        patch: raw & 0xfffu32,
    }
}

/// `ash::vk::api_version_variant`: the three highest bits of the packed version.
#[verifier::external_body]
fn api_version_variant(raw: u32) -> (r: u32)
    ensures
        r == raw >> 29u32,
{
    ash::vk::api_version_variant(raw)
}

/// `ash::vk::api_version_major`: bits 22 to 28 of the packed version.
#[verifier::external_body]
fn api_version_major(raw: u32) -> (r: u32)
    ensures
        r == (raw >> 22u32) & 0x7fu32,
{
    ash::vk::api_version_major(raw)
}

/// `ash::vk::api_version_minor`: bits 12 to 21 of the packed version.
#[verifier::external_body]
fn api_version_minor(raw: u32) -> (r: u32)
    ensures
        r == (raw >> 12u32) & 0x3ffu32,
{
    ash::vk::api_version_minor(raw)
}

/// `ash::vk::api_version_patch`: the twelve lowest bits of the packed version.
#[verifier::external_body]
fn api_version_patch(raw: u32) -> (r: u32)
    ensures
        r == raw & 0xfffu32,
{
    ash::vk::api_version_patch(raw)
}

/// `ash::vk::make_api_version`: the fields shifted into place and combined with `|`; bits
/// shifted past the top of a `u32` are dropped.
#[verifier::external_body]
fn make_api_version(variant: u32, major: u32, minor: u32, patch: u32) -> (r: u32)
    ensures
        r == packed(variant, major, minor, patch),
{
    ash::vk::make_api_version(variant, major, minor, patch)
}

/// The lexicographic comparison of two versions: variant, then major, minor and patch.
pub open spec fn version_order(a: Version, b: Version) -> Ordering {
    if a.variant < b.variant {
        Ordering::Less
    } else if a.variant > b.variant {
        Ordering::Greater
    } else if a.major < b.major {
        Ordering::Less
    } else if a.major > b.major {
        Ordering::Greater
    } else if a.minor < b.minor {
        Ordering::Less
    } else if a.minor > b.minor {
        Ordering::Greater
    } else if a.patch < b.patch {
        Ordering::Less
    } else if a.patch > b.patch {
        Ordering::Greater
    } else {
        Ordering::Equal
    }
}

/// Version `a` comes before version `b`.
pub open spec fn older(a: Version, b: Version) -> bool {
    version_order(a, b) == Ordering::Less
}

impl Version {
    /// Version 1.0 of the Vulkan API.
    pub fn version_1_0() -> (v: Version)
        ensures
            v == (Version { variant: 0, major: 1, minor: 0, patch: 0 }),
    {
        Version { variant: 0, major: 1, minor: 0, patch: 0 }
    }

    /// Version 1.1 of the Vulkan API.
    pub fn version_1_1() -> (v: Version)
        ensures
            v == (Version { variant: 0, major: 1, minor: 1, patch: 0 }),
    {
        Version { variant: 0, major: 1, minor: 1, patch: 0 }
    }

    /// Version 1.2 of the Vulkan API.
    pub fn version_1_2() -> (v: Version)
        ensures
            v == (Version { variant: 0, major: 1, minor: 2, patch: 0 }),
    {
        Version { variant: 0, major: 1, minor: 2, patch: 0 }
    }

    /// Converts a packed version into a version struct.
    pub fn from_raw(raw: u32) -> (v: Version)
        ensures
            v == unpacked(raw),
    {
        Version {
            variant: api_version_variant(raw),
            major: api_version_major(raw),
            minor: api_version_minor(raw),
            patch: api_version_patch(raw),
        }
    }

    /// Converts a version struct into a packed version.
    pub fn to_raw(self) -> (raw: u32)
        ensures
            raw == packed(self.variant, self.major, self.minor, self.patch),
    {
        make_api_version(self.variant, self.major, self.minor, self.patch)
    }
}

/// The decimal digits of `n`, most significant first, as `Display` writes an unsigned integer.
pub open spec fn decimal(n: nat) -> Seq<char>
    decreases n,
{
    if n < 10 {
        seq![digit_char(n)]
    } else {
        decimal(n / 10) + seq![digit_char(n % 10)]
    }
}

/// The character of a decimal digit.
pub open spec fn digit_char(d: nat) -> char {
    if d == 0 { '0' } else if d == 1 { '1' } else if d == 2 { '2' } else if d == 3 { '3' }
    else if d == 4 { '4' } else if d == 5 { '5' } else if d == 6 { '6' } else if d == 7 { '7' }
    else if d == 8 { '8' } else { '9' }
}

/// The text `display` gives for a version: `major.minor.patch`, followed by ` variant N` when
/// the variant is asked for.
pub open spec fn version_text(v: Version, show_variant: bool) -> Seq<char> {
    let base = decimal(v.major as nat) + seq!['.'] + decimal(v.minor as nat) + seq!['.'] + decimal(
        v.patch as nat,
    );
    if show_variant {
        base + seq![' ', 'v', 'a', 'r', 'i', 'a', 'n', 't', ' '] + decimal(v.variant as nat)
    } else {
        base
    }
}

/// The text of a decimal digit.
fn digit_str(d: u32) -> (s: &'static str)
    requires
        d < 10,
    ensures
        s@ == seq![digit_char(d as nat)],
{
    proof {
        reveal_strlit("0");
        reveal_strlit("1");
        reveal_strlit("2");
        reveal_strlit("3");
        reveal_strlit("4");
        reveal_strlit("5");
        reveal_strlit("6");
        reveal_strlit("7");
        reveal_strlit("8");
        reveal_strlit("9");
    }
    if d == 0 {
        "0"
    } else if d == 1 {
        "1"
    } else if d == 2 {
        "2"
    } else if d == 3 {
        "3"
    } else if d == 4 {
        "4"
    } else if d == 5 {
        "5"
    } else if d == 6 {
        "6"
    } else if d == 7 {
        "7"
    } else if d == 8 {
        "8"
    } else {
        "9"
    }
}

/// The decimal digits of an unsigned integer, as `Display` writes them.
pub(crate) fn decimal_string(n: u32) -> (s: String)
    ensures
        s@ == decimal(n as nat),
    decreases n,
{
    if n < 10 {
        digit_str(n).to_owned()
    } else {
        let mut s = decimal_string(n / 10);
        s.append(digit_str(n % 10));
        s
    }
}

impl Version {
    /// Returns the text of the version, `major.minor.patch`.
    ///
    /// The `display_variant` parameter states whether the [`Version::variant`] should be shown too.
    pub fn display(&self, display_variant: bool) -> (s: String)
        ensures
            s@ == version_text(*self, display_variant),
    {
        let mut s = decimal_string(self.major);
        s.append(".");
        s.append(decimal_string(self.minor).as_str());
        s.append(".");
        s.append(decimal_string(self.patch).as_str());
        if display_variant {
            s.append(" variant ");
            s.append(decimal_string(self.variant).as_str());
        }
        proof {
            reveal_strlit(".");
            reveal_strlit(" variant ");
        }
        s
    }
}

impl PartialOrd for Version {
    fn partial_cmp(&self, other: &Self) -> (r: Option<Ordering>) {
        if self.variant < other.variant {
            return Some(Ordering::Less);
        } else if self.variant > other.variant {
            return Some(Ordering::Greater);
        }
        if self.major < other.major {
            return Some(Ordering::Less);
        } else if self.major > other.major {
            return Some(Ordering::Greater);
        }
        if self.minor < other.minor {
            return Some(Ordering::Less);
        } else if self.minor > other.minor {
            return Some(Ordering::Greater);
        }
        if self.patch < other.patch {
            Some(Ordering::Less)
        } else if self.patch > other.patch {
            Some(Ordering::Greater)
        } else {
            Some(Ordering::Equal)
        }
    }
}

impl vstd::std_specs::cmp::PartialOrdSpecImpl for Version {
    open spec fn obeys_partial_cmp_spec() -> bool {
        true
    }

    open spec fn partial_cmp_spec(&self, other: &Version) -> Option<Ordering> {
        Some(version_order(*self, *other))
    }
}

/// Unpacking a packed version and packing it again gives back the packed value.
pub proof fn lemma_raw_roundtrip(raw: u32)
    ensures
        packed(unpacked(raw).variant, unpacked(raw).major, unpacked(raw).minor, unpacked(raw).patch)
            == raw,
{
    assert(((raw >> 29u32) << 29u32) | ((((raw >> 22u32) & 0x7fu32)) << 22u32) | ((((raw
        >> 12u32) & 0x3ffu32)) << 12u32) | (raw & 0xfffu32) == raw) by (bit_vector);
}

/// Packing a version whose fields fit their bit ranges and unpacking it gives back the version.
pub proof fn lemma_version_roundtrip(v: Version)
    requires
        fits_packed(v),
    ensures
        unpacked(packed(v.variant, v.major, v.minor, v.patch)) == v,
{
    let (a, b, c, d) = (v.variant, v.major, v.minor, v.patch);
    let r = (a << 29u32) | (b << 22u32) | (c << 12u32) | d;
    assert(r >> 29u32 == a) by (bit_vector)
        requires
            a < 8 && b < 128 && c < 1024 && d < 4096,
            r == (a << 29u32) | (b << 22u32) | (c << 12u32) | d,
    ;
    assert((r >> 22u32) & 0x7fu32 == b) by (bit_vector)
        requires
            a < 8 && b < 128 && c < 1024 && d < 4096,
            r == (a << 29u32) | (b << 22u32) | (c << 12u32) | d,
    ;
    assert((r >> 12u32) & 0x3ffu32 == c) by (bit_vector)
        requires
            a < 8 && b < 128 && c < 1024 && d < 4096,
            r == (a << 29u32) | (b << 22u32) | (c << 12u32) | d,
    ;
    assert(r & 0xfffu32 == d) by (bit_vector)
        requires
            a < 8 && b < 128 && c < 1024 && d < 4096,
            r == (a << 29u32) | (b << 22u32) | (c << 12u32) | d,
    ;
}

/// The packed form of a version whose fields fit is the weighted sum of its fields.
pub proof fn lemma_packed_sum(v: Version)
    requires
        fits_packed(v),
    ensures
        packed(v.variant, v.major, v.minor, v.patch) == v.variant * 0x2000_0000int + v.major
            * 0x40_0000int + v.minor * 0x1000int + v.patch,
{
    let (a, b, c, d) = (v.variant, v.major, v.minor, v.patch);
    assert((a << 29u32) | (b << 22u32) | (c << 12u32) | d == a * 0x2000_0000 + b * 0x40_0000 + c
        * 0x1000 + d) by (bit_vector)
        requires
            a < 8 && b < 128 && c < 1024 && d < 4096,
    ;
}

/// For versions whose fields fit the packed form, comparing versions agrees with comparing their
/// packed values.
pub proof fn lemma_order_matches_packed(a: Version, b: Version)
    requires
        fits_packed(a),
        fits_packed(b),
    ensures
        (version_order(a, b) == Ordering::Less) == (packed(a.variant, a.major, a.minor, a.patch)
            < packed(b.variant, b.major, b.minor, b.patch)),
        (version_order(a, b) == Ordering::Equal) == (packed(a.variant, a.major, a.minor, a.patch)
            == packed(b.variant, b.major, b.minor, b.patch)),
        (version_order(a, b) == Ordering::Greater) == (packed(a.variant, a.major, a.minor, a.patch)
            > packed(b.variant, b.major, b.minor, b.patch)),
{
    lemma_packed_sum(a);
    lemma_packed_sum(b);
}

/// Comparing versions is antisymmetric: swapping the arguments reverses the answer.
pub proof fn lemma_order_antisymmetric(a: Version, b: Version)
    ensures
        (version_order(a, b) == Ordering::Less) == (version_order(b, a) == Ordering::Greater),
        (version_order(a, b) == Ordering::Equal) == (a == b),
{
}

/// The decimal digits are `0` to `9`, in order.
pub proof fn lemma_digit_char(d: nat)
    requires
        d < 10,
    ensures
        digit_char(d) == "0123456789"@[d as int],
{
    reveal_strlit("0123456789");
}

/// The decimal text of a number is one digit below ten; otherwise the text of its tenth part
/// followed by the digit of its last place; so it never starts with a zero unless it is zero.
pub proof fn lemma_decimal(n: nat)
    ensures
        decimal(n).len() >= 1,
        decimal(n).last() == digit_char(n % 10),
        n < 10 ==> decimal(n) == seq![digit_char(n)],
        n >= 10 ==> decimal(n).drop_last() == decimal(n / 10),
        n > 0 ==> decimal(n)[0] != '0',
    decreases n,
{
    if n >= 10 {
        lemma_decimal(n / 10);
        assert(decimal(n)[0] == decimal(n / 10)[0]);
    }
}

} // verus!

//! Errors reported by the Vulkan API.
//!
//! A Vulkan error is carried by its raw result code, the `i32` that `ash::vk::Result::as_raw`
//! gives.

use vstd::prelude::*;

use crate::vulkan::version::{decimal, decimal_string};

verus! {

/// A kind of error that may occur when using the Vulkan APIs.
///
/// The variants represent possible errors that cannot be proven at compile time or while
/// validation layers are enabled.
#[non_exhaustive]
#[derive(Debug, Clone, Copy, PartialEq, Eq, Structural)]
pub enum ErrorKind {
    /// A required layer is not present.
    LayerNotPresent,
    /// A required extension is not present.
    ExtensionNotPresent,
    /// Initializing a Vulkan object has failed.
    InitializationFailed,
    /// Unable to find a Vulkan driver.
    IncompatibleDriver,
    /// The host has run out of memory.
    HostOutOfMemory,
    /// The device has run out of memory.
    DeviceOutOfMemory,
    /// The device has been lost.
    DeviceLost,
    /// Too many objects of some type have been already created.
    TooManyObjects,
    /// Unknown error in application or Vulkan implementation.
    Implementation,
    /// Other vulkan error.
    Other,
}

/// The raw code of `VK_ERROR_OUT_OF_HOST_MEMORY`.
pub const ERROR_OUT_OF_HOST_MEMORY: i32 = -1;
/// The raw code of `VK_ERROR_OUT_OF_DEVICE_MEMORY`.
pub const ERROR_OUT_OF_DEVICE_MEMORY: i32 = -2;
/// The raw code of `VK_ERROR_INITIALIZATION_FAILED`.
pub const ERROR_INITIALIZATION_FAILED: i32 = -3;
/// The raw code of `VK_ERROR_DEVICE_LOST`.
pub const ERROR_DEVICE_LOST: i32 = -4;
/// The raw code of `VK_ERROR_LAYER_NOT_PRESENT`.
pub const ERROR_LAYER_NOT_PRESENT: i32 = -6;
/// The raw code of `VK_ERROR_EXTENSION_NOT_PRESENT`.
pub const ERROR_EXTENSION_NOT_PRESENT: i32 = -7;
/// The raw code of `VK_ERROR_INCOMPATIBLE_DRIVER`.
pub const ERROR_INCOMPATIBLE_DRIVER: i32 = -9;
/// The raw code of `VK_ERROR_TOO_MANY_OBJECTS`.
pub const ERROR_TOO_MANY_OBJECTS: i32 = -10;
/// The raw code of `VK_ERROR_FORMAT_NOT_SUPPORTED`.
pub const ERROR_FORMAT_NOT_SUPPORTED: i32 = -11;
/// The raw code of `VK_ERROR_UNKNOWN`.
pub const ERROR_UNKNOWN: i32 = -13;

/// The kind of a raw Vulkan result code.
pub open spec fn kind_of_code(code: i32) -> ErrorKind {
    if code == ERROR_LAYER_NOT_PRESENT {
        ErrorKind::LayerNotPresent
    } else if code == ERROR_EXTENSION_NOT_PRESENT {
        ErrorKind::ExtensionNotPresent
    } else if code == ERROR_INITIALIZATION_FAILED {
        ErrorKind::InitializationFailed
    } else if code == ERROR_INCOMPATIBLE_DRIVER {
        ErrorKind::IncompatibleDriver
    } else if code == ERROR_OUT_OF_HOST_MEMORY {
        ErrorKind::HostOutOfMemory
    } else if code == ERROR_OUT_OF_DEVICE_MEMORY {
        ErrorKind::DeviceOutOfMemory
    } else if code == ERROR_DEVICE_LOST {
        ErrorKind::DeviceLost
    } else if code == ERROR_TOO_MANY_OBJECTS {
        ErrorKind::TooManyObjects
    } else if code == ERROR_UNKNOWN {
        ErrorKind::Implementation
    } else {
        ErrorKind::Other
    }
}

/// The text that describes a kind of error.
pub open spec fn kind_message(kind: ErrorKind) -> Seq<char> {
    match kind {
        ErrorKind::LayerNotPresent => "a specified layer is not present"@,
        ErrorKind::ExtensionNotPresent => "a requested extension is not present"@,
        ErrorKind::InitializationFailed => "initializing a vulkan object has failed"@,
        ErrorKind::IncompatibleDriver => "unable to find a vulkan driver"@,
        ErrorKind::HostOutOfMemory => "the host has run out of memory"@,
        ErrorKind::DeviceOutOfMemory => "the device has run out of memory"@,
        ErrorKind::DeviceLost => "the device has been lost"@,
        ErrorKind::TooManyObjects => "too many objects of some type have been already created"@,
        ErrorKind::Implementation => "unknown error in application or vulkan implementation"@,
        ErrorKind::Other => "other vulkan error"@,
    }
}

impl ErrorKind {
    /// Returns the text that describes the kind of error.
    pub fn message(&self) -> (s: &'static str)
        ensures
            s@ == kind_message(*self),
    {
        match self {
            ErrorKind::LayerNotPresent => "a specified layer is not present",
            ErrorKind::ExtensionNotPresent => "a requested extension is not present",
            ErrorKind::InitializationFailed => "initializing a vulkan object has failed",
            ErrorKind::IncompatibleDriver => "unable to find a vulkan driver",
            ErrorKind::HostOutOfMemory => "the host has run out of memory",
            ErrorKind::DeviceOutOfMemory => "the device has run out of memory",
            ErrorKind::DeviceLost => "the device has been lost",
            ErrorKind::TooManyObjects => "too many objects of some type have been already created",
            ErrorKind::Implementation => "unknown error in application or vulkan implementation",
            ErrorKind::Other => "other vulkan error",
        }
    }
}

/// The decimal text of a signed integer, with a leading `-` when it is negative.
pub open spec fn signed_decimal(n: int) -> Seq<char> {
    if n < 0 {
        seq!['-'] + decimal((-n) as nat)
    } else {
        decimal(n as nat)
    }
}

/// The `Display` form of a signed integer: a `-` for a negative value followed by the decimal
/// digits of its magnitude.
fn signed_decimal_string(n: i32) -> (s: String)
    ensures
        s@ == signed_decimal(n as int),
{
    if n < 0 {
        let magnitude: u32 = (-(n as i64)) as u32;
        let mut s = "-".to_owned();
        proof {
            reveal_strlit("-");
        }
        s.append(decimal_string(magnitude).as_str());
        s
    } else {
        decimal_string(n as u32)
    }
}

/// A Vulkan API error: a raw result code and its kind.
#[derive(Debug, Clone, Copy, PartialEq, Eq, Structural)]
pub struct VkError {
    err: i32,
    kind: ErrorKind,
}

/// The text of a Vulkan error with the given code and kind.
pub open spec fn vk_error_text(code: i32, kind: ErrorKind) -> Seq<char> {
    match kind {
        ErrorKind::Other => "error code: "@ + signed_decimal(code as int),
        _ => kind_message(kind) + " (code: "@ + signed_decimal(code as int) + ")"@,
    }
}

impl VkError {
    /// The raw result code of the error.
    pub closed spec fn code(&self) -> i32 {
        self.err
    }

    /// The kind of the error.
    pub closed spec fn kind_of(&self) -> ErrorKind {
        self.kind
    }

    /// Creates the error for a raw Vulkan result code, classifying it by kind.
    pub fn from_code(err: i32) -> (e: VkError)
        ensures
            e.code() == err,
            e.kind_of() == kind_of_code(err),
    {
        let kind = if err == ERROR_LAYER_NOT_PRESENT {
            ErrorKind::LayerNotPresent
        } else if err == ERROR_EXTENSION_NOT_PRESENT {
            ErrorKind::ExtensionNotPresent
        } else if err == ERROR_INITIALIZATION_FAILED {
            ErrorKind::InitializationFailed
        } else if err == ERROR_INCOMPATIBLE_DRIVER {
            ErrorKind::IncompatibleDriver
        } else if err == ERROR_OUT_OF_HOST_MEMORY {
            ErrorKind::HostOutOfMemory
        } else if err == ERROR_OUT_OF_DEVICE_MEMORY {
            ErrorKind::DeviceOutOfMemory
        } else if err == ERROR_DEVICE_LOST {
            ErrorKind::DeviceLost
        } else if err == ERROR_TOO_MANY_OBJECTS {
            ErrorKind::TooManyObjects
        } else if err == ERROR_UNKNOWN {
            ErrorKind::Implementation
        } else {
            ErrorKind::Other
        };
        VkError { err, kind }
    }

    /// Returns the raw result code of the error.
    pub fn error(&self) -> (r: i32)
        ensures
            r == self.code(),
    {
        self.err
    }

    /// Returns the kind of the error.
    pub fn kind(&self) -> (r: ErrorKind)
        ensures
            r == self.kind_of(),
    {
        self.kind
    }

    /// Returns the text of the error: the kind's text and the code, or the code alone for an
    /// error of kind [`ErrorKind::Other`].
    pub fn message(&self) -> (s: String)
        ensures
            s@ == vk_error_text(self.code(), self.kind_of()),
    {
        let code = signed_decimal_string(self.err);
        proof {
            reveal_strlit("error code: ");
            reveal_strlit(" (code: ");
            reveal_strlit(")");
        }
        match self.kind {
            ErrorKind::Other => {
                let mut s = "error code: ".to_owned();
                s.append(code.as_str());
                s
            },
            _ => {
                let mut s = self.kind.message().to_owned();
                s.append(" (code: ");
                s.append(code.as_str());
                s.append(")");
                s
            },
        }
    }
}

/// Classifying a code that is not one of the listed Vulkan errors gives [`ErrorKind::Other`];
/// in particular no success code is an error of another kind. Each listed code, as Vulkan
/// numbers it, has its own kind.
pub proof fn lemma_kind_of_code(code: i32)
    ensures
        code >= 0 ==> kind_of_code(code) == ErrorKind::Other,
        kind_of_code(code) == ErrorKind::TooManyObjects <==> code == ERROR_TOO_MANY_OBJECTS,
        kind_of_code(code) == ErrorKind::LayerNotPresent <==> code == -6,
        kind_of_code(code) == ErrorKind::ExtensionNotPresent <==> code == -7,
        kind_of_code(code) == ErrorKind::InitializationFailed <==> code == -3,
        kind_of_code(code) == ErrorKind::IncompatibleDriver <==> code == -9,
        kind_of_code(code) == ErrorKind::HostOutOfMemory <==> code == -1,
        kind_of_code(code) == ErrorKind::DeviceOutOfMemory <==> code == -2,
        kind_of_code(code) == ErrorKind::DeviceLost <==> code == -4,
        kind_of_code(code) == ErrorKind::Implementation <==> code == -13,
        kind_of_code(code) == ErrorKind::Other <==> !(code == -1 || code == -2 || code == -3 || code == -4
            || code == -6 || code == -7 || code == -9 || code == -10 || code == -13),
{
}

} // verus!

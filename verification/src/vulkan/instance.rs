//! Requests for a Vulkan instance.
//!
//! An [`InstanceBuilder`] collects the API version, extensions, layers and application details
//! of an instance. [`InstanceBuilder::resolve`] checks the request against the layers and
//! extensions the Vulkan runtime supports, and gives what the instance is to be created with.

use vstd::prelude::*;

use crate::vulkan::error::VkError;
use crate::vulkan::version::{Version, older};

verus! {

/// An error that may occur when creating an instance.
#[derive(Debug)]
pub enum InstanceError {
    /// The requested API version is older than Vulkan 1.1.
    UnsupportedVulkanVersion(Version),
    /// Some requested layers are not available.
    MissingLayers(Vec<String>),
    /// Some requested extensions are not available.
    MissingExtensions(Vec<String>),
    /// Vulkan API error.
    Vk(VkError),
}

/// The name of the debug utilities extension.
pub open spec fn debug_utils_name() -> Seq<char> {
    "VK_EXT_debug_utils"@
}

/// Instance extensions that are enabled when they are available: they are not mandatory but are
/// nice to have.
pub open spec fn recommended_extensions() -> Seq<Seq<char>> {
    seq![debug_utils_name()]
}

/// Returns the instance extensions that are enabled when they are available.
pub fn recommended_instance_extensions() -> (r: Vec<&'static str>)
    ensures
        r@.len() == recommended_extensions().len(),
        forall|i: int| 0 <= i < r@.len() ==> r@[i]@ == #[trigger] recommended_extensions()[i],
{
    proof {
        reveal_strlit("VK_EXT_debug_utils");
    }
    vec!["VK_EXT_debug_utils"]
}

/// The names in `names` that `supported` lacks, in order.
pub open spec fn missing(names: Seq<Seq<char>>, supported: Seq<Seq<char>>) -> Seq<Seq<char>>
    decreases names.len(),
{
    if names.len() == 0 {
        Seq::empty()
    } else {
        let rest = missing(names.drop_last(), supported);
        if supported.contains(names.last()) {
            rest
        } else {
            rest.push(names.last())
        }
    }
}

/// No name is missing exactly when every name is supported; so a resolved instance enables only
/// layers and extensions the runtime supports.
pub proof fn lemma_nothing_missing(names: Seq<Seq<char>>, supported: Seq<Seq<char>>)
    ensures
        missing(names, supported).len() == 0 <==> forall|i: int|
            0 <= i < names.len() ==> supported.contains(#[trigger] names[i]),
    decreases names.len(),
{
    if names.len() > 0 {
        lemma_nothing_missing(names.drop_last(), supported);
        if missing(names, supported).len() == 0 {
            assert forall|i: int| 0 <= i < names.len() implies supported.contains(#[trigger] names[i]) by {
                if i < names.len() - 1 {
                    assert(names.drop_last()[i] == names[i]);
                }
            }
        } else {
            if supported.contains(names.last()) {
                let i = choose|i: int|
                    0 <= i < names.drop_last().len() && !supported.contains(#[trigger] names.drop_last()[i]);
                assert(names[i] == names.drop_last()[i]);
            }
        }
    }
}

/// The names of `wanted` that `supported` holds, in order.
pub open spec fn available(wanted: Seq<Seq<char>>, supported: Seq<Seq<char>>) -> Seq<Seq<char>>
    decreases wanted.len(),
{
    if wanted.len() == 0 {
        Seq::empty()
    } else {
        let rest = available(wanted.drop_last(), supported);
        if supported.contains(wanted.last()) {
            rest.push(wanted.last())
        } else {
            rest
        }
    }
}

/// Returns true if `names` holds a string equal to `name`.
pub fn contains_name(names: &Vec<String>, name: &str) -> (r: bool)
    ensures
        r == names.deep_view().contains(name@),
{
    let target = name.to_owned();
    let mut i: usize = 0;
    while i < names.len()
        invariant
            i <= names.len(),
            target@ == name@,
            forall|j: int| 0 <= j < i ==> names.deep_view()[j] != name@,
        decreases names.len() - i,
    {
        if names[i] == target {
            assert(names.deep_view()[i as int] == name@);
            return true;
        }
        i += 1;
    }
    proof {
        if names.deep_view().contains(name@) {
            let j = choose|j: int| 0 <= j < names.deep_view().len() && names.deep_view()[j] == name@;
            assert(names.deep_view()[j] != name@);
        }
    }
    false
}

/// Returns the names of `names` that `supported` lacks, in order.
fn missing_names(names: &Vec<String>, supported: &Vec<String>) -> (r: Vec<String>)
    ensures
        r.deep_view() == missing(names.deep_view(), supported.deep_view()),
{
    let mut out: Vec<String> = Vec::new();
    let mut i: usize = 0;
    while i < names.len()
        invariant
            i <= names.len(),
            out.deep_view() == missing(names.deep_view().take(i as int), supported.deep_view()),
        decreases names.len() - i,
    {
        let ghost before = out.deep_view();
        assert(names.deep_view().take(i + 1).drop_last() =~= names.deep_view().take(i as int));
        if !contains_name(supported, names[i].as_str()) {
            out.push(names[i].clone());
            assert(out.deep_view() =~= before.push(names.deep_view()[i as int]));
        } else {
            assert(out.deep_view() =~= before);
        }
        i += 1;
    }
    assert(names.deep_view().take(names.len() as int) =~= names.deep_view());
    out
}

/// The extensions an instance is created with: those requested, followed by the recommended
/// extensions that are supported.
pub open spec fn enabled_extensions(requested: Seq<Seq<char>>, supported: Seq<Seq<char>>) -> Seq<
    Seq<char>,
> {
    requested + available(recommended_extensions(), supported)
}

/// A builder used to describe a Vulkan instance.
#[derive(Debug)]
pub struct InstanceBuilder {
    api_version: Version,
    enable_extensions: Vec<String>,
    enable_layers: Vec<String>,
    app_name: Option<String>,
    app_version: Option<Version>,
}

/// What an instance is to be created with, once the request has been checked.
#[derive(Debug)]
pub struct InstancePlan {
    /// The API version of the instance.
    pub api_version: Version,
    /// The instance extensions to enable.
    pub extensions: Vec<String>,
    /// The instance layers to enable.
    pub layers: Vec<String>,
    /// The application name given to the driver.
    pub app_name: Option<String>,
    /// The application version given to the driver.
    pub app_version: Option<Version>,
    /// Whether the debug utilities extension is supported, so that a debug messenger can be
    /// installed.
    pub debug_utils: bool,
}

/// The view of an optional string.
pub open spec fn opt_view(s: Option<String>) -> Option<Seq<char>> {
    match s {
        Some(s) => Some(s@),
        None => None,
    }
}

impl InstanceBuilder {
    /// The API version requested.
    pub closed spec fn requested_version(&self) -> Version {
        self.api_version
    }

    /// The extensions requested, in order.
    pub closed spec fn requested_extensions(&self) -> Seq<Seq<char>> {
        self.enable_extensions.deep_view()
    }

    /// The layers requested, in order.
    pub closed spec fn requested_layers(&self) -> Seq<Seq<char>> {
        self.enable_layers.deep_view()
    }

    /// The application name, if one was given.
    pub closed spec fn requested_app_name(&self) -> Option<Seq<char>> {
        opt_view(self.app_name)
    }

    /// The application version, if one was given.
    pub closed spec fn requested_app_version(&self) -> Option<Version> {
        self.app_version
    }

    /// Returns a builder for Vulkan 1.1 with no extension, layer, application name or version.
    pub fn new() -> (b: InstanceBuilder)
        ensures
            b.requested_version() == (Version { variant: 0, major: 1, minor: 1, patch: 0 }),
            b.requested_extensions() == Seq::<Seq<char>>::empty(),
            b.requested_layers() == Seq::<Seq<char>>::empty(),
            b.requested_app_name() is None,
            b.requested_app_version() is None,
    {
        let b = InstanceBuilder {
            api_version: Version::version_1_1(),
            enable_extensions: Vec::new(),
            enable_layers: Vec::new(),
            app_name: None,
            app_version: None,
        };
        assert(b.enable_extensions.deep_view() =~= Seq::<Seq<char>>::empty());
        assert(b.enable_layers.deep_view() =~= Seq::<Seq<char>>::empty());
        b
    }

    /// Sets the API version that should be used when creating an instance.
    ///
    /// The default value is Vulkan 1.1, the oldest version the compositor supports.
    pub fn api_version(self, version: Version) -> (b: InstanceBuilder)
        ensures
            b.requested_version() == version,
            b.requested_extensions() == self.requested_extensions(),
            b.requested_layers() == self.requested_layers(),
            b.requested_app_name() == self.requested_app_name(),
            b.requested_app_version() == self.requested_app_version(),
    {
        let mut b = self;
        b.api_version = version;
        b
    }

    /// Adds an instance extension to be requested when creating an instance.
    ///
    /// The extension must be supported by the Vulkan runtime or else building the instance will
    /// fail. If available, the `VK_EXT_debug_utils` extension is enabled as well.
    pub fn extension(self, extension: &str) -> (b: InstanceBuilder)
        ensures
            b.requested_version() == self.requested_version(),
            b.requested_extensions() == self.requested_extensions().push(extension@),
            b.requested_layers() == self.requested_layers(),
            b.requested_app_name() == self.requested_app_name(),
            b.requested_app_version() == self.requested_app_version(),
    {
        let mut b = self;
        b.enable_extensions.push(extension.to_owned());
        assert(b.enable_extensions.deep_view() =~= self.enable_extensions.deep_view().push(
            extension@,
        ));
        b
    }

    /// Adds an instance layer to be requested when creating an instance.
    ///
    /// The layer must be supported by the Vulkan runtime or else building the instance will fail.
    pub fn layer(self, layer: &str) -> (b: InstanceBuilder)
        ensures
            b.requested_version() == self.requested_version(),
            b.requested_extensions() == self.requested_extensions(),
            b.requested_layers() == self.requested_layers().push(layer@),
            b.requested_app_name() == self.requested_app_name(),
            b.requested_app_version() == self.requested_app_version(),
    {
        let mut b = self;
        b.enable_layers.push(layer.to_owned());
        assert(b.enable_layers.deep_view() =~= self.enable_layers.deep_view().push(layer@));
        b
    }

    /// Sets the app name that will be used by the driver when creating an instance.
    pub fn app_name(self, name: &str) -> (b: InstanceBuilder)
        ensures
            b.requested_version() == self.requested_version(),
            b.requested_extensions() == self.requested_extensions(),
            b.requested_layers() == self.requested_layers(),
            b.requested_app_name() == Some(name@),
            b.requested_app_version() == self.requested_app_version(),
    {
        let mut b = self;
        b.app_name = Some(name.to_owned());
        b
    }

    /// Sets the app version that will be used by the driver when creating an instance.
    pub fn app_version(self, version: Version) -> (b: InstanceBuilder)
        ensures
            b.requested_version() == self.requested_version(),
            b.requested_extensions() == self.requested_extensions(),
            b.requested_layers() == self.requested_layers(),
            b.requested_app_name() == self.requested_app_name(),
            b.requested_app_version() == Some(version),
    {
        let mut b = self;
        b.app_version = Some(version);
        b
    }

    /// Returns [`InstanceError::UnsupportedVulkanVersion`] if the requested API version is
    /// older than Vulkan 1.1.
    pub fn check_version(&self) -> (r: Result<(), InstanceError>)
        ensures
            older(self.requested_version(), Version { variant: 0, major: 1, minor: 1, patch: 0 })
                ==> (r matches Err(InstanceError::UnsupportedVulkanVersion(v)) && v
                == self.requested_version()),
            !older(self.requested_version(), Version { variant: 0, major: 1, minor: 1, patch: 0 })
                ==> r is Ok,
    {
        if self.api_version < Version::version_1_1() {
            return Err(InstanceError::UnsupportedVulkanVersion(self.api_version));
        }
        Ok(())
    }

    /// Checks the request against the layers and extensions that the Vulkan runtime supports.
    ///
    /// The version is checked first. Then the supported recommended extensions are added to the
    /// requested ones; a missing layer fails the request before a missing extension does.
    pub fn resolve(self, supported_layers: &Vec<String>, supported_extensions: &Vec<String>) -> (r:
        Result<InstancePlan, InstanceError>)
        ensures
            older(self.requested_version(), Version { variant: 0, major: 1, minor: 1, patch: 0 })
                ==> (r matches Err(InstanceError::UnsupportedVulkanVersion(v)) && v
                == self.requested_version()),
            !older(self.requested_version(), Version { variant: 0, major: 1, minor: 1, patch: 0 })
                && missing(self.requested_layers(), supported_layers.deep_view()).len() > 0
                ==> (r matches Err(InstanceError::MissingLayers(names)) && names.deep_view()
                == missing(self.requested_layers(), supported_layers.deep_view())),
            !older(self.requested_version(), Version { variant: 0, major: 1, minor: 1, patch: 0 })
                && missing(self.requested_layers(), supported_layers.deep_view()).len() == 0
                && missing(
                enabled_extensions(self.requested_extensions(), supported_extensions.deep_view()),
                supported_extensions.deep_view(),
            ).len() > 0 ==> (r matches Err(InstanceError::MissingExtensions(names))
                && names.deep_view() == missing(
                enabled_extensions(self.requested_extensions(), supported_extensions.deep_view()),
                supported_extensions.deep_view(),
            )),
            !older(self.requested_version(), Version { variant: 0, major: 1, minor: 1, patch: 0 })
                && missing(self.requested_layers(), supported_layers.deep_view()).len() == 0
                && missing(
                enabled_extensions(self.requested_extensions(), supported_extensions.deep_view()),
                supported_extensions.deep_view(),
            ).len() == 0 ==> r is Ok,
            r matches Ok(plan) ==> {
                &&& !older(
                    self.requested_version(),
                    Version { variant: 0, major: 1, minor: 1, patch: 0 },
                )
                &&& missing(self.requested_layers(), supported_layers.deep_view()).len() == 0
                &&& missing(
                    enabled_extensions(self.requested_extensions(), supported_extensions.deep_view()),
                    supported_extensions.deep_view(),
                ).len() == 0
                &&& plan.api_version == self.requested_version()
                &&& plan.extensions.deep_view() == enabled_extensions(
                    self.requested_extensions(),
                    supported_extensions.deep_view(),
                )
                &&& plan.layers.deep_view() == self.requested_layers()
                &&& opt_view(plan.app_name) == self.requested_app_name()
                &&& plan.app_version == self.requested_app_version()
                &&& plan.debug_utils == supported_extensions.deep_view().contains(debug_utils_name())
            },
    {
        match self.check_version() {
            Ok(()) => {},
            Err(e) => {
                return Err(e);
            },
        }
        let mut this = self;
        let ghost requested = this.enable_extensions.deep_view();
        let recommended = recommended_instance_extensions();
        let mut i: usize = 0;
        while i < recommended.len()
            invariant
                i <= recommended.len(),
                this.enable_layers == self.enable_layers,
                this.api_version == self.api_version,
                this.app_name == self.app_name,
                this.app_version == self.app_version,
                requested == self.enable_extensions.deep_view(),
                recommended@.len() == recommended_extensions().len(),
                forall|j: int|
                    0 <= j < recommended@.len() ==> recommended@[j]@
                        == #[trigger] recommended_extensions()[j],
                this.enable_extensions.deep_view() == requested + available(
                    recommended_extensions().take(i as int),
                    supported_extensions.deep_view(),
                ),
            decreases recommended.len() - i,
        {
            let ghost before = this.enable_extensions.deep_view();
            let ghost avail = available(
                recommended_extensions().take(i as int),
                supported_extensions.deep_view(),
            );
            assert(recommended_extensions().take(i + 1).drop_last() =~= recommended_extensions().take(
                i as int,
            ));
            if contains_name(supported_extensions, recommended[i]) {
                this.enable_extensions.push(recommended[i].to_owned());
                assert(this.enable_extensions.deep_view() =~= requested + avail.push(
                    recommended_extensions()[i as int],
                ));
            }
            i += 1;
        }
        assert(recommended_extensions().take(recommended.len() as int) =~= recommended_extensions());
        let debug_utils = contains_name(supported_extensions, "VK_EXT_debug_utils");
        let missing_layers = missing_names(&this.enable_layers, supported_layers);
        if missing_layers.len() > 0 {
            return Err(InstanceError::MissingLayers(missing_layers));
        }
        let missing_extensions = missing_names(&this.enable_extensions, supported_extensions);
        if missing_extensions.len() > 0 {
            return Err(InstanceError::MissingExtensions(missing_extensions));
        }
        proof {
            reveal_strlit("VK_EXT_debug_utils");
        }
        Ok(
            InstancePlan {
                api_version: this.api_version,
                extensions: this.enable_extensions,
                layers: this.enable_layers,
                app_name: this.app_name,
                app_version: this.app_version,
                debug_utils,
            },
        )
    }
}

/// A name is missing exactly when it is among the names asked for and not supported.
pub proof fn lemma_missing(names: Seq<Seq<char>>, supported: Seq<Seq<char>>, x: Seq<char>)
    ensures
        missing(names, supported).contains(x) <==> names.contains(x) && !supported.contains(x),
        missing(names, supported).len() <= names.len(),
    decreases names.len(),
{
    if names.len() > 0 {
        let init = names.drop_last();
        lemma_missing(init, supported, x);
        let rest = missing(init, supported);
        let n = names.len() - 1;
        let m = missing(names, supported);
        if m.contains(x) {
            let k = choose|k: int| 0 <= k < m.len() && m[k] == x;
            if k < rest.len() {
                assert(rest[k] == x);
                let i = choose|i: int| 0 <= i < init.len() && init[i] == x;
                assert(names[i] == x);
            } else {
                assert(names[n] == x);
            }
        }
        if names.contains(x) && !supported.contains(x) {
            let i = choose|i: int| 0 <= i < names.len() && names[i] == x;
            if i < n {
                assert(init[i] == x);
                let k = choose|k: int| 0 <= k < rest.len() && rest[k] == x;
                assert(m[k] == x);
            } else {
                assert(m[rest.len() as int] == x);
            }
        }
    }
}

/// A wanted name is available exactly when it is wanted and supported.
pub proof fn lemma_available(wanted: Seq<Seq<char>>, supported: Seq<Seq<char>>, x: Seq<char>)
    ensures
        available(wanted, supported).contains(x) <==> wanted.contains(x) && supported.contains(x),
        available(wanted, supported).len() <= wanted.len(),
    decreases wanted.len(),
{
    if wanted.len() > 0 {
        let init = wanted.drop_last();
        lemma_available(init, supported, x);
        let rest = available(init, supported);
        let n = wanted.len() - 1;
        let m = available(wanted, supported);
        if m.contains(x) {
            let k = choose|k: int| 0 <= k < m.len() && m[k] == x;
            if k < rest.len() {
                assert(rest[k] == x);
                let i = choose|i: int| 0 <= i < init.len() && init[i] == x;
                assert(wanted[i] == x);
            } else {
                assert(wanted[n] == x);
            }
        }
        if wanted.contains(x) && supported.contains(x) {
            let i = choose|i: int| 0 <= i < wanted.len() && wanted[i] == x;
            if i < n {
                assert(init[i] == x);
                let k = choose|k: int| 0 <= k < rest.len() && rest[k] == x;
                assert(m[k] == x);
            } else {
                assert(m[rest.len() as int] == x);
            }
        }
    }
}

/// An instance is created with the extensions requested, in order, followed by the debug
/// utilities extension when the runtime supports it, and nothing else.
pub proof fn lemma_enabled_extensions(requested: Seq<Seq<char>>, supported: Seq<Seq<char>>)
    ensures
        enabled_extensions(requested, supported).take(requested.len() as int) == requested,
        enabled_extensions(requested, supported).skip(requested.len() as int) == (if supported.contains(
            "VK_EXT_debug_utils"@,
        ) {
            seq!["VK_EXT_debug_utils"@]
        } else {
            Seq::<Seq<char>>::empty()
        }),
{
    let e = enabled_extensions(requested, supported);
    let r = recommended_extensions();
    assert(r.drop_last() =~= Seq::<Seq<char>>::empty());
    assert(r.last() == "VK_EXT_debug_utils"@);
    let av = available(r, supported);
    assert(available(r.drop_last(), supported) =~= Seq::<Seq<char>>::empty());
    assert(e == requested + av);
    assert(e.take(requested.len() as int) =~= requested);
    assert(e.skip(requested.len() as int) =~= av);
    if supported.contains("VK_EXT_debug_utils"@) {
        assert(av =~= seq!["VK_EXT_debug_utils"@]);
    } else {
        assert(av =~= Seq::<Seq<char>>::empty());
    }
}

} // verus!

use aerugo::vulkan::version::Version;

#[test]
fn version_constants() {
    assert_eq!(Version::version_1_0(), Version { variant: 0, major: 1, minor: 0, patch: 0 });
    assert_eq!(Version::version_1_1(), Version { variant: 0, major: 1, minor: 1, patch: 0 });
    assert_eq!(Version::version_1_2(), Version { variant: 0, major: 1, minor: 2, patch: 0 });
}

#[test]
fn raw_versions_match_ash() {
    assert_eq!(Version::version_1_1().to_raw(), ash::vk::API_VERSION_1_1);
    assert_eq!(Version::version_1_2().to_raw(), ash::vk::API_VERSION_1_2);
    let v = Version { variant: 1, major: 2, minor: 3, patch: 4 };
    assert_eq!(v.to_raw(), ash::vk::make_api_version(1, 2, 3, 4));
    assert_eq!(Version::from_raw(v.to_raw()), v);
    assert_eq!(Version::from_raw(ash::vk::API_VERSION_1_0), Version::version_1_0());
    assert_eq!(Version::from_raw(0xffff_ffff), Version { variant: 7, major: 127, minor: 1023, patch: 4095 });
}

#[test]
fn version_ordering() {
    assert!(Version::version_1_0() < Version::version_1_1());
    assert!(Version::version_1_2() > Version::version_1_1());
    assert!(Version { variant: 0, major: 1, minor: 1, patch: 9 } < Version::version_1_2());
    assert!(Version { variant: 1, major: 0, minor: 0, patch: 0 } > Version::version_1_2());
    assert_eq!(
        Version::version_1_1().partial_cmp(&Version::version_1_1()),
        Some(std::cmp::Ordering::Equal)
    );
}

#[test]
fn version_display() {
    let v = Version { variant: 2, major: 1, minor: 3, patch: 250 };
    assert_eq!(v.display(false), "1.3.250");
    assert_eq!(v.display(true), "1.3.250 variant 2");
    assert_eq!(Version::version_1_0().display(false), "1.0.0");
}

#[test]
fn version_display_extremes() {
    let v = Version { variant: 7, major: 127, minor: 1023, patch: 4095 };
    assert_eq!(v.display(true), "127.1023.4095 variant 7");
    let zero = Version { variant: 0, major: 0, minor: 0, patch: 0 };
    assert_eq!(zero.display(true), "0.0.0 variant 0");
}

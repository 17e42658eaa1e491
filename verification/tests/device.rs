use devs::CanonicalPath;
use devs::Device;

/// Build the canonical path of a device given relative to the device
/// root, as its segments.
fn dev_path(rel: &str) -> CanonicalPath {
    let mut segments: Vec<String> = vec!["sys".to_string(), "devices".to_string()];
    for seg in rel.split('/') {
        segments.push(seg.to_string());
    }
    CanonicalPath::new(segments)
}

/// The device paths of the mock device tree, relative to the device root.
fn mock_rel_paths() -> Vec<&'static str> {
    vec![
        "device_0",
        "device_1",
        "device_1/device_2",
        "device_1/device_2/device_3",
        "device_1/device_2/device_4",
        "device_5",
        "device_6",
        "device_7",
    ]
}

fn mock_devices() -> Vec<Device> {
    mock_rel_paths().into_iter().map(|rel| Device::from(dev_path(rel))).collect()
}

fn segments_of(device: &Device) -> Vec<String> {
    device.sysfs_path().segments().clone()
}

/// Check that asking for devices' parents gives each device its nearest
/// ancestor in the collection.
#[test]
fn device_parents() {
    let devices = mock_devices();

    // Collect each device's parent, keyed by path, and sort so the
    // comparison does not depend on the order of discovery.
    let mut parents: Vec<(Vec<String>, Option<Vec<String>>)> = devices
        .iter()
        .map(|dev| {
            let parent = dev.parent(&devices).map(|parent| segments_of(parent));
            (segments_of(dev), parent)
        })
        .collect();
    parents.sort();

    // These are the expected parents for each device by its path relative
    // to the device root.
    let expected: Vec<(&str, Option<&str>)> = vec![
        ("device_0", None),
        ("device_1", None),
        ("device_1/device_2", Some("device_1")),
        ("device_1/device_2/device_3", Some("device_1/device_2")),
        ("device_1/device_2/device_4", Some("device_1/device_2")),
        ("device_5", None),
        ("device_6", None),
        ("device_7", None),
    ];
    let mut expected_parents: Vec<(Vec<String>, Option<Vec<String>>)> = expected
        .into_iter()
        .map(|(path, parent)| {
            (
                dev_path(path).segments().clone(),
                parent.map(|p| dev_path(p).segments().clone()),
            )
        })
        .collect();
    expected_parents.sort();

    assert_eq!(parents, expected_parents);
}

/// Check that asking for devices' descendants lists every device below
/// each, at every depth.
#[test]
fn device_descendants() {
    let devices = mock_devices();

    // Collect each device's descendants, keyed by path, each list sorted
    // so the comparison does not depend on the order of discovery.
    let mut descendants: Vec<(Vec<String>, Vec<Vec<String>>)> = devices
        .iter()
        .map(|dev| {
            let mut below: Vec<Vec<String>> =
                dev.descendants(&devices).iter().map(|d| segments_of(d)).collect();
            below.sort();
            (segments_of(dev), below)
        })
        .collect();
    descendants.sort();

    // These are the expected descendants for each device by their paths
    // relative to the device root.
    let expected: Vec<(&str, Vec<&str>)> = vec![
        ("device_0", vec![]),
        (
            "device_1",
            vec![
                "device_1/device_2",
                "device_1/device_2/device_3",
                "device_1/device_2/device_4",
            ],
        ),
        (
            "device_1/device_2",
            vec!["device_1/device_2/device_3", "device_1/device_2/device_4"],
        ),
        ("device_1/device_2/device_3", vec![]),
        ("device_1/device_2/device_4", vec![]),
        ("device_5", vec![]),
        ("device_6", vec![]),
        ("device_7", vec![]),
    ];
    let mut expected_descendants: Vec<(Vec<String>, Vec<Vec<String>>)> = expected
        .into_iter()
        .map(|(path, below)| {
            let mut below: Vec<Vec<String>> =
                below.into_iter().map(|p| dev_path(p).segments().clone()).collect();
            below.sort();
            (dev_path(path).segments().clone(), below)
        })
        .collect();
    expected_descendants.sort();

    assert_eq!(descendants, expected_descendants);
}

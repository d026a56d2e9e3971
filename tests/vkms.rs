use std::collections::BTreeMap;
use vkmsctl::attr::{flag_from_attr, flag_to_attr};
use vkmsctl::config::{
    ConnectorDescription, CrtcDescription, EncoderDescription, PlaneDescription,
};
use vkmsctl::load::{
    link_target_name, resolve_link_targets, ConnectorEntry, CrtcEntry, EncoderEntry, PlaneEntry,
};
use vkmsctl::{
    create_vkms_device, create_vkms_device_builder, join_path, list_vkms_devices, removal_order,
    ConfigError, ConnectorConfig, ConnectorStatus, CrtcConfig, DeviceDescription, DeviceTree,
    EncoderConfig, EntryKind, FsOp, LoadError, PlaneConfig, PlaneKind, TreeEntry,
    VkmsDeviceBuilder,
};

#[derive(Debug, Clone, PartialEq)]
enum Node {
    Dir,
    File(String),
    Link(String),
}

fn s(x: &str) -> String {
    x.to_string()
}

fn names(xs: &[&str]) -> Vec<String> {
    xs.iter().map(|x| x.to_string()).collect()
}

/// Runs a plan on an in-memory tree, stopping before the operation at `fail_at`.
fn run(
    fs: &mut BTreeMap<String, Node>,
    base: &str,
    ops: &[FsOp],
    fail_at: Option<usize>,
) -> Result<(), usize> {
    for (i, op) in ops.iter().enumerate() {
        if Some(i) == fail_at {
            return Err(i);
        }
        let (path, node) = match op {
            FsOp::CreateDir { path } => (join_path(base, path), Node::Dir),
            FsOp::WriteFile { path, contents } => (join_path(base, path), Node::File(contents.clone())),
            FsOp::Symlink { target, link } => (join_path(base, link), Node::Link(join_path(base, target))),
        };
        if fs.contains_key(&path) {
            return Err(i);
        }
        fs.insert(path, node);
    }
    Ok(())
}

fn children(fs: &BTreeMap<String, Node>, dir: &str) -> Vec<String> {
    let prefix = format!("{dir}/");
    let mut v: Vec<String> = fs
        .keys()
        .filter(|k| k.starts_with(&prefix) && !k[prefix.len()..].contains('/'))
        .map(|k| k[prefix.len()..].to_string())
        .collect();
    // Directory order is not sorted on a real filesystem.
    v.reverse();
    v
}

fn file(fs: &BTreeMap<String, Node>, path: &str) -> String {
    match fs.get(path) {
        Some(Node::File(c)) => format!("{c}\n"),
        other => panic!("no file at {path}: {other:?}"),
    }
}

fn links(fs: &BTreeMap<String, Node>, dir: &str) -> Vec<String> {
    children(fs, dir)
        .iter()
        .map(|n| match fs.get(&format!("{dir}/{n}")) {
            Some(Node::Link(t)) => t.clone(),
            other => panic!("not a link: {other:?}"),
        })
        .collect()
}

/// Reads a device directory the way a loader on a real tree would.
fn read_tree(fs: &BTreeMap<String, Node>, base: &str, name: &str) -> DeviceTree {
    let crtcs = children(fs, &format!("{base}/crtcs"))
        .into_iter()
        .map(|n| CrtcEntry { writeback: file(fs, &format!("{base}/crtcs/{n}/writeback")), name: n })
        .collect();
    let planes = children(fs, &format!("{base}/planes"))
        .into_iter()
        .map(|n| PlaneEntry {
            kind: file(fs, &format!("{base}/planes/{n}/type")),
            crtc_links: links(fs, &format!("{base}/planes/{n}/possible_crtcs")),
            name: n,
        })
        .collect();
    let encoders = children(fs, &format!("{base}/encoders"))
        .into_iter()
        .map(|n| EncoderEntry {
            crtc_links: links(fs, &format!("{base}/encoders/{n}/possible_crtcs")),
            name: n,
        })
        .collect();
    let connectors = children(fs, &format!("{base}/connectors"))
        .into_iter()
        .map(|n| ConnectorEntry {
            status: file(fs, &format!("{base}/connectors/{n}/status")),
            encoder_links: links(fs, &format!("{base}/connectors/{n}/possible_encoders")),
            name: n,
        })
        .collect();
    DeviceTree { name: s(name), enabled: file(fs, &format!("{base}/enabled")), crtcs, planes, encoders, connectors }
}

fn sample_device() -> VkmsDeviceBuilder {
    VkmsDeviceBuilder::new("/cfg", "vkms0")
        .enabled(true)
        .add_crtc(CrtcConfig::new("crtc0"))
        .add_crtc(CrtcConfig::new("crtc1").writeback_enabled(true))
        .add_plane(PlaneConfig::new("plane0").kind(PlaneKind::Primary).possible_crtcs(&names(&["crtc0", "crtc1"])))
        .add_plane(PlaneConfig::new("plane1").kind(PlaneKind::Cursor).possible_crtcs(&names(&["crtc1"])))
        .add_plane(PlaneConfig::new("plane2"))
        .add_encoder(EncoderConfig::new("enc0").possible_crtcs(&names(&["crtc0"])))
        .add_encoder(EncoderConfig::new("enc1"))
        .add_connector(ConnectorConfig::new("conn0").possible_encoders(&names(&["enc0", "enc1"])))
        .add_connector(ConnectorConfig::new("conn1").status(ConnectorStatus::Unknown))
        .add_connector(ConnectorConfig::new("conn2").status(ConnectorStatus::Disconnected))
}

fn sorted(mut v: Vec<String>) -> Vec<String> {
    v.sort();
    v
}

fn materialize(device: &VkmsDeviceBuilder) -> BTreeMap<String, Node> {
    let mut fs = BTreeMap::new();
    run(&mut fs, &device.path(), &device.build(), None).unwrap();
    fs
}

#[test]
fn builder_defaults() {
    let p = PlaneConfig::new("p");
    assert_eq!(p.name, "p");
    assert_eq!(p.kind, PlaneKind::Overlay);
    assert!(p.possible_crtcs.is_empty());
    let c = CrtcConfig::new("c");
    assert!(!c.is_writeback_enabled);
    let e = EncoderConfig::new("e");
    assert!(e.possible_crtcs.is_empty());
    let k = ConnectorConfig::new("k");
    assert_eq!(k.status, ConnectorStatus::Connected);
    assert!(k.possible_encoders.is_empty());
    let d = VkmsDeviceBuilder::new("/sys/kernel/config", "dev");
    assert!(!d.enabled);
    assert!(d.planes.is_empty() && d.crtcs.is_empty() && d.encoders.is_empty() && d.connectors.is_empty());
    assert_eq!(d.path(), "/sys/kernel/config/vkms/dev");
}

#[test]
fn builder_setters_and_adders() {
    let d = sample_device();
    assert!(d.enabled);
    assert_eq!(d.crtcs.len(), 2);
    assert!(d.crtcs[1].is_writeback_enabled);
    assert_eq!(d.planes[0].possible_crtcs, names(&["crtc0", "crtc1"]));
    assert_eq!(d.planes[1].kind, PlaneKind::Cursor);
    assert_eq!(d.encoders[0].possible_crtcs, names(&["crtc0"]));
    assert_eq!(d.connectors[0].possible_encoders, names(&["enc0", "enc1"]));
    assert_eq!(d.connectors[2].status, ConnectorStatus::Disconnected);
}

#[test]
fn plane_kind_encoding_round_trips() {
    for (k, c) in [(PlaneKind::Overlay, "0"), (PlaneKind::Primary, "1"), (PlaneKind::Cursor, "2")] {
        assert_eq!(k.to_attr(), c);
        assert_eq!(PlaneKind::from_attr(c), Some(k));
        assert_eq!(PlaneKind::from_attr(&format!("{c}\n")), Some(k));
    }
    for bad in ["3", "", "primary", "01", "-1", "1 1"] {
        assert_eq!(PlaneKind::from_attr(bad), None);
    }
}

#[test]
fn connector_status_encoding_round_trips() {
    for (st, c) in [
        (ConnectorStatus::Connected, "1"),
        (ConnectorStatus::Disconnected, "2"),
        (ConnectorStatus::Unknown, "3"),
    ] {
        assert_eq!(st.to_attr(), c);
        assert_eq!(ConnectorStatus::from_attr(c), Some(st));
        assert_eq!(ConnectorStatus::from_attr(&format!(" {c}\n")), Some(st));
    }
    for bad in ["0", "4", "", "connected", "11"] {
        assert_eq!(ConnectorStatus::from_attr(bad), None);
    }
}

#[test]
fn flags_encode_as_one_and_zero() {
    assert_eq!(flag_to_attr(true), "1");
    assert_eq!(flag_to_attr(false), "0");
    assert!(flag_from_attr("1"));
    assert!(flag_from_attr("1\n"));
    assert!(flag_from_attr("\t 1 \n"));
    assert!(!flag_from_attr("0\n"));
    assert!(!flag_from_attr("yes"));
    assert!(!flag_from_attr(""));
}

#[test]
fn invalid_plane_type_on_disk_is_invalid_data() {
    let e = PlaneEntry { name: s("p"), kind: s("7\n"), crtc_links: vec![] };
    assert_eq!(PlaneConfig::from_fs(&e).unwrap_err(), LoadError::InvalidPlaneType);
    let ok = PlaneEntry { name: s("p"), kind: s("2\n"), crtc_links: names(&["/cfg/vkms/d/crtcs/c0"]) };
    let p = PlaneConfig::from_fs(&ok).unwrap();
    assert_eq!(p.kind, PlaneKind::Cursor);
    assert_eq!(p.possible_crtcs, names(&["c0"]));
}

#[test]
fn invalid_connector_status_on_disk_is_invalid_data() {
    let e = ConnectorEntry { name: s("k"), status: s("0\n"), encoder_links: vec![] };
    assert_eq!(ConnectorConfig::from_fs(&e).unwrap_err(), LoadError::InvalidConnectorStatus);
    let ok = ConnectorEntry { name: s("k"), status: s("2\n"), encoder_links: names(&["../../../encoders/e0"]) };
    let k = ConnectorConfig::from_fs(&ok).unwrap();
    assert_eq!(k.status, ConnectorStatus::Disconnected);
    assert_eq!(k.possible_encoders, names(&["e0"]));
}

#[test]
fn link_targets_resolve_to_their_final_component() {
    assert_eq!(link_target_name("/cfg/vkms/d/crtcs/crtc0"), Some(s("crtc0")));
    assert_eq!(link_target_name("../../../crtcs/my crtc.1"), Some(s("my crtc.1")));
    assert_eq!(link_target_name("crtc0"), Some(s("crtc0")));
    assert_eq!(link_target_name(""), None);
    assert_eq!(link_target_name("/"), None);
    assert_eq!(link_target_name("./"), None);
    assert_eq!(link_target_name("."), None);
    assert_eq!(link_target_name("/a/.."), None);
    assert_eq!(link_target_name("/a/../"), None);
    assert_eq!(resolve_link_targets(&names(&["/x/a", "/x/b"])).unwrap(), names(&["a", "b"]));
    assert_eq!(resolve_link_targets(&names(&["/x/a", "/"])).unwrap_err(), LoadError::InvalidLinkTarget);
    let e = EncoderEntry { name: s("e"), crtc_links: names(&["/x/.."]) };
    assert_eq!(EncoderConfig::from_fs(&e).unwrap_err(), LoadError::InvalidLinkTarget);
}

#[test]
fn crtc_entry_loads_writeback() {
    let c = CrtcConfig::from_fs(&CrtcEntry { name: s("c"), writeback: s("1\n") });
    assert_eq!(c.name, "c");
    assert!(c.is_writeback_enabled);
    let c = CrtcConfig::from_fs(&CrtcEntry { name: s("c"), writeback: s("garbage") });
    assert!(!c.is_writeback_enabled);
}

#[test]
fn join_path_renders_components() {
    assert_eq!(join_path("/cfg/vkms/d", &vec![]), "/cfg/vkms/d");
    assert_eq!(join_path("/cfg/vkms/d", &names(&["crtcs", "c0", "writeback"])), "/cfg/vkms/d/crtcs/c0/writeback");
}

#[test]
fn single_plane_device_materializes_as_expected() {
    let device = VkmsDeviceBuilder::new("/cfg", "vkms0")
        .enabled(true)
        .add_crtc(CrtcConfig::new("crtc0").writeback_enabled(false))
        .add_plane(PlaneConfig::new("plane0").kind(PlaneKind::Primary).possible_crtcs(&names(&["crtc0"])));
    let base = device.path();
    assert_eq!(base, "/cfg/vkms/vkms0");
    let rendered: Vec<String> = device
        .build()
        .iter()
        .map(|op| match op {
            FsOp::CreateDir { path } => format!("mkdir {}", join_path(&base, path)),
            FsOp::WriteFile { path, contents } => format!("write {} {}", join_path(&base, path), contents),
            FsOp::Symlink { target, link } => {
                format!("link {} -> {}", join_path(&base, link), join_path(&base, target))
            }
        })
        .collect();
    assert_eq!(
        rendered,
        vec![
            "mkdir /cfg/vkms/vkms0",
            "mkdir /cfg/vkms/vkms0/crtcs/crtc0",
            "write /cfg/vkms/vkms0/crtcs/crtc0/writeback 0",
            "mkdir /cfg/vkms/vkms0/planes/plane0",
            "write /cfg/vkms/vkms0/planes/plane0/type 1",
            "link /cfg/vkms/vkms0/planes/plane0/possible_crtcs/crtc0 -> /cfg/vkms/vkms0/crtcs/crtc0",
            "write /cfg/vkms/vkms0/enabled 1",
        ]
    );
}

#[test]
fn enabled_is_the_last_write() {
    let device = sample_device();
    let ops = device.build();
    let last = ops.last().unwrap();
    assert!(matches!(last, FsOp::WriteFile { path, contents } if path == &names(&["enabled"]) && contents == "1"));
    let enabled_writes = ops
        .iter()
        .filter(|op| matches!(op, FsOp::WriteFile { path, .. } if path == &names(&["enabled"])))
        .count();
    assert_eq!(enabled_writes, 1);
    // A failure on the last topology operation leaves `enabled` unwritten.
    let mut fs = BTreeMap::new();
    assert_eq!(run(&mut fs, &device.path(), &ops, Some(ops.len() - 2)), Err(ops.len() - 2));
    assert!(!fs.contains_key("/cfg/vkms/vkms0/enabled"));
    assert!(fs.contains_key("/cfg/vkms/vkms0/crtcs/crtc1"));
}

#[test]
fn links_target_existing_directories() {
    let device = sample_device();
    let ops = device.build();
    for (i, op) in ops.iter().enumerate() {
        if let FsOp::Symlink { target, .. } = op {
            assert!(ops[..i].iter().any(|o| matches!(o, FsOp::CreateDir { path } if path == target)));
        }
    }
}

#[test]
fn load_after_materialize_gives_an_equivalent_device() {
    let device = sample_device();
    let fs = materialize(&device);
    let tree = read_tree(&fs, &device.path(), "vkms0");
    let loaded = VkmsDeviceBuilder::from_fs("/cfg", &tree).unwrap();
    assert_eq!(loaded.name, "vkms0");
    assert!(loaded.enabled);
    assert_eq!(loaded.crtcs.len(), 2);
    for c in &device.crtcs {
        let l = loaded.crtcs.iter().find(|x| x.name == c.name).unwrap();
        assert_eq!(l.is_writeback_enabled, c.is_writeback_enabled);
    }
    assert_eq!(loaded.planes.len(), 3);
    for p in &device.planes {
        let l = loaded.planes.iter().find(|x| x.name == p.name).unwrap();
        assert_eq!(l.kind, p.kind);
        assert_eq!(sorted(l.possible_crtcs.clone()), sorted(p.possible_crtcs.clone()));
    }
    assert_eq!(loaded.encoders.len(), 2);
    for e in &device.encoders {
        let l = loaded.encoders.iter().find(|x| x.name == e.name).unwrap();
        assert_eq!(sorted(l.possible_crtcs.clone()), sorted(e.possible_crtcs.clone()));
    }
    assert_eq!(loaded.connectors.len(), 3);
    for k in &device.connectors {
        let l = loaded.connectors.iter().find(|x| x.name == k.name).unwrap();
        assert_eq!(l.status, k.status);
        assert_eq!(sorted(l.possible_encoders.clone()), sorted(k.possible_encoders.clone()));
    }
}

#[test]
fn disabled_device_loads_disabled() {
    let device = VkmsDeviceBuilder::new("/cfg", "off").add_crtc(CrtcConfig::new("c"));
    let fs = materialize(&device);
    assert_eq!(fs.get("/cfg/vkms/off/enabled"), Some(&Node::File(s("0"))));
    let loaded = VkmsDeviceBuilder::from_fs("/cfg", &read_tree(&fs, &device.path(), "off")).unwrap();
    assert!(!loaded.enabled);
}

fn description() -> DeviceDescription {
    DeviceDescription {
        name: s("vkms1"),
        enabled: true,
        planes: vec![
            PlaneDescription { name: s("p0"), kind: Some(s("primary")), possible_crtcs: Some(names(&["c1"])) },
            PlaneDescription { name: s("p1"), kind: None, possible_crtcs: None },
            PlaneDescription { name: s("p2"), kind: Some(s("cursor")), possible_crtcs: Some(names(&["c0", "c1"])) },
        ],
        crtcs: vec![
            CrtcDescription { name: s("c0"), writeback: None },
            CrtcDescription { name: s("c1"), writeback: Some(true) },
        ],
        encoders: vec![EncoderDescription { name: s("e0"), possible_crtcs: Some(names(&["c0"])) }],
        connectors: vec![ConnectorDescription { name: s("k0"), possible_encoders: Some(names(&["e0"])) }],
    }
}

#[test]
fn description_maps_to_device_with_defaults() {
    let d = create_vkms_device_builder("/cfg", &description()).unwrap();
    assert_eq!(d.path(), "/cfg/vkms/vkms1");
    assert!(d.enabled);
    assert_eq!(d.planes[0].kind, PlaneKind::Primary);
    assert_eq!(d.planes[1].kind, PlaneKind::Overlay);
    assert!(d.planes[1].possible_crtcs.is_empty());
    assert_eq!(d.planes[2].kind, PlaneKind::Cursor);
    assert_eq!(d.planes[2].possible_crtcs, names(&["c0", "c1"]));
    assert!(!d.crtcs[0].is_writeback_enabled);
    assert!(d.crtcs[1].is_writeback_enabled);
    assert_eq!(d.encoders[0].possible_crtcs, names(&["c0"]));
    assert_eq!(d.connectors[0].status, ConnectorStatus::Connected);
    assert_eq!(d.connectors[0].possible_encoders, names(&["e0"]));
    let ops = create_vkms_device("/cfg", &description()).unwrap();
    assert_eq!(ops.len(), d.build().len());
}

#[test]
fn dangling_plane_crtc_is_refused_with_no_operation() {
    let mut desc = description();
    desc.planes[0].possible_crtcs = Some(names(&["c1", "missing"]));
    assert_eq!(create_vkms_device_builder("/cfg", &desc).unwrap_err(), ConfigError::DanglingReference);
    assert_eq!(create_vkms_device("/cfg", &desc).unwrap_err(), ConfigError::DanglingReference);
}

#[test]
fn dangling_encoder_and_connector_references_are_refused() {
    let mut desc = description();
    desc.encoders[0].possible_crtcs = Some(names(&["nope"]));
    assert_eq!(create_vkms_device("/cfg", &desc).unwrap_err(), ConfigError::DanglingReference);
    let mut desc = description();
    desc.connectors[0].possible_encoders = Some(names(&["e9"]));
    assert_eq!(create_vkms_device("/cfg", &desc).unwrap_err(), ConfigError::DanglingReference);
}

#[test]
fn references_are_checked_whatever_the_declaration_order() {
    let mut desc = description();
    // CRTCs listed after the planes that name them are still found.
    desc.crtcs.reverse();
    assert!(create_vkms_device_builder("/cfg", &desc).is_ok());
}

#[test]
fn unknown_plane_type_is_refused() {
    let mut desc = description();
    desc.planes[1].kind = Some(s("underlay"));
    assert_eq!(create_vkms_device("/cfg", &desc).unwrap_err(), ConfigError::InvalidPlaneType);
}

fn entries_of(fs: &BTreeMap<String, Node>, base: &str) -> Vec<TreeEntry> {
    fs.iter()
        .filter(|(k, _)| k.as_str() == base || k.starts_with(&format!("{base}/")))
        .map(|(k, n)| TreeEntry {
            path: k[base.len()..].split('/').filter(|c| !c.is_empty()).map(|c| c.to_string()).collect(),
            kind: match n {
                Node::Dir => EntryKind::Dir,
                Node::File(_) => EntryKind::File,
                Node::Link(_) => EntryKind::Link,
            },
        })
        .collect()
}

fn remove_all(fs: &mut BTreeMap<String, Node>, base: &str) {
    let entries = entries_of(fs, base);
    let order = removal_order(&entries);
    assert_eq!(order.len(), entries.len());
    for i in order {
        let path = join_path(base, &entries[i].path);
        let prefix = format!("{path}/");
        assert!(!fs.keys().any(|k| k.starts_with(&prefix)), "{path} removed before its contents");
        assert!(fs.remove(&path).is_some());
    }
}

#[test]
fn partially_materialized_device_is_removed_entirely() {
    let device = sample_device();
    let ops = device.build();
    let mut fs = BTreeMap::new();
    // Stop right after the CRTCs, before any plane.
    assert!(run(&mut fs, &device.path(), &ops, Some(5)).is_err());
    fs.insert(s("/cfg/vkms/other"), Node::Dir);
    remove_all(&mut fs, &device.path());
    assert!(fs.keys().all(|k| !k.starts_with("/cfg/vkms/vkms0")));
    assert!(fs.contains_key("/cfg/vkms/other"));
}

#[test]
fn fully_materialized_device_is_removed_entirely() {
    let device = sample_device();
    let mut fs = materialize(&device);
    remove_all(&mut fs, &device.path());
    assert!(fs.is_empty());
}

#[test]
fn removal_order_puts_deeper_entries_first() {
    let entries = vec![
        TreeEntry { path: vec![], kind: EntryKind::Dir },
        TreeEntry { path: names(&["a", "b", "c"]), kind: EntryKind::Link },
        TreeEntry { path: names(&["a"]), kind: EntryKind::Dir },
        TreeEntry { path: names(&["a", "b"]), kind: EntryKind::Dir },
    ];
    assert_eq!(removal_order(&entries), vec![1, 3, 2, 0]);
    assert!(removal_order(&vec![]).is_empty());
}

#[test]
fn listing_an_empty_root_gives_no_device() {
    let devices = list_vkms_devices("/cfg", &vec![]).unwrap();
    assert!(devices.is_empty());
}

#[test]
fn listing_loads_every_device_or_fails() {
    let a = sample_device();
    let b = VkmsDeviceBuilder::new("/cfg", "b").add_crtc(CrtcConfig::new("c"));
    let fa = materialize(&a);
    let fb = materialize(&b);
    let trees = vec![read_tree(&fa, &a.path(), "vkms0"), read_tree(&fb, &b.path(), "b")];
    let devices = list_vkms_devices("/cfg", &trees).unwrap();
    assert_eq!(devices.len(), 2);
    assert_eq!(devices[1].name, "b");
    let mut broken = read_tree(&fb, &b.path(), "b");
    broken.planes.push(PlaneEntry { name: s("p"), kind: s("9"), crtc_links: vec![] });
    assert_eq!(list_vkms_devices("/cfg", &vec![broken]).unwrap_err(), LoadError::InvalidPlaneType);
}

#[test]
fn trailing_separators_and_dots_are_ignored_in_link_targets() {
    assert_eq!(link_target_name("/cfg/vkms/d/crtcs/c0/"), Some(s("c0")));
    assert_eq!(link_target_name("/cfg/vkms/d/crtcs/c0//"), Some(s("c0")));
    assert_eq!(link_target_name("/a/b/."), Some(s("b")));
    assert_eq!(link_target_name("/a/b/./"), Some(s("b")));
    assert_eq!(link_target_name("/a/b."), Some(s("b.")));
    assert_eq!(link_target_name("/a/.b"), Some(s(".b")));
}

fn empty_tree(name: &str) -> DeviceTree {
    DeviceTree {
        name: s(name),
        enabled: s("1\n"),
        crtcs: vec![],
        planes: vec![],
        encoders: vec![],
        connectors: vec![],
    }
}

#[test]
fn plane_linking_to_a_missing_crtc_is_refused() {
    let mut tree = empty_tree("d");
    tree.planes.push(PlaneEntry { name: s("p"), kind: s("0\n"), crtc_links: names(&["/cfg/vkms/d/crtcs/x"]) });
    assert_eq!(VkmsDeviceBuilder::from_fs("/cfg", &tree).unwrap_err(), LoadError::DanglingReference);
    assert_eq!(list_vkms_devices("/cfg", &vec![tree]).unwrap_err(), LoadError::DanglingReference);
}

#[test]
fn encoder_and_connector_links_are_checked() {
    let mut tree = empty_tree("d");
    tree.encoders.push(EncoderEntry { name: s("e"), crtc_links: names(&["/cfg/vkms/d/crtcs/x"]) });
    assert_eq!(VkmsDeviceBuilder::from_fs("/cfg", &tree).unwrap_err(), LoadError::DanglingReference);
    let mut tree = empty_tree("d");
    tree.connectors.push(ConnectorEntry { name: s("k"), status: s("1\n"), encoder_links: names(&["/cfg/vkms/d/encoders/e"]) });
    assert_eq!(VkmsDeviceBuilder::from_fs("/cfg", &tree).unwrap_err(), LoadError::DanglingReference);
}

#[test]
fn references_resolve_whatever_the_listing_order() {
    // Planes and connectors are read before the CRTCs and encoders they name.
    let mut tree = empty_tree("d");
    tree.planes.push(PlaneEntry { name: s("p"), kind: s("1\n"), crtc_links: names(&["/cfg/vkms/d/crtcs/c"]) });
    tree.connectors.push(ConnectorEntry { name: s("k"), status: s("3\n"), encoder_links: names(&["/cfg/vkms/d/encoders/e"]) });
    tree.encoders.push(EncoderEntry { name: s("e"), crtc_links: names(&["/cfg/vkms/d/crtcs/c/"]) });
    tree.crtcs.push(CrtcEntry { name: s("c"), writeback: s("0\n") });
    let d = VkmsDeviceBuilder::from_fs("/cfg", &tree).unwrap();
    assert_eq!(d.planes[0].possible_crtcs, names(&["c"]));
    assert_eq!(d.encoders[0].possible_crtcs, names(&["c"]));
    assert_eq!(d.connectors[0].status, ConnectorStatus::Unknown);
}

#[test]
fn repeated_name_in_a_category_is_refused() {
    let mut tree = empty_tree("d");
    tree.crtcs.push(CrtcEntry { name: s("c"), writeback: s("0") });
    tree.crtcs.push(CrtcEntry { name: s("c"), writeback: s("1") });
    assert_eq!(VkmsDeviceBuilder::from_fs("/cfg", &tree).unwrap_err(), LoadError::DuplicateName);
    let mut tree = empty_tree("d");
    tree.crtcs.push(CrtcEntry { name: s("c"), writeback: s("0") });
    tree.planes.push(PlaneEntry { name: s("c"), kind: s("0"), crtc_links: vec![] });
    assert!(VkmsDeviceBuilder::from_fs("/cfg", &tree).is_ok());
}

//! Configuration adapter: a device description, as parsed from JSON, turned
//! into a device model once its cross-references are checked.

use crate::model::{
    crtc_refs_resolve, encoder_refs_resolve, has_crtc, ConnectorConfig, CrtcConfig, DeviceView,
    EncoderConfig, PlaneConfig, PlaneKind, PlaneView, CrtcView, EncoderView, ConnectorView,
    ConnectorStatus, VkmsDeviceBuilder,
};
use crate::integrity::refs_resolve;
use crate::plan::{device_plan, views, FsOp};
use vstd::prelude::*;

verus! {

/// Why a description was refused.
#[derive(Clone, Copy, Debug, PartialEq, Eq, Structural)]
pub enum ConfigError {
    /// A plane's `type` is none of `primary`, `overlay` or `cursor`.
    InvalidPlaneType,
    /// A plane or encoder names a CRTC, or a connector names an encoder, that
    /// the description does not hold.
    DanglingReference,
}

/// A plane as described: `type` and `possible_crtcs` may be absent.
#[derive(Debug)]
pub struct PlaneDescription {
    pub name: String,
    pub kind: Option<String>,
    pub possible_crtcs: Option<Vec<String>>,
}

/// A CRTC as described: `writeback` may be absent.
#[derive(Debug)]
pub struct CrtcDescription {
    pub name: String,
    pub writeback: Option<bool>,
}

/// An encoder as described: `possible_crtcs` may be absent.
#[derive(Debug)]
pub struct EncoderDescription {
    pub name: String,
    pub possible_crtcs: Option<Vec<String>>,
}

/// A connector as described: `possible_encoders` may be absent.
#[derive(Debug)]
pub struct ConnectorDescription {
    pub name: String,
    pub possible_encoders: Option<Vec<String>>,
}

/// A device as described.
#[derive(Debug)]
pub struct DeviceDescription {
    pub name: String,
    pub enabled: bool,
    pub planes: Vec<PlaneDescription>,
    pub crtcs: Vec<CrtcDescription>,
    pub encoders: Vec<EncoderDescription>,
    pub connectors: Vec<ConnectorDescription>,
}

/// The plane type a description's `type` names.
pub open spec fn described_kind(s: Seq<char>) -> Option<PlaneKind> {
    if s == "primary"@ {
        Some(PlaneKind::Primary)
    } else if s == "overlay"@ {
        Some(PlaneKind::Overlay)
    } else if s == "cursor"@ {
        Some(PlaneKind::Cursor)
    } else {
        None
    }
}

pub open spec fn names_or_none(v: Option<Vec<String>>) -> Seq<Seq<char>> {
    match v {
        Some(v) => v.deep_view(),
        None => seq![],
    }
}

pub open spec fn kind_valid(p: PlaneDescription) -> bool {
    match p.kind {
        Some(s) => described_kind(s@) is Some,
        None => true,
    }
}

/// Every plane's `type`, where given, names a plane type.
pub open spec fn kinds_valid(d: &DeviceDescription) -> bool {
    forall|i: int|
        0 <= i < d.planes@.len() ==> kind_valid(#[trigger] d.planes@[i])
}

pub open spec fn described_plane(p: PlaneDescription) -> PlaneView {
    PlaneView {
        name: p.name@,
        kind: match p.kind {
            Some(s) => match described_kind(s@) {
                Some(k) => k,
                None => PlaneKind::Overlay,
            },
            None => PlaneKind::Overlay,
        },
        possible_crtcs: names_or_none(p.possible_crtcs),
    }
}

pub open spec fn described_crtc(c: CrtcDescription) -> CrtcView {
    CrtcView {
        name: c.name@,
        writeback: match c.writeback {
            Some(b) => b,
            None => false,
        },
    }
}

pub open spec fn described_encoder(e: EncoderDescription) -> EncoderView {
    EncoderView { name: e.name@, possible_crtcs: names_or_none(e.possible_crtcs) }
}

pub open spec fn described_connector(k: ConnectorDescription) -> ConnectorView {
    ConnectorView {
        name: k.name@,
        status: ConnectorStatus::Connected,
        possible_encoders: names_or_none(k.possible_encoders),
    }
}

/// The device a description stands for, every absent field at its default.
pub open spec fn described_device(configfs_path: Seq<char>, d: &DeviceDescription) -> DeviceView {
    DeviceView {
        configfs_path,
        name: d.name@,
        enabled: d.enabled,
        planes: d.planes@.map_values(|p: PlaneDescription| described_plane(p)),
        crtcs: d.crtcs@.map_values(|c: CrtcDescription| described_crtc(c)),
        encoders: d.encoders@.map_values(|e: EncoderDescription| described_encoder(e)),
        connectors: d.connectors@.map_values(|k: ConnectorDescription| described_connector(k)),
    }
}

/// What the adapter makes of a description.
pub open spec fn adapt(configfs_path: Seq<char>, d: &DeviceDescription) -> Result<DeviceView, ConfigError> {
    if !kinds_valid(d) {
        Err(ConfigError::InvalidPlaneType)
    } else if !(crtc_refs_resolve(described_device(configfs_path, d)) && encoder_refs_resolve(
        described_device(configfs_path, d),
    )) {
        Err(ConfigError::DanglingReference)
    } else {
        Ok(described_device(configfs_path, d))
    }
}

fn str_eq(a: &String, b: &str) -> (r: bool)
    ensures
        r == (a@ == b@),
{
    let o = b.to_owned();
    *a == o
}

fn kind_of(s: &String) -> (r: Option<PlaneKind>)
    ensures
        r == described_kind(s@),
{
    if str_eq(s, "primary") {
        Some(PlaneKind::Primary)
    } else if str_eq(s, "overlay") {
        Some(PlaneKind::Overlay)
    } else if str_eq(s, "cursor") {
        Some(PlaneKind::Cursor)
    } else {
        None
    }
}

fn plane_from_description(pd: &PlaneDescription) -> (r: Option<PlaneConfig>)
    ensures
        r matches Some(p) ==> kind_valid(*pd) && p@ == described_plane(*pd),
        r is None ==> !kind_valid(*pd),
{
    let mut plane = PlaneConfig::new(pd.name.as_str());
    match &pd.kind {
        Some(k) => match kind_of(k) {
            Some(kind) => {
                plane = plane.kind(kind);
            },
            None => {
                return None;
            },
        },
        None => {},
    }
    match &pd.possible_crtcs {
        Some(v) => {
            plane = plane.possible_crtcs(v.as_slice());
            proof {
                assert(v@.map_values(|s: String| s@) =~= v.deep_view());
            }
        },
        None => {},
    }
    Some(plane)
}

fn crtc_from_description(cd: &CrtcDescription) -> (r: CrtcConfig)
    ensures
        r@ == described_crtc(*cd),
{
    let mut crtc = CrtcConfig::new(cd.name.as_str());
    match cd.writeback {
        Some(b) => {
            crtc = crtc.writeback_enabled(b);
        },
        None => {},
    }
    crtc
}

fn encoder_from_description(ed: &EncoderDescription) -> (r: EncoderConfig)
    ensures
        r@ == described_encoder(*ed),
{
    let mut encoder = EncoderConfig::new(ed.name.as_str());
    match &ed.possible_crtcs {
        Some(v) => {
            encoder = encoder.possible_crtcs(v.as_slice());
            proof {
                assert(v@.map_values(|s: String| s@) =~= v.deep_view());
            }
        },
        None => {},
    }
    encoder
}

fn connector_from_description(kd: &ConnectorDescription) -> (r: ConnectorConfig)
    ensures
        r@ == described_connector(*kd),
{
    let mut connector = ConnectorConfig::new(kd.name.as_str());
    match &kd.possible_encoders {
        Some(v) => {
            connector = connector.possible_encoders(v.as_slice());
            proof {
                assert(v@.map_values(|s: String| s@) =~= v.deep_view());
            }
        },
        None => {},
    }
    connector
}

/// The device a description stands for: `InvalidPlaneType` if a plane's
/// `type` names no plane type, else `DanglingReference` if a reference names
/// an entity the description does not hold, else the device, with every
/// absent field at its default. References are checked once every entity
/// has been read, whatever the order of the description.
pub fn create_vkms_device_builder(configfs_path: &str, config: &DeviceDescription) -> (r: Result<
    VkmsDeviceBuilder,
    ConfigError,
>)
    ensures
        match r {
            Ok(b) => adapt(configfs_path@, config) == Ok::<DeviceView, ConfigError>(b@),
            Err(e) => adapt(configfs_path@, config) == Err::<DeviceView, ConfigError>(e),
        },
{
    let ghost full = described_device(configfs_path@, config);
    let mut device = VkmsDeviceBuilder::new(configfs_path, config.name.as_str());
    device = device.enabled(config.enabled);
    let mut i: usize = 0;
    proof {
        assert(full.planes.take(0) =~= seq![]);
    }
    while i < config.planes.len()
        invariant
            full == described_device(configfs_path@, config),
            i <= config.planes@.len(),
            forall|m: int| 0 <= m < i ==> kind_valid(#[trigger] config.planes@[m]),
            device@ == (DeviceView { planes: full.planes.take(i as int), crtcs: seq![], encoders: seq![], connectors: seq![], ..full }),
        decreases config.planes@.len() - i,
    {
        match plane_from_description(&config.planes[i]) {
            Some(p) => {
                device = device.add_plane(p);
                proof {
                    assert(full.planes.take(i + 1) =~= full.planes.take(i as int).push(p@));
                }
            },
            None => {
                return Err(ConfigError::InvalidPlaneType);
            },
        }
        i = i + 1;
    }
    proof {
        assert(full.planes.take(i as int) =~= full.planes);
        assert(full.crtcs.take(0) =~= seq![]);
    }
    let mut i: usize = 0;
    while i < config.crtcs.len()
        invariant
            full == described_device(configfs_path@, config),
            i <= config.crtcs@.len(),
            kinds_valid(config),
            device@ == (DeviceView { crtcs: full.crtcs.take(i as int), encoders: seq![], connectors: seq![], ..full }),
        decreases config.crtcs@.len() - i,
    {
        let c = crtc_from_description(&config.crtcs[i]);
        device = device.add_crtc(c);
        proof {
            assert(full.crtcs.take(i + 1) =~= full.crtcs.take(i as int).push(c@));
        }
        i = i + 1;
    }
    proof {
        assert(full.crtcs.take(i as int) =~= full.crtcs);
        assert(full.encoders.take(0) =~= seq![]);
    }
    let mut i: usize = 0;
    while i < config.encoders.len()
        invariant
            full == described_device(configfs_path@, config),
            i <= config.encoders@.len(),
            kinds_valid(config),
            device@ == (DeviceView { encoders: full.encoders.take(i as int), connectors: seq![], ..full }),
        decreases config.encoders@.len() - i,
    {
        let e = encoder_from_description(&config.encoders[i]);
        device = device.add_encoder(e);
        proof {
            assert(full.encoders.take(i + 1) =~= full.encoders.take(i as int).push(e@));
        }
        i = i + 1;
    }
    proof {
        assert(full.encoders.take(i as int) =~= full.encoders);
        assert(full.connectors.take(0) =~= seq![]);
    }
    let mut i: usize = 0;
    while i < config.connectors.len()
        invariant
            full == described_device(configfs_path@, config),
            i <= config.connectors@.len(),
            kinds_valid(config),
            device@ == (DeviceView { connectors: full.connectors.take(i as int), ..full }),
        decreases config.connectors@.len() - i,
    {
        let k = connector_from_description(&config.connectors[i]);
        device = device.add_connector(k);
        proof {
            assert(full.connectors.take(i + 1) =~= full.connectors.take(i as int).push(k@));
        }
        i = i + 1;
    }
    proof {
        assert(full.connectors.take(i as int) =~= full.connectors);
        assert(device@ == full);
    }
    if !refs_resolve(&device) {
        return Err(ConfigError::DanglingReference);
    }
    Ok(device)
}

/// The plan that writes the described device, or the error that refuses the
/// description. A refused description yields no operation at all.
pub fn create_vkms_device(configfs_path: &str, config: &DeviceDescription) -> (r: Result<
    Vec<FsOp>,
    ConfigError,
>)
    ensures
        match r {
            Ok(ops) => adapt(configfs_path@, config) is Ok && views(ops@) == device_plan(
                adapt(configfs_path@, config)->Ok_0,
            ),
            Err(e) => adapt(configfs_path@, config) == Err::<DeviceView, ConfigError>(e),
        },
{
    let device = create_vkms_device_builder(configfs_path, config)?;
    Ok(device.build())
}

/// A description in which a plane names a CRTC that none of its CRTCs bears
/// is refused, as a dangling reference once plane types are valid, so no
/// operation is ever planned for it.
pub proof fn lemma_dangling_plane_crtc_refused(configfs_path: Seq<char>, d: &DeviceDescription, i: int, k: int)
    requires
        0 <= i < d.planes@.len(),
        0 <= k < names_or_none(d.planes@[i].possible_crtcs).len(),
        !has_crtc(described_device(configfs_path, d), names_or_none(d.planes@[i].possible_crtcs)[k]),
    ensures
        adapt(configfs_path, d) is Err,
        kinds_valid(d) ==> adapt(configfs_path, d) == Err::<DeviceView, ConfigError>(ConfigError::DanglingReference),
{
    let dev = described_device(configfs_path, d);
    assert(dev.planes[i] == described_plane(d.planes@[i]));
    assert(dev.planes[i].possible_crtcs[k] == names_or_none(d.planes@[i].possible_crtcs)[k]);
    assert(!crtc_refs_resolve(dev));
}

} // verus!

//! Device model: a device and its planes, CRTCs, encoders and connectors.

use vstd::prelude::*;

verus! {

/// Valid plane types, as defined in the kernel.
#[derive(Clone, Copy, Debug, PartialEq, Eq, Structural)]
pub enum PlaneKind {
    Overlay,
    Primary,
    Cursor,
}

/// Connector status.
#[derive(Clone, Copy, Debug, PartialEq, Eq, Structural)]
pub enum ConnectorStatus {
    Connected,
    Disconnected,
    Unknown,
}

/// Plane configuration.
#[derive(Debug)]
pub struct PlaneConfig {
    /// Name of the plane node, `<device>/planes/<name>`.
    pub name: String,
    /// Type of the plane, stored in `planes/<name>/type`.
    pub kind: PlaneKind,
    /// Names of the CRTCs linked under `planes/<name>/possible_crtcs`.
    pub possible_crtcs: Vec<String>,
}

/// CRTC configuration.
#[derive(Debug)]
pub struct CrtcConfig {
    /// Name of the CRTC node, `<device>/crtcs/<name>`.
    pub name: String,
    /// Whether writeback is enabled, stored in `crtcs/<name>/writeback`.
    pub is_writeback_enabled: bool,
}

/// Encoder configuration.
#[derive(Debug)]
pub struct EncoderConfig {
    /// Name of the encoder node, `<device>/encoders/<name>`.
    pub name: String,
    /// Names of the CRTCs linked under `encoders/<name>/possible_crtcs`.
    pub possible_crtcs: Vec<String>,
}

/// Connector configuration.
#[derive(Debug)]
pub struct ConnectorConfig {
    /// Name of the connector node, `<device>/connectors/<name>`.
    pub name: String,
    /// Status of the connector, stored in `connectors/<name>/status`.
    pub status: ConnectorStatus,
    /// Names of the encoders linked under `connectors/<name>/possible_encoders`.
    pub possible_encoders: Vec<String>,
}

/// A VKMS device: the node `<configfs>/vkms/<name>` and everything below it.
#[derive(Debug)]
pub struct VkmsDeviceBuilder {
    /// Directory where configfs is mounted, usually `/sys/kernel/config`.
    pub configfs_path: String,
    /// Name of the device node.
    pub name: String,
    /// Whether the device is enabled, stored in `<device>/enabled`.
    pub enabled: bool,
    pub planes: Vec<PlaneConfig>,
    pub crtcs: Vec<CrtcConfig>,
    pub encoders: Vec<EncoderConfig>,
    pub connectors: Vec<ConnectorConfig>,
}

pub struct PlaneView {
    pub name: Seq<char>,
    pub kind: PlaneKind,
    pub possible_crtcs: Seq<Seq<char>>,
}

pub struct CrtcView {
    pub name: Seq<char>,
    pub writeback: bool,
}

pub struct EncoderView {
    pub name: Seq<char>,
    pub possible_crtcs: Seq<Seq<char>>,
}

pub struct ConnectorView {
    pub name: Seq<char>,
    pub status: ConnectorStatus,
    pub possible_encoders: Seq<Seq<char>>,
}

pub struct DeviceView {
    pub configfs_path: Seq<char>,
    pub name: Seq<char>,
    pub enabled: bool,
    pub planes: Seq<PlaneView>,
    pub crtcs: Seq<CrtcView>,
    pub encoders: Seq<EncoderView>,
    pub connectors: Seq<ConnectorView>,
}

impl View for PlaneConfig {
    type V = PlaneView;

    open spec fn view(&self) -> PlaneView {
        PlaneView {
            name: self.name@,
            kind: self.kind,
            possible_crtcs: self.possible_crtcs.deep_view(),
        }
    }
}

impl View for CrtcConfig {
    type V = CrtcView;

    open spec fn view(&self) -> CrtcView {
        CrtcView { name: self.name@, writeback: self.is_writeback_enabled }
    }
}

impl View for EncoderConfig {
    type V = EncoderView;

    open spec fn view(&self) -> EncoderView {
        EncoderView { name: self.name@, possible_crtcs: self.possible_crtcs.deep_view() }
    }
}

impl View for ConnectorConfig {
    type V = ConnectorView;

    open spec fn view(&self) -> ConnectorView {
        ConnectorView {
            name: self.name@,
            status: self.status,
            possible_encoders: self.possible_encoders.deep_view(),
        }
    }
}

impl View for VkmsDeviceBuilder {
    type V = DeviceView;

    open spec fn view(&self) -> DeviceView {
        DeviceView {
            configfs_path: self.configfs_path@,
            name: self.name@,
            enabled: self.enabled,
            planes: self.planes@.map_values(|p: PlaneConfig| p@),
            crtcs: self.crtcs@.map_values(|c: CrtcConfig| c@),
            encoders: self.encoders@.map_values(|e: EncoderConfig| e@),
            connectors: self.connectors@.map_values(|c: ConnectorConfig| c@),
        }
    }
}

/// A character allowed in an entity name: `[A-Za-z0-9._\- ]`.
pub open spec fn is_name_char(c: char) -> bool {
    ('a' <= c && c <= 'z') || ('A' <= c && c <= 'Z') || ('0' <= c && c <= '9') || c == '.'
        || c == '_' || c == '-' || c == ' '
}

/// A name that can stand as a directory entry of the tree: non-empty, made of
/// name characters, and neither `.` nor `..`.
pub open spec fn valid_name(n: Seq<char>) -> bool {
    &&& n.len() > 0
    &&& forall|i: int| 0 <= i < n.len() ==> is_name_char(#[trigger] n[i])
    &&& n != seq!['.']
    &&& n != seq!['.', '.']
}

pub open spec fn has_crtc(d: DeviceView, n: Seq<char>) -> bool {
    exists|j: int| 0 <= j < d.crtcs.len() && (#[trigger] d.crtcs[j]).name == n
}

pub open spec fn has_encoder(d: DeviceView, n: Seq<char>) -> bool {
    exists|j: int| 0 <= j < d.encoders.len() && (#[trigger] d.encoders[j]).name == n
}

/// Every CRTC named by a plane or an encoder exists in the device.
pub open spec fn crtc_refs_resolve(d: DeviceView) -> bool {
    &&& forall|i: int, k: int|
        0 <= i < d.planes.len() && 0 <= k < d.planes[i].possible_crtcs.len() ==> has_crtc(
            d,
            #[trigger] d.planes[i].possible_crtcs[k],
        )
    &&& forall|i: int, k: int|
        0 <= i < d.encoders.len() && 0 <= k < d.encoders[i].possible_crtcs.len() ==> has_crtc(
            d,
            #[trigger] d.encoders[i].possible_crtcs[k],
        )
}

/// Every encoder named by a connector exists in the device.
pub open spec fn encoder_refs_resolve(d: DeviceView) -> bool {
    forall|i: int, k: int|
        0 <= i < d.connectors.len() && 0 <= k < d.connectors[i].possible_encoders.len()
            ==> has_encoder(d, #[trigger] d.connectors[i].possible_encoders[k])
}

/// Names are unique within each category.
pub open spec fn names_unique(d: DeviceView) -> bool {
    &&& forall|i: int, j: int|
        0 <= i < d.planes.len() && 0 <= j < d.planes.len() && #[trigger] d.planes[i].name
            == #[trigger] d.planes[j].name ==> i == j
    &&& forall|i: int, j: int|
        0 <= i < d.crtcs.len() && 0 <= j < d.crtcs.len() && #[trigger] d.crtcs[i].name
            == #[trigger] d.crtcs[j].name ==> i == j
    &&& forall|i: int, j: int|
        0 <= i < d.encoders.len() && 0 <= j < d.encoders.len() && #[trigger] d.encoders[i].name
            == #[trigger] d.encoders[j].name ==> i == j
    &&& forall|i: int, j: int|
        0 <= i < d.connectors.len() && 0 <= j < d.connectors.len()
            && #[trigger] d.connectors[i].name == #[trigger] d.connectors[j].name ==> i == j
}

/// Every entity name, and every name an entity refers to, is valid.
pub open spec fn names_valid(d: DeviceView) -> bool {
    &&& valid_name(d.name)
    &&& forall|i: int| 0 <= i < d.planes.len() ==> valid_name(#[trigger] d.planes[i].name)
    &&& forall|i: int| 0 <= i < d.crtcs.len() ==> valid_name(#[trigger] d.crtcs[i].name)
    &&& forall|i: int| 0 <= i < d.encoders.len() ==> valid_name(#[trigger] d.encoders[i].name)
    &&& forall|i: int| 0 <= i < d.connectors.len() ==> valid_name(#[trigger] d.connectors[i].name)
}

/// A well-formed device model: valid unique names and no dangling reference.
pub open spec fn valid_device(d: DeviceView) -> bool {
    &&& names_valid(d)
    &&& names_unique(d)
    &&& crtc_refs_resolve(d)
    &&& encoder_refs_resolve(d)
}

/// Two planes agree up to the order of their references.
pub open spec fn plane_matches(a: PlaneView, b: PlaneView) -> bool {
    a.name == b.name && a.kind == b.kind && a.possible_crtcs.to_set() == b.possible_crtcs.to_set()
}

pub open spec fn encoder_matches(a: EncoderView, b: EncoderView) -> bool {
    a.name == b.name && a.possible_crtcs.to_set() == b.possible_crtcs.to_set()
}

pub open spec fn connector_matches(a: ConnectorView, b: ConnectorView) -> bool {
    a.name == b.name && a.status == b.status && a.possible_encoders.to_set()
        == b.possible_encoders.to_set()
}

/// Two devices describe the same topology, comparing every collection as a set.
pub open spec fn equivalent(a: DeviceView, b: DeviceView) -> bool {
    &&& a.name == b.name
    &&& a.enabled == b.enabled
    &&& forall|i: int| 0 <= i < a.crtcs.len() ==> b.crtcs.contains(#[trigger] a.crtcs[i])
    &&& forall|j: int| 0 <= j < b.crtcs.len() ==> a.crtcs.contains(#[trigger] b.crtcs[j])
    &&& forall|i: int|
        0 <= i < a.planes.len() ==> exists|j: int|
            0 <= j < b.planes.len() && plane_matches(#[trigger] a.planes[i], #[trigger] b.planes[j])
    &&& forall|j: int|
        0 <= j < b.planes.len() ==> exists|i: int|
            0 <= i < a.planes.len() && plane_matches(#[trigger] a.planes[i], #[trigger] b.planes[j])
    &&& forall|i: int|
        0 <= i < a.encoders.len() ==> exists|j: int|
            0 <= j < b.encoders.len() && encoder_matches(
                #[trigger] a.encoders[i],
                #[trigger] b.encoders[j],
            )
    &&& forall|j: int|
        0 <= j < b.encoders.len() ==> exists|i: int|
            0 <= i < a.encoders.len() && encoder_matches(
                #[trigger] a.encoders[i],
                #[trigger] b.encoders[j],
            )
    &&& forall|i: int|
        0 <= i < a.connectors.len() ==> exists|j: int|
            0 <= j < b.connectors.len() && connector_matches(
                #[trigger] a.connectors[i],
                #[trigger] b.connectors[j],
            )
    &&& forall|j: int|
        0 <= j < b.connectors.len() ==> exists|i: int|
            0 <= i < a.connectors.len() && connector_matches(
                #[trigger] a.connectors[i],
                #[trigger] b.connectors[j],
            )
}

/// Copies a list of names.
pub fn copy_names(names: &[String]) -> (r: Vec<String>)
    ensures
        r.deep_view() == names@.map_values(|s: String| s@),
{
    let mut r: Vec<String> = Vec::new();
    let mut i: usize = 0;
    while i < names.len()
        invariant
            i <= names@.len(),
            r@.len() == i,
            forall|k: int| 0 <= k < i ==> (#[trigger] r@[k])@ == names@[k]@,
        decreases names@.len() - i,
    {
        r.push(names[i].clone());
        i = i + 1;
    }
    proof {
        assert(r.deep_view() =~= names@.map_values(|s: String| s@));
    }
    r
}

impl PlaneConfig {
    /// A plane of the given name: an overlay with no possible CRTC.
    pub fn new(name: &str) -> (r: Self)
        ensures
            r@ == (PlaneView { name: name@, kind: PlaneKind::Overlay, possible_crtcs: seq![] }),
    {
        let r = PlaneConfig { name: name.to_owned(), kind: PlaneKind::Overlay, possible_crtcs: Vec::new() };
        proof {
            assert(r.possible_crtcs.deep_view() =~= seq![]);
        }
        r
    }

    /// Sets the type of the plane.
    pub fn kind(self, kind: PlaneKind) -> (r: Self)
        ensures
            r@ == (PlaneView { kind, ..self@ }),
    {
        PlaneConfig { kind, ..self }
    }

    /// Sets the possible CRTCs of the plane.
    pub fn possible_crtcs(self, possible_crtcs: &[String]) -> (r: Self)
        ensures
            r@ == (PlaneView {
                possible_crtcs: possible_crtcs@.map_values(|s: String| s@),
                ..self@
            }),
    {
        PlaneConfig { possible_crtcs: copy_names(possible_crtcs), ..self }
    }
}

impl CrtcConfig {
    /// A CRTC of the given name, with writeback disabled.
    pub fn new(name: &str) -> (r: Self)
        ensures
            r@ == (CrtcView { name: name@, writeback: false }),
    {
        CrtcConfig { name: name.to_owned(), is_writeback_enabled: false }
    }

    /// Sets whether writeback is enabled.
    pub fn writeback_enabled(self, writeback: bool) -> (r: Self)
        ensures
            r@ == (CrtcView { writeback, ..self@ }),
    {
        CrtcConfig { is_writeback_enabled: writeback, ..self }
    }
}

impl EncoderConfig {
    /// An encoder of the given name, with no possible CRTC.
    pub fn new(name: &str) -> (r: Self)
        ensures
            r@ == (EncoderView { name: name@, possible_crtcs: seq![] }),
    {
        let r = EncoderConfig { name: name.to_owned(), possible_crtcs: Vec::new() };
        proof {
            assert(r.possible_crtcs.deep_view() =~= seq![]);
        }
        r
    }

    /// Sets the possible CRTCs of the encoder.
    pub fn possible_crtcs(self, possible_crtcs: &[String]) -> (r: Self)
        ensures
            r@ == (EncoderView {
                possible_crtcs: possible_crtcs@.map_values(|s: String| s@),
                ..self@
            }),
    {
        EncoderConfig { possible_crtcs: copy_names(possible_crtcs), ..self }
    }
}

impl ConnectorConfig {
    /// A connected connector of the given name, with no possible encoder.
    pub fn new(name: &str) -> (r: Self)
        ensures
            r@ == (ConnectorView {
                name: name@,
                status: ConnectorStatus::Connected,
                possible_encoders: seq![],
            }),
    {
        let r = ConnectorConfig {
            name: name.to_owned(),
            status: ConnectorStatus::Connected,
            possible_encoders: Vec::new(),
        };
        proof {
            assert(r.possible_encoders.deep_view() =~= seq![]);
        }
        r
    }

    /// Sets the status of the connector.
    pub fn status(self, status: ConnectorStatus) -> (r: Self)
        ensures
            r@ == (ConnectorView { status, ..self@ }),
    {
        ConnectorConfig { status, ..self }
    }

    /// Sets the possible encoders of the connector.
    pub fn possible_encoders(self, possible_encoders: &[String]) -> (r: Self)
        ensures
            r@ == (ConnectorView {
                possible_encoders: possible_encoders@.map_values(|s: String| s@),
                ..self@
            }),
    {
        ConnectorConfig { possible_encoders: copy_names(possible_encoders), ..self }
    }
}

/// `<configfs>/vkms/<name>`, the directory of a device.
pub open spec fn device_path(configfs_path: Seq<char>, name: Seq<char>) -> Seq<char> {
    configfs_path + "/vkms/"@ + name
}

impl VkmsDeviceBuilder {
    /// A disabled device of the given name, with no entity.
    pub fn new(configfs_path: &str, name: &str) -> (r: Self)
        ensures
            r@ == (DeviceView {
                configfs_path: configfs_path@,
                name: name@,
                enabled: false,
                planes: seq![],
                crtcs: seq![],
                encoders: seq![],
                connectors: seq![],
            }),
    {
        let r = VkmsDeviceBuilder {
            configfs_path: configfs_path.to_owned(),
            name: name.to_owned(),
            enabled: false,
            planes: Vec::new(),
            crtcs: Vec::new(),
            encoders: Vec::new(),
            connectors: Vec::new(),
        };
        proof {
            assert(r@.planes =~= seq![]);
            assert(r@.crtcs =~= seq![]);
            assert(r@.encoders =~= seq![]);
            assert(r@.connectors =~= seq![]);
        }
        r
    }

    /// The path of the device directory.
    pub fn path(&self) -> (r: String)
        ensures
            r@ == device_path(self.configfs_path@, self.name@),
    {
        let mut r = self.configfs_path.clone();
        r.append("/vkms/");
        r.append(self.name.as_str());
        r
    }

    /// Sets whether the device is enabled.
    pub fn enabled(self, enabled: bool) -> (r: Self)
        ensures
            r@ == (DeviceView { enabled, ..self@ }),
    {
        VkmsDeviceBuilder { enabled, ..self }
    }

    /// Adds a plane to the device.
    pub fn add_plane(self, plane: PlaneConfig) -> (r: Self)
        ensures
            r@ == (DeviceView { planes: self@.planes.push(plane@), ..self@ }),
    {
        let mut r = self;
        r.planes.push(plane);
        proof {
            assert(r@.planes =~= self@.planes.push(plane@));
        }
        r
    }

    /// Adds a CRTC to the device.
    pub fn add_crtc(self, crtc: CrtcConfig) -> (r: Self)
        ensures
            r@ == (DeviceView { crtcs: self@.crtcs.push(crtc@), ..self@ }),
    {
        let mut r = self;
        r.crtcs.push(crtc);
        proof {
            assert(r@.crtcs =~= self@.crtcs.push(crtc@));
        }
        r
    }

    /// Adds an encoder to the device.
    pub fn add_encoder(self, encoder: EncoderConfig) -> (r: Self)
        ensures
            r@ == (DeviceView { encoders: self@.encoders.push(encoder@), ..self@ }),
    {
        let mut r = self;
        r.encoders.push(encoder);
        proof {
            assert(r@.encoders =~= self@.encoders.push(encoder@));
        }
        r
    }

    /// Adds a connector to the device.
    pub fn add_connector(self, connector: ConnectorConfig) -> (r: Self)
        ensures
            r@ == (DeviceView { connectors: self@.connectors.push(connector@), ..self@ }),
    {
        let mut r = self;
        r.connectors.push(connector);
        proof {
            assert(r@.connectors =~= self@.connectors.push(connector@));
        }
        r
    }
}

} // verus!

//! Loading: a device rebuilt from a snapshot of its tree.
//!
//! The snapshot holds what the tree holds: the names of the entity
//! directories, the raw contents of their attribute files, and the raw
//! targets of their links. Directories may come in any order.

use crate::attr::{
    flag_from_attr, kind_attr, lemma_connector_status_round_trip, lemma_plane_kind_round_trip,
    parse_flag, parse_kind, parse_status, status_attr, trimmed,
};
use crate::integrity::{names_are_unique, refs_resolve};
use crate::model::{
    crtc_refs_resolve, encoder_refs_resolve, names_unique,
    ConnectorConfig, ConnectorStatus, ConnectorView, CrtcConfig, CrtcView, DeviceView,
    EncoderConfig, EncoderView, PlaneConfig, PlaneKind, PlaneView, VkmsDeviceBuilder,
};
use vstd::prelude::*;

verus! {

/// Why a tree could not be loaded.
#[derive(Clone, Copy, Debug, PartialEq, Eq, Structural)]
pub enum LoadError {
    /// A plane's `type` holds no valid plane type.
    InvalidPlaneType,
    /// A connector's `status` holds no valid status.
    InvalidConnectorStatus,
    /// A link's target does not end in an entity name.
    InvalidLinkTarget,
    /// Two entities of one category bear the same name.
    DuplicateName,
    /// A plane or encoder links to a CRTC, or a connector to an encoder, that
    /// the device does not hold.
    DanglingReference,
}

/// `crtcs/<name>` as read from disk.
#[derive(Debug)]
pub struct CrtcEntry {
    pub name: String,
    /// Contents of `writeback`.
    pub writeback: String,
}

/// `planes/<name>` as read from disk.
#[derive(Debug)]
pub struct PlaneEntry {
    pub name: String,
    /// Contents of `type`.
    pub kind: String,
    /// Targets of the links in `possible_crtcs/`.
    pub crtc_links: Vec<String>,
}

/// `encoders/<name>` as read from disk.
#[derive(Debug)]
pub struct EncoderEntry {
    pub name: String,
    /// Targets of the links in `possible_crtcs/`.
    pub crtc_links: Vec<String>,
}

/// `connectors/<name>` as read from disk.
#[derive(Debug)]
pub struct ConnectorEntry {
    pub name: String,
    /// Contents of `status`.
    pub status: String,
    /// Targets of the links in `possible_encoders/`.
    pub encoder_links: Vec<String>,
}

/// `<configfs>/vkms/<name>` as read from disk.
#[derive(Debug)]
pub struct DeviceTree {
    pub name: String,
    /// Contents of `enabled`.
    pub enabled: String,
    pub crtcs: Vec<CrtcEntry>,
    pub planes: Vec<PlaneEntry>,
    pub encoders: Vec<EncoderEntry>,
    pub connectors: Vec<ConnectorEntry>,
}

pub struct CrtcEntryView {
    pub name: Seq<char>,
    pub writeback: Seq<char>,
}

pub struct PlaneEntryView {
    pub name: Seq<char>,
    pub kind: Seq<char>,
    pub crtc_links: Seq<Seq<char>>,
}

pub struct EncoderEntryView {
    pub name: Seq<char>,
    pub crtc_links: Seq<Seq<char>>,
}

pub struct ConnectorEntryView {
    pub name: Seq<char>,
    pub status: Seq<char>,
    pub encoder_links: Seq<Seq<char>>,
}

pub struct TreeView {
    pub name: Seq<char>,
    pub enabled: Seq<char>,
    pub crtcs: Seq<CrtcEntryView>,
    pub planes: Seq<PlaneEntryView>,
    pub encoders: Seq<EncoderEntryView>,
    pub connectors: Seq<ConnectorEntryView>,
}

impl View for CrtcEntry {
    type V = CrtcEntryView;

    open spec fn view(&self) -> CrtcEntryView {
        CrtcEntryView { name: self.name@, writeback: self.writeback@ }
    }
}

impl View for PlaneEntry {
    type V = PlaneEntryView;

    open spec fn view(&self) -> PlaneEntryView {
        PlaneEntryView {
            name: self.name@,
            kind: self.kind@,
            crtc_links: self.crtc_links.deep_view(),
        }
    }
}

impl View for EncoderEntry {
    type V = EncoderEntryView;

    open spec fn view(&self) -> EncoderEntryView {
        EncoderEntryView { name: self.name@, crtc_links: self.crtc_links.deep_view() }
    }
}

impl View for ConnectorEntry {
    type V = ConnectorEntryView;

    open spec fn view(&self) -> ConnectorEntryView {
        ConnectorEntryView {
            name: self.name@,
            status: self.status@,
            encoder_links: self.encoder_links.deep_view(),
        }
    }
}

impl View for DeviceTree {
    type V = TreeView;

    open spec fn view(&self) -> TreeView {
        TreeView {
            name: self.name@,
            enabled: self.enabled@,
            crtcs: self.crtcs@.map_values(|e: CrtcEntry| e@),
            planes: self.planes@.map_values(|e: PlaneEntry| e@),
            encoders: self.encoders@.map_values(|e: EncoderEntry| e@),
            connectors: self.connectors@.map_values(|e: ConnectorEntry| e@),
        }
    }
}

/// The part of `s` after its last `/` (all of `s` if it has none).
pub open spec fn final_component(s: Seq<char>) -> Seq<char>
    decreases s.len(),
{
    if s.len() == 0 {
        s
    } else if s.last() == '/' {
        seq![]
    } else {
        final_component(s.drop_last()).push(s.last())
    }
}

/// A trailing part of a path that names no entry of its own: a `/`, or a
/// `.` that stands as a whole component.
pub open spec fn ends_in_filler(s: Seq<char>) -> bool {
    s.len() > 0 && (s.last() == '/' || (s.last() == '.' && (s.len() == 1 || s[s.len() - 2] == '/')))
}

/// `s` without trailing separators and `.` components: `a/b/./` becomes `a/b`.
pub open spec fn strip_trailing(s: Seq<char>) -> Seq<char>
    decreases s.len(),
{
    if ends_in_filler(s) {
        strip_trailing(s.drop_last())
    } else {
        s
    }
}

/// The entity a link target names: its final component, trailing separators
/// and `.` components ignored, unless that is empty or `..`.
pub open spec fn link_name(target: Seq<char>) -> Option<Seq<char>> {
    let n = final_component(strip_trailing(target));
    if n.len() == 0 || n == seq!['.'] || n == seq!['.', '.'] {
        None
    } else {
        Some(n)
    }
}

pub open spec fn resolve_link(target: Seq<char>) -> Result<Seq<char>, LoadError> {
    match link_name(target) {
        Some(n) => Ok(n),
        None => Err(LoadError::InvalidLinkTarget),
    }
}

/// `f` applied to each element in order; the first error, if any, wins.
pub open spec fn load_all<A, B>(s: Seq<A>, f: spec_fn(A) -> Result<B, LoadError>) -> Result<
    Seq<B>,
    LoadError,
>
    decreases s.len(),
{
    if s.len() == 0 {
        Ok(seq![])
    } else {
        match load_all(s.drop_last(), f) {
            Err(e) => Err(e),
            Ok(v) => match f(s.last()) {
                Err(e) => Err(e),
                Ok(x) => Ok(v.push(x)),
            },
        }
    }
}

pub open spec fn resolve_links(targets: Seq<Seq<char>>) -> Result<Seq<Seq<char>>, LoadError> {
    load_all(targets, |t: Seq<char>| resolve_link(t))
}

pub open spec fn load_crtc(e: CrtcEntryView) -> CrtcView {
    CrtcView { name: e.name, writeback: parse_flag(trimmed(e.writeback)) }
}

pub open spec fn load_plane(e: PlaneEntryView) -> Result<PlaneView, LoadError> {
    match parse_kind(trimmed(e.kind)) {
        None => Err(LoadError::InvalidPlaneType),
        Some(kind) => match resolve_links(e.crtc_links) {
            Err(err) => Err(err),
            Ok(names) => Ok(PlaneView { name: e.name, kind, possible_crtcs: names }),
        },
    }
}

pub open spec fn load_encoder(e: EncoderEntryView) -> Result<EncoderView, LoadError> {
    match resolve_links(e.crtc_links) {
        Err(err) => Err(err),
        Ok(names) => Ok(EncoderView { name: e.name, possible_crtcs: names }),
    }
}

pub open spec fn load_connector(e: ConnectorEntryView) -> Result<ConnectorView, LoadError> {
    match parse_status(trimmed(e.status)) {
        None => Err(LoadError::InvalidConnectorStatus),
        Some(status) => match resolve_links(e.encoder_links) {
            Err(err) => Err(err),
            Ok(names) => Ok(ConnectorView { name: e.name, status, possible_encoders: names }),
        },
    }
}

/// A device read in full, refused if a name repeats within a category, or
/// else if a reference names an entity the device does not hold.
pub open spec fn checked_device(d: DeviceView) -> Result<DeviceView, LoadError> {
    if !names_unique(d) {
        Err(LoadError::DuplicateName)
    } else if !(crtc_refs_resolve(d) && encoder_refs_resolve(d)) {
        Err(LoadError::DanglingReference)
    } else {
        Ok(d)
    }
}

/// The device a tree describes, or the first error met reading planes, then
/// encoders, then connectors, or, once every entity is read, the error that
/// `checked_device` gives.
pub open spec fn load_device(configfs_path: Seq<char>, t: TreeView) -> Result<DeviceView, LoadError> {
    match load_all(t.planes, |e: PlaneEntryView| load_plane(e)) {
        Err(err) => Err(err),
        Ok(planes) => match load_all(t.encoders, |e: EncoderEntryView| load_encoder(e)) {
            Err(err) => Err(err),
            Ok(encoders) => match load_all(t.connectors, |e: ConnectorEntryView| load_connector(e)) {
                Err(err) => Err(err),
                Ok(connectors) => checked_device(
                    DeviceView {
                        configfs_path,
                        name: t.name,
                        enabled: parse_flag(trimmed(t.enabled)),
                        planes,
                        crtcs: t.crtcs.map_values(|e: CrtcEntryView| load_crtc(e)),
                        encoders,
                        connectors,
                    },
                ),
            },
        },
    }
}

pub proof fn lemma_load_all_step<A, B>(s: Seq<A>, f: spec_fn(A) -> Result<B, LoadError>, i: int)
    requires
        0 <= i < s.len(),
    ensures
        load_all(s.take(i + 1), f) == match load_all(s.take(i), f) {
            Err(e) => Err(e),
            Ok(v) => match f(s[i]) {
                Err(e) => Err(e),
                Ok(x) => Ok(v.push(x)),
            },
        },
{
    assert(s.take(i + 1).drop_last() =~= s.take(i));
}

/// Once a prefix fails, the whole sequence fails with the same error.
pub proof fn lemma_load_all_prefix_err<A, B>(s: Seq<A>, f: spec_fn(A) -> Result<B, LoadError>, i: int)
    requires
        0 <= i <= s.len(),
        load_all(s.take(i), f) is Err,
    ensures
        load_all(s, f) == load_all(s.take(i), f),
    decreases s.len(),
{
    if i == s.len() {
        assert(s.take(i) =~= s);
    } else {
        let init = s.drop_last();
        assert(init.take(i) =~= s.take(i));
        lemma_load_all_prefix_err(init, f, i);
    }
}

pub proof fn lemma_final_component(s: Seq<char>, j: int)
    requires
        0 <= j <= s.len(),
        j == 0 || s[j - 1] == '/',
        forall|k: int| j <= k < s.len() ==> s[k] != '/',
    ensures
        final_component(s) == s.subrange(j, s.len() as int),
    decreases s.len(),
{
    if s.len() == j {
        if j == 0 {
            assert(s.subrange(0, 0) =~= s);
        } else {
            assert(s.last() == '/');
            assert(s.subrange(j, j) =~= seq![]);
        }
    } else {
        let init = s.drop_last();
        lemma_final_component(init, j);
        assert(s.subrange(j, s.len() as int) =~= init.subrange(j, init.len() as int).push(s.last()));
    }
}

/// The entity name a link target points at.
pub fn link_target_name(target: &str) -> (r: Option<String>)
    ensures
        r matches Some(n) ==> link_name(target@) == Some(n@),
        r is None ==> link_name(target@) is None,
{
    let mut e: usize = target.unicode_len();
    proof {
        assert(target@.subrange(0, e as int) =~= target@);
    }
    while e > 0 && (target.get_char(e - 1) == '/' || (target.get_char(e - 1) == '.' && (e == 1
        || target.get_char(e - 2) == '/')))
        invariant
            e <= target@.len(),
            strip_trailing(target@) == strip_trailing(target@.subrange(0, e as int)),
        decreases e,
    {
        proof {
            let s = target@.subrange(0, e as int);
            assert(ends_in_filler(s));
            assert(s.drop_last() =~= target@.subrange(0, e - 1));
        }
        e = e - 1;
    }
    let path = target.substring_char(0, e);
    proof {
        assert(!ends_in_filler(path@));
        assert(strip_trailing(target@) == path@);
    }
    let len = e;
    let mut j: usize = len;
    while j > 0 && path.get_char(j - 1) != '/'
        invariant
            len == path@.len(),
            j <= len,
            forall|k: int| j <= k < len ==> path@[k] != '/',
        decreases j,
    {
        j = j - 1;
    }
    proof {
        lemma_final_component(path@, j as int);
    }
    let n = path.substring_char(j, len);
    if n.unicode_len() == 0 {
        return None;
    }
    if n.get_char(0) == '.' {
        if n.unicode_len() == 1 {
            proof {
                assert(n@ =~= seq!['.']);
            }
            return None;
        }
        if n.unicode_len() == 2 && n.get_char(1) == '.' {
            proof {
                assert(n@ =~= seq!['.', '.']);
            }
            return None;
        }
    }
    proof {
        assert(n@ != seq!['.']) by {
            if n@ == seq!['.'] {
                assert(n@[0] == '.' && n@.len() == 1);
            }
        }
        assert(n@ != seq!['.', '.']) by {
            if n@ == seq!['.', '.'] {
                assert(n@[0] == '.' && n@[1] == '.' && n@.len() == 2);
            }
        }
    }
    Some(n.to_owned())
}

/// The entity names that link targets point at, in order.
pub fn resolve_link_targets(targets: &Vec<String>) -> (r: Result<Vec<String>, LoadError>)
    ensures
        match r {
            Ok(v) => resolve_links(targets.deep_view()) == Ok::<Seq<Seq<char>>, LoadError>(v.deep_view()),
            Err(e) => resolve_links(targets.deep_view()) == Err::<Seq<Seq<char>>, LoadError>(e),
        },
{
    let ghost f = |t: Seq<char>| resolve_link(t);
    let ghost s = targets.deep_view();
    let mut out: Vec<String> = Vec::new();
    let mut i: usize = 0;
    proof {
        assert(s.take(0) =~= seq![]);
        assert(out.deep_view() =~= seq![]);
    }
    while i < targets.len()
        invariant
            s == targets.deep_view(),
            f == (|t: Seq<char>| resolve_link(t)),
            i <= targets@.len(),
            load_all(s.take(i as int), f) == Ok::<Seq<Seq<char>>, LoadError>(out.deep_view()),
        decreases targets@.len() - i,
    {
        proof {
            lemma_load_all_step(s, f, i as int);
        }
        match link_target_name(targets[i].as_str()) {
            Some(n) => {
                let ghost before = out.deep_view();
                out.push(n);
                proof {
                    assert(out.deep_view() =~= before.push(n@));
                }
            },
            None => {
                proof {
                    lemma_load_all_prefix_err(s, f, i + 1);
                }
                return Err(LoadError::InvalidLinkTarget);
            },
        }
        i = i + 1;
    }
    proof {
        assert(s.take(i as int) =~= s);
    }
    Ok(out)
}

impl CrtcConfig {
    /// The CRTC a `crtcs/<name>` entry describes.
    pub fn from_fs(entry: &CrtcEntry) -> (r: CrtcConfig)
        ensures
            r@ == load_crtc(entry@),
    {
        CrtcConfig {
            name: entry.name.clone(),
            is_writeback_enabled: flag_from_attr(entry.writeback.as_str()),
        }
    }
}

impl PlaneConfig {
    /// The plane a `planes/<name>` entry describes.
    pub fn from_fs(entry: &PlaneEntry) -> (r: Result<PlaneConfig, LoadError>)
        ensures
            match r {
                Ok(p) => load_plane(entry@) == Ok::<PlaneView, LoadError>(p@),
                Err(e) => load_plane(entry@) == Err::<PlaneView, LoadError>(e),
            },
    {
        let kind = match PlaneKind::from_attr(entry.kind.as_str()) {
            Some(k) => k,
            None => return Err(LoadError::InvalidPlaneType),
        };
        let possible_crtcs = resolve_link_targets(&entry.crtc_links)?;
        Ok(PlaneConfig { name: entry.name.clone(), kind, possible_crtcs })
    }
}

impl EncoderConfig {
    /// The encoder an `encoders/<name>` entry describes.
    pub fn from_fs(entry: &EncoderEntry) -> (r: Result<EncoderConfig, LoadError>)
        ensures
            match r {
                Ok(p) => load_encoder(entry@) == Ok::<EncoderView, LoadError>(p@),
                Err(e) => load_encoder(entry@) == Err::<EncoderView, LoadError>(e),
            },
    {
        let possible_crtcs = resolve_link_targets(&entry.crtc_links)?;
        Ok(EncoderConfig { name: entry.name.clone(), possible_crtcs })
    }
}

impl ConnectorConfig {
    /// The connector a `connectors/<name>` entry describes.
    pub fn from_fs(entry: &ConnectorEntry) -> (r: Result<ConnectorConfig, LoadError>)
        ensures
            match r {
                Ok(p) => load_connector(entry@) == Ok::<ConnectorView, LoadError>(p@),
                Err(e) => load_connector(entry@) == Err::<ConnectorView, LoadError>(e),
            },
    {
        let status = match ConnectorStatus::from_attr(entry.status.as_str()) {
            Some(s) => s,
            None => return Err(LoadError::InvalidConnectorStatus),
        };
        let possible_encoders = resolve_link_targets(&entry.encoder_links)?;
        Ok(ConnectorConfig { name: entry.name.clone(), status, possible_encoders })
    }
}

fn load_planes(entries: &Vec<PlaneEntry>) -> (r: Result<Vec<PlaneConfig>, LoadError>)
    ensures
        match r {
            Ok(v) => load_all(entries@.map_values(|e: PlaneEntry| e@), |e: PlaneEntryView| load_plane(e))
                == Ok::<Seq<PlaneView>, LoadError>(v@.map_values(|p: PlaneConfig| p@)),
            Err(e) => load_all(entries@.map_values(|e: PlaneEntry| e@), |e: PlaneEntryView| load_plane(e))
                == Err::<Seq<PlaneView>, LoadError>(e),
        },
{
    let ghost f = |e: PlaneEntryView| load_plane(e);
    let ghost s = entries@.map_values(|e: PlaneEntry| e@);
    let mut out: Vec<PlaneConfig> = Vec::new();
    let mut i: usize = 0;
    proof {
        assert(s.take(0) =~= seq![]);
        assert(out@.map_values(|p: PlaneConfig| p@) =~= seq![]);
    }
    while i < entries.len()
        invariant
            s == entries@.map_values(|e: PlaneEntry| e@),
            f == (|e: PlaneEntryView| load_plane(e)),
            i <= entries@.len(),
            load_all(s.take(i as int), f) == Ok::<Seq<PlaneView>, LoadError>(out@.map_values(|p: PlaneConfig| p@)),
        decreases entries@.len() - i,
    {
        proof {
            lemma_load_all_step(s, f, i as int);
        }
        match PlaneConfig::from_fs(&entries[i]) {
            Ok(p) => {
                let ghost before = out@.map_values(|p: PlaneConfig| p@);
                out.push(p);
                proof {
                    assert(out@.map_values(|p: PlaneConfig| p@) =~= before.push(p@));
                }
            },
            Err(e) => {
                proof {
                    lemma_load_all_prefix_err(s, f, i + 1);
                }
                return Err(e);
            },
        }
        i = i + 1;
    }
    proof {
        assert(s.take(i as int) =~= s);
    }
    Ok(out)
}

fn load_encoders(entries: &Vec<EncoderEntry>) -> (r: Result<Vec<EncoderConfig>, LoadError>)
    ensures
        match r {
            Ok(v) => load_all(entries@.map_values(|e: EncoderEntry| e@), |e: EncoderEntryView| load_encoder(e))
                == Ok::<Seq<EncoderView>, LoadError>(v@.map_values(|p: EncoderConfig| p@)),
            Err(e) => load_all(entries@.map_values(|e: EncoderEntry| e@), |e: EncoderEntryView| load_encoder(e))
                == Err::<Seq<EncoderView>, LoadError>(e),
        },
{
    let ghost f = |e: EncoderEntryView| load_encoder(e);
    let ghost s = entries@.map_values(|e: EncoderEntry| e@);
    let mut out: Vec<EncoderConfig> = Vec::new();
    let mut i: usize = 0;
    proof {
        assert(s.take(0) =~= seq![]);
        assert(out@.map_values(|p: EncoderConfig| p@) =~= seq![]);
    }
    while i < entries.len()
        invariant
            s == entries@.map_values(|e: EncoderEntry| e@),
            f == (|e: EncoderEntryView| load_encoder(e)),
            i <= entries@.len(),
            load_all(s.take(i as int), f) == Ok::<Seq<EncoderView>, LoadError>(out@.map_values(|p: EncoderConfig| p@)),
        decreases entries@.len() - i,
    {
        proof {
            lemma_load_all_step(s, f, i as int);
        }
        match EncoderConfig::from_fs(&entries[i]) {
            Ok(p) => {
                let ghost before = out@.map_values(|p: EncoderConfig| p@);
                out.push(p);
                proof {
                    assert(out@.map_values(|p: EncoderConfig| p@) =~= before.push(p@));
                }
            },
            Err(e) => {
                proof {
                    lemma_load_all_prefix_err(s, f, i + 1);
                }
                return Err(e);
            },
        }
        i = i + 1;
    }
    proof {
        assert(s.take(i as int) =~= s);
    }
    Ok(out)
}

fn load_connectors(entries: &Vec<ConnectorEntry>) -> (r: Result<Vec<ConnectorConfig>, LoadError>)
    ensures
        match r {
            Ok(v) => load_all(entries@.map_values(|e: ConnectorEntry| e@), |e: ConnectorEntryView| load_connector(e))
                == Ok::<Seq<ConnectorView>, LoadError>(v@.map_values(|p: ConnectorConfig| p@)),
            Err(e) => load_all(entries@.map_values(|e: ConnectorEntry| e@), |e: ConnectorEntryView| load_connector(e))
                == Err::<Seq<ConnectorView>, LoadError>(e),
        },
{
    let ghost f = |e: ConnectorEntryView| load_connector(e);
    let ghost s = entries@.map_values(|e: ConnectorEntry| e@);
    let mut out: Vec<ConnectorConfig> = Vec::new();
    let mut i: usize = 0;
    proof {
        assert(s.take(0) =~= seq![]);
        assert(out@.map_values(|p: ConnectorConfig| p@) =~= seq![]);
    }
    while i < entries.len()
        invariant
            s == entries@.map_values(|e: ConnectorEntry| e@),
            f == (|e: ConnectorEntryView| load_connector(e)),
            i <= entries@.len(),
            load_all(s.take(i as int), f) == Ok::<Seq<ConnectorView>, LoadError>(out@.map_values(|p: ConnectorConfig| p@)),
        decreases entries@.len() - i,
    {
        proof {
            lemma_load_all_step(s, f, i as int);
        }
        match ConnectorConfig::from_fs(&entries[i]) {
            Ok(p) => {
                let ghost before = out@.map_values(|p: ConnectorConfig| p@);
                out.push(p);
                proof {
                    assert(out@.map_values(|p: ConnectorConfig| p@) =~= before.push(p@));
                }
            },
            Err(e) => {
                proof {
                    lemma_load_all_prefix_err(s, f, i + 1);
                }
                return Err(e);
            },
        }
        i = i + 1;
    }
    proof {
        assert(s.take(i as int) =~= s);
    }
    Ok(out)
}

fn load_crtcs(entries: &Vec<CrtcEntry>) -> (r: Vec<CrtcConfig>)
    ensures
        r@.map_values(|c: CrtcConfig| c@) == entries@.map_values(|e: CrtcEntry| e@).map_values(
            |e: CrtcEntryView| load_crtc(e),
        ),
{
    let mut out: Vec<CrtcConfig> = Vec::new();
    let mut i: usize = 0;
    while i < entries.len()
        invariant
            i <= entries@.len(),
            out@.len() == i,
            forall|k: int| 0 <= k < i ==> (#[trigger] out@[k])@ == load_crtc(entries@[k]@),
        decreases entries@.len() - i,
    {
        out.push(CrtcConfig::from_fs(&entries[i]));
        i = i + 1;
    }
    proof {
        assert(out@.map_values(|c: CrtcConfig| c@) =~= entries@.map_values(|e: CrtcEntry| e@).map_values(
            |e: CrtcEntryView| load_crtc(e),
        ));
    }
    out
}

impl VkmsDeviceBuilder {
    /// The device a tree under `<configfs_path>/vkms` describes. Every entity
    /// is read before names and references are checked, so the order in
    /// which directories come does not matter.
    pub fn from_fs(configfs_path: &str, tree: &DeviceTree) -> (r: Result<VkmsDeviceBuilder, LoadError>)
        ensures
            match r {
                Ok(d) => load_device(configfs_path@, tree@) == Ok::<DeviceView, LoadError>(d@),
                Err(e) => load_device(configfs_path@, tree@) == Err::<DeviceView, LoadError>(e),
            },
            r matches Ok(d) ==> names_unique(d@) && crtc_refs_resolve(d@) && encoder_refs_resolve(d@),
    {
        let enabled = flag_from_attr(tree.enabled.as_str());
        let planes = load_planes(&tree.planes)?;
        let crtcs = load_crtcs(&tree.crtcs);
        let encoders = load_encoders(&tree.encoders)?;
        let connectors = load_connectors(&tree.connectors)?;
        let device = VkmsDeviceBuilder {
            configfs_path: configfs_path.to_owned(),
            name: tree.name.clone(),
            enabled,
            planes,
            crtcs,
            encoders,
            connectors,
        };
        if !names_are_unique(&device) {
            return Err(LoadError::DuplicateName);
        }
        if !refs_resolve(&device) {
            return Err(LoadError::DanglingReference);
        }
        Ok(device)
    }
}

pub open spec fn load_devices(configfs_path: Seq<char>, trees: Seq<TreeView>) -> Result<
    Seq<DeviceView>,
    LoadError,
> {
    load_all(trees, |t: TreeView| load_device(configfs_path, t))
}

/// The devices that the trees under `<configfs_path>/vkms` describe, in the
/// order given, or the first error.
pub fn list_vkms_devices(configfs_path: &str, trees: &Vec<DeviceTree>) -> (r: Result<
    Vec<VkmsDeviceBuilder>,
    LoadError,
>)
    ensures
        match r {
            Ok(v) => load_devices(configfs_path@, trees@.map_values(|t: DeviceTree| t@)) == Ok::<
                Seq<DeviceView>,
                LoadError,
            >(v@.map_values(|d: VkmsDeviceBuilder| d@)),
            Err(e) => load_devices(configfs_path@, trees@.map_values(|t: DeviceTree| t@)) == Err::<
                Seq<DeviceView>,
                LoadError,
            >(e),
        },
        r matches Ok(v) ==> forall|i: int|
            0 <= i < v@.len() ==> names_unique((#[trigger] v@[i])@) && crtc_refs_resolve(v@[i]@)
                && encoder_refs_resolve(v@[i]@),
{
    let ghost f = |t: TreeView| load_device(configfs_path@, t);
    let ghost s = trees@.map_values(|t: DeviceTree| t@);
    let mut out: Vec<VkmsDeviceBuilder> = Vec::new();
    let mut i: usize = 0;
    proof {
        assert(s.take(0) =~= seq![]);
        assert(out@.map_values(|d: VkmsDeviceBuilder| d@) =~= seq![]);
    }
    while i < trees.len()
        invariant
            s == trees@.map_values(|t: DeviceTree| t@),
            f == (|t: TreeView| load_device(configfs_path@, t)),
            i <= trees@.len(),
            load_all(s.take(i as int), f) == Ok::<Seq<DeviceView>, LoadError>(
                out@.map_values(|d: VkmsDeviceBuilder| d@),
            ),
            forall|k: int|
                0 <= k < out@.len() ==> names_unique((#[trigger] out@[k])@) && crtc_refs_resolve(out@[k]@)
                    && encoder_refs_resolve(out@[k]@),
        decreases trees@.len() - i,
    {
        proof {
            lemma_load_all_step(s, f, i as int);
        }
        match VkmsDeviceBuilder::from_fs(configfs_path, &trees[i]) {
            Ok(d) => {
                let ghost before = out@.map_values(|d: VkmsDeviceBuilder| d@);
                out.push(d);
                proof {
                    assert(out@.map_values(|d: VkmsDeviceBuilder| d@) =~= before.push(d@));
                }
            },
            Err(e) => {
                proof {
                    lemma_load_all_prefix_err(s, f, i + 1);
                }
                return Err(e);
            },
        }
        i = i + 1;
    }
    proof {
        assert(s.take(i as int) =~= s);
    }
    Ok(out)
}

/// A plane entry loads only if its `type` holds, around white space, the
/// encoding of a plane type, and then with that type; anything else is
/// `InvalidPlaneType`. With its links resolved, such an entry loads.
pub proof fn lemma_plane_type_read(e: PlaneEntryView)
    ensures
        parse_kind(trimmed(e.kind)) is None ==> load_plane(e) == Err::<PlaneView, LoadError>(
            LoadError::InvalidPlaneType,
        ),
        load_plane(e) matches Ok(p) ==> trimmed(e.kind) == kind_attr(p.kind),
        parse_kind(trimmed(e.kind)) matches Some(k) ==> resolve_links(e.crtc_links) is Ok ==> load_plane(e)
            == Ok::<PlaneView, LoadError>(
            PlaneView { name: e.name, kind: k, possible_crtcs: resolve_links(e.crtc_links)->Ok_0 },
        ),
{
    lemma_plane_kind_round_trip(PlaneKind::Overlay, e.kind);
}

/// A connector entry loads only if its `status` holds, around white space,
/// the encoding of a status, and then with that status; anything else is
/// `InvalidConnectorStatus`. With its links resolved, such an entry loads.
pub proof fn lemma_connector_status_read(e: ConnectorEntryView)
    ensures
        parse_status(trimmed(e.status)) is None ==> load_connector(e) == Err::<
            ConnectorView,
            LoadError,
        >(LoadError::InvalidConnectorStatus),
        load_connector(e) matches Ok(k) ==> trimmed(e.status) == status_attr(k.status),
        parse_status(trimmed(e.status)) matches Some(st) ==> resolve_links(e.encoder_links) is Ok
            ==> load_connector(e) == Ok::<ConnectorView, LoadError>(
            ConnectorView {
                name: e.name,
                status: st,
                possible_encoders: resolve_links(e.encoder_links)->Ok_0,
            },
        ),
{
    lemma_connector_status_round_trip(ConnectorStatus::Connected, e.status);
}

/// Listing no device at all gives no device and no error.
pub proof fn lemma_list_empty(configfs_path: Seq<char>)
    ensures
        load_devices(configfs_path, seq![]) == Ok::<Seq<DeviceView>, LoadError>(seq![]),
{
}

} // verus!

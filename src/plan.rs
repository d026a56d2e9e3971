//! Materialization: the ordered filesystem operations that write a device.
//!
//! Paths are lists of components relative to the device directory; the empty
//! list is the device directory itself. `join_path` renders them.

use crate::attr::{flag_attr, flag_to_attr, kind_attr, status_attr};
use crate::model::{
    crtc_refs_resolve, encoder_refs_resolve, has_crtc, has_encoder, ConnectorConfig, ConnectorView, CrtcConfig, CrtcView, DeviceView, EncoderConfig, EncoderView,
    PlaneConfig, PlaneView, VkmsDeviceBuilder,
};
use vstd::prelude::*;

verus! {

/// One filesystem operation of a plan.
#[derive(Debug)]
pub enum FsOp {
    /// Create the directory at `path`.
    CreateDir { path: Vec<String> },
    /// Write `contents` to the attribute file at `path`.
    WriteFile { path: Vec<String>, contents: String },
    /// Create at `link` a symbolic link to the directory at `target`.
    Symlink { target: Vec<String>, link: Vec<String> },
}

pub enum OpView {
    CreateDir(Seq<Seq<char>>),
    WriteFile(Seq<Seq<char>>, Seq<char>),
    Symlink(Seq<Seq<char>>, Seq<Seq<char>>),
}

impl View for FsOp {
    type V = OpView;

    open spec fn view(&self) -> OpView {
        match self {
            FsOp::CreateDir { path } => OpView::CreateDir(path.deep_view()),
            FsOp::WriteFile { path, contents } => OpView::WriteFile(path.deep_view(), contents@),
            FsOp::Symlink { target, link } => OpView::Symlink(target.deep_view(), link.deep_view()),
        }
    }
}

pub open spec fn views(ops: Seq<FsOp>) -> Seq<OpView> {
    ops.map_values(|o: FsOp| o@)
}

/// The path an operation creates or writes.
pub open spec fn op_path(o: OpView) -> Seq<Seq<char>> {
    match o {
        OpView::CreateDir(p) => p,
        OpView::WriteFile(p, _) => p,
        OpView::Symlink(_, l) => l,
    }
}

pub open spec fn crtcs_dir() -> Seq<char> {
    "crtcs"@
}

pub open spec fn planes_dir() -> Seq<char> {
    "planes"@
}

pub open spec fn encoders_dir() -> Seq<char> {
    "encoders"@
}

pub open spec fn connectors_dir() -> Seq<char> {
    "connectors"@
}

pub open spec fn possible_crtcs_dir() -> Seq<char> {
    "possible_crtcs"@
}

pub open spec fn possible_encoders_dir() -> Seq<char> {
    "possible_encoders"@
}

pub open spec fn writeback_file() -> Seq<char> {
    "writeback"@
}

pub open spec fn type_file() -> Seq<char> {
    "type"@
}

pub open spec fn status_file() -> Seq<char> {
    "status"@
}

pub open spec fn enabled_file() -> Seq<char> {
    "enabled"@
}

/// `f` applied to each element of `s`, the results concatenated in order.
pub open spec fn concat_map<A>(s: Seq<A>, f: spec_fn(A) -> Seq<OpView>) -> Seq<OpView>
    decreases s.len(),
{
    if s.len() == 0 {
        seq![]
    } else {
        concat_map(s.drop_last(), f) + f(s.last())
    }
}

/// Links `<owner_dir>/<owner>/<links_dir>/<x>` to `<target_dir>/<x>`, one per name.
pub open spec fn link_ops(
    target_dir: Seq<char>,
    owner_dir: Seq<char>,
    owner: Seq<char>,
    links_dir: Seq<char>,
    names: Seq<Seq<char>>,
) -> Seq<OpView> {
    concat_map(
        names,
        |x: Seq<char>| seq![OpView::Symlink(seq![target_dir, x], seq![owner_dir, owner, links_dir, x])],
    )
}

pub open spec fn crtc_ops(c: CrtcView) -> Seq<OpView> {
    seq![
        OpView::CreateDir(seq![crtcs_dir(), c.name]),
        OpView::WriteFile(seq![crtcs_dir(), c.name, writeback_file()], flag_attr(c.writeback)),
    ]
}

pub open spec fn plane_ops(p: PlaneView) -> Seq<OpView> {
    seq![
        OpView::CreateDir(seq![planes_dir(), p.name]),
        OpView::WriteFile(seq![planes_dir(), p.name, type_file()], kind_attr(p.kind)),
    ] + link_ops(crtcs_dir(), planes_dir(), p.name, possible_crtcs_dir(), p.possible_crtcs)
}

pub open spec fn encoder_ops(e: EncoderView) -> Seq<OpView> {
    seq![OpView::CreateDir(seq![encoders_dir(), e.name])] + link_ops(
        crtcs_dir(),
        encoders_dir(),
        e.name,
        possible_crtcs_dir(),
        e.possible_crtcs,
    )
}

pub open spec fn connector_ops(k: ConnectorView) -> Seq<OpView> {
    seq![
        OpView::CreateDir(seq![connectors_dir(), k.name]),
        OpView::WriteFile(seq![connectors_dir(), k.name, status_file()], status_attr(k.status)),
    ] + link_ops(
        encoders_dir(),
        connectors_dir(),
        k.name,
        possible_encoders_dir(),
        k.possible_encoders,
    )
}

/// The whole plan: the device directory, then CRTCs, planes, encoders and
/// connectors with their attributes and links, and `enabled` last.
pub open spec fn device_plan(d: DeviceView) -> Seq<OpView> {
    seq![OpView::CreateDir(seq![])] + concat_map(d.crtcs, |c: CrtcView| crtc_ops(c)) + concat_map(
        d.planes,
        |p: PlaneView| plane_ops(p),
    ) + concat_map(d.encoders, |e: EncoderView| encoder_ops(e)) + concat_map(
        d.connectors,
        |k: ConnectorView| connector_ops(k),
    ) + seq![OpView::WriteFile(seq![enabled_file()], flag_attr(d.enabled))]
}

/// `base` followed by `/<c>` for each component `c`.
pub open spec fn joined(base: Seq<char>, comps: Seq<Seq<char>>) -> Seq<char>
    decreases comps.len(),
{
    if comps.len() == 0 {
        base
    } else {
        joined(base, comps.drop_last()) + seq!['/'] + comps.last()
    }
}

/// Renders a path of a plan under `base`.
pub fn join_path(base: &str, comps: &Vec<String>) -> (r: String)
    ensures
        r@ == joined(base@, comps.deep_view()),
{
    let mut r = base.to_owned();
    let mut i: usize = 0;
    proof {
        reveal_strlit("/");
        assert(comps.deep_view().take(0) =~= seq![]);
    }
    while i < comps.len()
        invariant
            i <= comps@.len(),
            r@ == joined(base@, comps.deep_view().take(i as int)),
            "/"@ == seq!['/'],
        decreases comps@.len() - i,
    {
        r.append("/");
        r.append(comps[i].as_str());
        proof {
            let t = comps.deep_view().take(i + 1);
            assert(t.drop_last() =~= comps.deep_view().take(i as int));
        }
        i = i + 1;
    }
    proof {
        assert(comps.deep_view().take(comps@.len() as int) =~= comps.deep_view());
    }
    r
}

pub proof fn lemma_concat_map_step<A>(s: Seq<A>, f: spec_fn(A) -> Seq<OpView>, i: int)
    requires
        0 <= i < s.len(),
    ensures
        concat_map(s.take(i + 1), f) == concat_map(s.take(i), f) + f(s[i]),
{
    assert(s.take(i + 1).drop_last() =~= s.take(i));
}

/// An operation is in `concat_map(s, f)` exactly when it is in some `f(s[i])`.
pub proof fn lemma_concat_map_contains<A>(s: Seq<A>, f: spec_fn(A) -> Seq<OpView>, o: OpView)
    ensures
        concat_map(s, f).contains(o) <==> exists|i: int| 0 <= i < s.len() && (#[trigger] f(s[i])).contains(o),
    decreases s.len(),
{
    if s.len() > 0 {
        let init = s.drop_last();
        lemma_concat_map_contains(init, f, o);
        let a = concat_map(init, f);
        let b = f(s.last());
        if (a + b).contains(o) {
            let k = choose|k: int| 0 <= k < (a + b).len() && (a + b)[k] == o;
            if k < a.len() {
                assert(a[k] == o);
                let i = choose|i: int| 0 <= i < init.len() && (#[trigger] f(init[i])).contains(o);
                assert(s[i] == init[i]);
            } else {
                assert(b[k - a.len()] == o);
                assert(s[s.len() - 1] == s.last());
            }
        }
        if exists|i: int| 0 <= i < s.len() && (#[trigger] f(s[i])).contains(o) {
            let i = choose|i: int| 0 <= i < s.len() && (#[trigger] f(s[i])).contains(o);
            if i < s.len() - 1 {
                assert(init[i] == s[i]);
                assert(a.contains(o));
                let k = choose|k: int| 0 <= k < a.len() && a[k] == o;
                assert((a + b)[k] == o);
            } else {
                assert(s[i] == s.last());
                let k = choose|k: int| 0 <= k < b.len() && b[k] == o;
                assert((a + b)[a.len() + k] == o);
            }
        }
    }
}

fn push_op(ops: &mut Vec<FsOp>, op: FsOp)
    ensures
        views(final(ops)@) == views(old(ops)@).push(op@),
{
    ops.push(op);
    proof {
        assert(views(final(ops)@) =~= views(old(ops)@).push(op@));
    }
}

fn owned(s: &str) -> (r: String)
    ensures
        r@ == s@,
{
    s.to_owned()
}

fn path2(a: &str, b: &String) -> (r: Vec<String>)
    ensures
        r.deep_view() == seq![a@, b@],
{
    let r = vec![owned(a), b.clone()];
    proof {
        assert(r.deep_view() =~= seq![a@, b@]);
    }
    r
}

fn path3(a: &str, b: &String, c: &str) -> (r: Vec<String>)
    ensures
        r.deep_view() == seq![a@, b@, c@],
{
    let r = vec![owned(a), b.clone(), owned(c)];
    proof {
        assert(r.deep_view() =~= seq![a@, b@, c@]);
    }
    r
}

fn path4(a: &str, b: &String, c: &str, d: &String) -> (r: Vec<String>)
    ensures
        r.deep_view() == seq![a@, b@, c@, d@],
{
    let r = vec![owned(a), b.clone(), owned(c), d.clone()];
    proof {
        assert(r.deep_view() =~= seq![a@, b@, c@, d@]);
    }
    r
}

/// Appends the links of `owner` to each target named in `names`.
fn push_links(
    ops: &mut Vec<FsOp>,
    target_dir: &str,
    owner_dir: &str,
    owner: &String,
    links_dir: &str,
    names: &Vec<String>,
)
    ensures
        views(final(ops)@) == views(old(ops)@) + link_ops(
            target_dir@,
            owner_dir@,
            owner@,
            links_dir@,
            names.deep_view(),
        ),
{
    let ghost f = |x: Seq<char>|
        seq![OpView::Symlink(seq![target_dir@, x], seq![owner_dir@, owner@, links_dir@, x])];
    let ghost start = views(ops@);
    let mut i: usize = 0;
    proof {
        assert(names.deep_view().take(0) =~= seq![]);
        assert(start + seq![] =~= start);
    }
    while i < names.len()
        invariant
            i <= names@.len(),
            views(ops@) == start + concat_map(names.deep_view().take(i as int), f),
            f == (|x: Seq<char>|
                seq![OpView::Symlink(seq![target_dir@, x], seq![owner_dir@, owner@, links_dir@, x])]),
        decreases names@.len() - i,
    {
        let name = &names[i];
        let op = FsOp::Symlink {
            target: path2(target_dir, name),
            link: path4(owner_dir, owner, links_dir, name),
        };
        push_op(ops, op);
        proof {
            lemma_concat_map_step(names.deep_view(), f, i as int);
            assert(views(ops@) =~= start + concat_map(names.deep_view().take(i + 1), f));
        }
        i = i + 1;
    }
    proof {
        assert(names.deep_view().take(names@.len() as int) =~= names.deep_view());
    }
}

fn push_crtc(ops: &mut Vec<FsOp>, crtc: &CrtcConfig)
    ensures
        views(final(ops)@) == views(old(ops)@) + crtc_ops(crtc@),
{
    push_op(ops, FsOp::CreateDir { path: path2("crtcs", &crtc.name) });
    push_op(
        ops,
        FsOp::WriteFile {
            path: path3("crtcs", &crtc.name, "writeback"),
            contents: flag_to_attr(crtc.is_writeback_enabled),
        },
    );
    proof {
        assert(views(ops@) =~= views(old(ops)@) + crtc_ops(crtc@));
    }
}

fn push_plane(ops: &mut Vec<FsOp>, plane: &PlaneConfig)
    ensures
        views(final(ops)@) == views(old(ops)@) + plane_ops(plane@),
{
    push_op(ops, FsOp::CreateDir { path: path2("planes", &plane.name) });
    push_op(
        ops,
        FsOp::WriteFile { path: path3("planes", &plane.name, "type"), contents: plane.kind.to_attr() },
    );
    push_links(ops, "crtcs", "planes", &plane.name, "possible_crtcs", &plane.possible_crtcs);
    proof {
        assert(views(ops@) =~= views(old(ops)@) + plane_ops(plane@));
    }
}

fn push_encoder(ops: &mut Vec<FsOp>, encoder: &EncoderConfig)
    ensures
        views(final(ops)@) == views(old(ops)@) + encoder_ops(encoder@),
{
    push_op(ops, FsOp::CreateDir { path: path2("encoders", &encoder.name) });
    push_links(ops, "crtcs", "encoders", &encoder.name, "possible_crtcs", &encoder.possible_crtcs);
    proof {
        assert(views(ops@) =~= views(old(ops)@) + encoder_ops(encoder@));
    }
}

fn push_connector(ops: &mut Vec<FsOp>, connector: &ConnectorConfig)
    ensures
        views(final(ops)@) == views(old(ops)@) + connector_ops(connector@),
{
    push_op(ops, FsOp::CreateDir { path: path2("connectors", &connector.name) });
    push_op(
        ops,
        FsOp::WriteFile {
            path: path3("connectors", &connector.name, "status"),
            contents: connector.status.to_attr(),
        },
    );
    push_links(
        ops,
        "encoders",
        "connectors",
        &connector.name,
        "possible_encoders",
        &connector.possible_encoders,
    );
    proof {
        assert(views(ops@) =~= views(old(ops)@) + connector_ops(connector@));
    }
}

impl VkmsDeviceBuilder {
    /// The operations that write this device under `<configfs>/vkms`, in the
    /// order they must run: every directory exists before a link targets it,
    /// and `enabled` is written last. Running them is the caller's task; the
    /// first failure should stop the run.
    pub fn build(&self) -> (r: Vec<FsOp>)
        ensures
            views(r@) == device_plan(self@),
    {
        let ghost d = self@;
        let mut ops: Vec<FsOp> = Vec::new();
        let root: Vec<String> = Vec::new();
        proof {
            assert(root.deep_view() =~= seq![]);
        }
        push_op(&mut ops, FsOp::CreateDir { path: root });
        let ghost start = views(ops@);
        assert(start == seq![OpView::CreateDir(seq![])]) by {
            assert(views(ops@) =~= seq![OpView::CreateDir(seq![])]);
        }
        let ghost fc = |c: CrtcView| crtc_ops(c);
        let mut i: usize = 0;
        proof {
            assert(d.crtcs.take(0) =~= seq![]);
            assert(start + seq![] =~= start);
        }
        while i < self.crtcs.len()
            invariant
                d == self@,
                i <= self.crtcs@.len(),
                fc == (|c: CrtcView| crtc_ops(c)),
                views(ops@) == start + concat_map(d.crtcs.take(i as int), fc),
            decreases self.crtcs@.len() - i,
        {
            push_crtc(&mut ops, &self.crtcs[i]);
            proof {
                lemma_concat_map_step(d.crtcs, fc, i as int);
                assert(views(ops@) =~= start + concat_map(d.crtcs.take(i + 1), fc));
            }
            i = i + 1;
        }
        proof {
            assert(d.crtcs.take(i as int) =~= d.crtcs);
        }
        let ghost start = views(ops@);
        let ghost fp = |p: PlaneView| plane_ops(p);
        let mut i: usize = 0;
        proof {
            assert(d.planes.take(0) =~= seq![]);
            assert(start + seq![] =~= start);
        }
        while i < self.planes.len()
            invariant
                d == self@,
                i <= self.planes@.len(),
                fp == (|p: PlaneView| plane_ops(p)),
                views(ops@) == start + concat_map(d.planes.take(i as int), fp),
            decreases self.planes@.len() - i,
        {
            push_plane(&mut ops, &self.planes[i]);
            proof {
                lemma_concat_map_step(d.planes, fp, i as int);
                assert(views(ops@) =~= start + concat_map(d.planes.take(i + 1), fp));
            }
            i = i + 1;
        }
        proof {
            assert(d.planes.take(i as int) =~= d.planes);
        }
        let ghost start = views(ops@);
        let ghost fe = |e: EncoderView| encoder_ops(e);
        let mut i: usize = 0;
        proof {
            assert(d.encoders.take(0) =~= seq![]);
            assert(start + seq![] =~= start);
        }
        while i < self.encoders.len()
            invariant
                d == self@,
                i <= self.encoders@.len(),
                fe == (|e: EncoderView| encoder_ops(e)),
                views(ops@) == start + concat_map(d.encoders.take(i as int), fe),
            decreases self.encoders@.len() - i,
        {
            push_encoder(&mut ops, &self.encoders[i]);
            proof {
                lemma_concat_map_step(d.encoders, fe, i as int);
                assert(views(ops@) =~= start + concat_map(d.encoders.take(i + 1), fe));
            }
            i = i + 1;
        }
        proof {
            assert(d.encoders.take(i as int) =~= d.encoders);
        }
        let ghost start = views(ops@);
        let ghost fk = |k: ConnectorView| connector_ops(k);
        let mut i: usize = 0;
        proof {
            assert(d.connectors.take(0) =~= seq![]);
            assert(start + seq![] =~= start);
        }
        while i < self.connectors.len()
            invariant
                d == self@,
                i <= self.connectors@.len(),
                fk == (|k: ConnectorView| connector_ops(k)),
                views(ops@) == start + concat_map(d.connectors.take(i as int), fk),
            decreases self.connectors@.len() - i,
        {
            push_connector(&mut ops, &self.connectors[i]);
            proof {
                lemma_concat_map_step(d.connectors, fk, i as int);
                assert(views(ops@) =~= start + concat_map(d.connectors.take(i + 1), fk));
            }
            i = i + 1;
        }
        proof {
            assert(d.connectors.take(i as int) =~= d.connectors);
        }
        let enabled_path = vec![owned("enabled")];
        proof {
            assert(enabled_path.deep_view() =~= seq![enabled_file()]);
        }
        push_op(&mut ops, FsOp::WriteFile { path: enabled_path, contents: flag_to_attr(self.enabled) });
        proof {
            assert(views(ops@) =~= device_plan(d));
        }
        ops
    }
}

/// The operation touches the given top-level directory, at least one level
/// below it.
pub open spec fn in_category(o: OpView, cat: Seq<char>) -> bool {
    op_path(o).len() >= 2 && op_path(o)[0] == cat
}

pub proof fn lemma_link_ops_shape(
    td: Seq<char>,
    od: Seq<char>,
    owner: Seq<char>,
    ld: Seq<char>,
    names: Seq<Seq<char>>,
    o: OpView,
)
    ensures
        link_ops(td, od, owner, ld, names).contains(o) <==> exists|k: int|
            0 <= k < names.len() && o == OpView::Symlink(
                seq![td, #[trigger] names[k]],
                seq![od, owner, ld, names[k]],
            ),
{
    let f = |x: Seq<char>| seq![OpView::Symlink(seq![td, x], seq![od, owner, ld, x])];
    lemma_concat_map_contains(names, f, o);
    if exists|k: int| 0 <= k < names.len() && o == OpView::Symlink(seq![td, #[trigger] names[k]], seq![od, owner, ld, names[k]]) {
        let k = choose|k: int| 0 <= k < names.len() && o == OpView::Symlink(seq![td, #[trigger] names[k]], seq![od, owner, ld, names[k]]);
        assert(f(names[k])[0] == o);
    }
}

pub proof fn lemma_crtc_part_category(cs: Seq<CrtcView>, o: OpView)
    requires
        concat_map(cs, |c: CrtcView| crtc_ops(c)).contains(o),
    ensures
        in_category(o, crtcs_dir()),
{
    lemma_concat_map_contains(cs, |c: CrtcView| crtc_ops(c), o);
}

pub proof fn lemma_plane_part_category(ps: Seq<PlaneView>, o: OpView)
    requires
        concat_map(ps, |p: PlaneView| plane_ops(p)).contains(o),
    ensures
        in_category(o, planes_dir()),
{
    lemma_concat_map_contains(ps, |p: PlaneView| plane_ops(p), o);
    let j = choose|j: int| 0 <= j < ps.len() && (#[trigger] plane_ops(ps[j])).contains(o);
    let p = ps[j];
    let head = seq![
        OpView::CreateDir(seq![planes_dir(), p.name]),
        OpView::WriteFile(seq![planes_dir(), p.name, type_file()], kind_attr(p.kind)),
    ];
    let links = link_ops(crtcs_dir(), planes_dir(), p.name, possible_crtcs_dir(), p.possible_crtcs);
    lemma_seq_concat_contains(head, links, o);
    lemma_link_ops_shape(crtcs_dir(), planes_dir(), p.name, possible_crtcs_dir(), p.possible_crtcs, o);
}

pub proof fn lemma_encoder_part_category(es: Seq<EncoderView>, o: OpView)
    requires
        concat_map(es, |e: EncoderView| encoder_ops(e)).contains(o),
    ensures
        in_category(o, encoders_dir()),
{
    lemma_concat_map_contains(es, |e: EncoderView| encoder_ops(e), o);
    let j = choose|j: int| 0 <= j < es.len() && (#[trigger] encoder_ops(es[j])).contains(o);
    let e = es[j];
    let head = seq![OpView::CreateDir(seq![encoders_dir(), e.name])];
    let links = link_ops(crtcs_dir(), encoders_dir(), e.name, possible_crtcs_dir(), e.possible_crtcs);
    lemma_seq_concat_contains(head, links, o);
    lemma_link_ops_shape(crtcs_dir(), encoders_dir(), e.name, possible_crtcs_dir(), e.possible_crtcs, o);
}

pub proof fn lemma_connector_part_category(ks: Seq<ConnectorView>, o: OpView)
    requires
        concat_map(ks, |k: ConnectorView| connector_ops(k)).contains(o),
    ensures
        in_category(o, connectors_dir()),
{
    lemma_concat_map_contains(ks, |k: ConnectorView| connector_ops(k), o);
    let j = choose|j: int| 0 <= j < ks.len() && (#[trigger] connector_ops(ks[j])).contains(o);
    let k = ks[j];
    let head = seq![
        OpView::CreateDir(seq![connectors_dir(), k.name]),
        OpView::WriteFile(seq![connectors_dir(), k.name, status_file()], status_attr(k.status)),
    ];
    let links = link_ops(encoders_dir(), connectors_dir(), k.name, possible_encoders_dir(), k.possible_encoders);
    lemma_seq_concat_contains(head, links, o);
    lemma_link_ops_shape(encoders_dir(), connectors_dir(), k.name, possible_encoders_dir(), k.possible_encoders, o);
}

pub proof fn lemma_seq_concat_contains<T>(a: Seq<T>, b: Seq<T>, x: T)
    ensures
        (a + b).contains(x) <==> a.contains(x) || b.contains(x),
{
    if (a + b).contains(x) {
        let k = choose|k: int| 0 <= k < (a + b).len() && (a + b)[k] == x;
        if k < a.len() {
            assert(a[k] == x);
        } else {
            assert(b[k - a.len()] == x);
        }
    }
    if a.contains(x) {
        let k = choose|k: int| 0 <= k < a.len() && a[k] == x;
        assert((a + b)[k] == x);
    }
    if b.contains(x) {
        let k = choose|k: int| 0 <= k < b.len() && b[k] == x;
        assert((a + b)[a.len() + k] == x);
    }
}

/// The parts of a plan, each in the category of its entities.
pub proof fn lemma_plan_parts(d: DeviceView, o: OpView)
    ensures
        device_plan(d).contains(o) <==> (o == OpView::CreateDir(seq![])
            || concat_map(d.crtcs, |c: CrtcView| crtc_ops(c)).contains(o)
            || concat_map(d.planes, |p: PlaneView| plane_ops(p)).contains(o)
            || concat_map(d.encoders, |e: EncoderView| encoder_ops(e)).contains(o)
            || concat_map(d.connectors, |k: ConnectorView| connector_ops(k)).contains(o)
            || o == OpView::WriteFile(seq![enabled_file()], flag_attr(d.enabled))),
{
    let s0 = seq![OpView::CreateDir(seq![])];
    let c = concat_map(d.crtcs, |c: CrtcView| crtc_ops(c));
    let p = concat_map(d.planes, |p: PlaneView| plane_ops(p));
    let e = concat_map(d.encoders, |e: EncoderView| encoder_ops(e));
    let k = concat_map(d.connectors, |k: ConnectorView| connector_ops(k));
    let s5 = seq![OpView::WriteFile(seq![enabled_file()], flag_attr(d.enabled))];
    lemma_seq_concat_contains(s0 + c + p + e + k, s5, o);
    lemma_seq_concat_contains(s0 + c + p + e, k, o);
    lemma_seq_concat_contains(s0 + c + p, e, o);
    lemma_seq_concat_contains(s0 + c, p, o);
    lemma_seq_concat_contains(s0, c, o);
    assert(s0.contains(o) <==> o == OpView::CreateDir(seq![])) by {
        if s0.contains(o) {
            let i = choose|i: int| 0 <= i < s0.len() && s0[i] == o;
        }
        if o == OpView::CreateDir(seq![]) {
            assert(s0[0] == o);
        }
    }
    assert(s5.contains(o) <==> o == OpView::WriteFile(seq![enabled_file()], flag_attr(d.enabled))) by {
        if s5.contains(o) {
            let i = choose|i: int| 0 <= i < s5.len() && s5[i] == o;
        }
        if o == OpView::WriteFile(seq![enabled_file()], flag_attr(d.enabled)) {
            assert(s5[0] == o);
        }
    }
}

/// `enabled` is written by the last operation of a plan and by no other, so
/// the whole topology exists before the device can be enabled.
pub proof fn lemma_enabled_written_last(d: DeviceView)
    ensures
        device_plan(d).len() >= 2,
        device_plan(d).last() == OpView::WriteFile(seq![enabled_file()], flag_attr(d.enabled)),
        forall|i: int|
            0 <= i < device_plan(d).len() - 1 ==> op_path(#[trigger] device_plan(d)[i]) != seq![
                enabled_file(),
            ],
{
    let plan = device_plan(d);
    let s0 = seq![OpView::CreateDir(seq![])];
    let c = concat_map(d.crtcs, |c: CrtcView| crtc_ops(c));
    let p = concat_map(d.planes, |p: PlaneView| plane_ops(p));
    let e = concat_map(d.encoders, |e: EncoderView| encoder_ops(e));
    let k = concat_map(d.connectors, |k: ConnectorView| connector_ops(k));
    let body = s0 + c + p + e + k;
    assert(plan == body + seq![OpView::WriteFile(seq![enabled_file()], flag_attr(d.enabled))]);
    assert forall|i: int| 0 <= i < plan.len() - 1 implies op_path(#[trigger] plan[i]) != seq![enabled_file()] by {
        let o = plan[i];
        assert(body[i] == o);
        assert(body.contains(o));
        lemma_seq_concat_contains(s0 + c + p + e, k, o);
        lemma_seq_concat_contains(s0 + c + p, e, o);
        lemma_seq_concat_contains(s0 + c, p, o);
        lemma_seq_concat_contains(s0, c, o);
        if c.contains(o) {
            lemma_crtc_part_category(d.crtcs, o);
        } else if p.contains(o) {
            lemma_plane_part_category(d.planes, o);
        } else if e.contains(o) {
            lemma_encoder_part_category(d.encoders, o);
        } else if k.contains(o) {
            lemma_connector_part_category(d.connectors, o);
        } else {
            let j = choose|j: int| 0 <= j < s0.len() && s0[j] == o;
        }
    }
}

proof fn lemma_crtc_part_has_no_link(cs: Seq<CrtcView>, o: OpView)
    requires
        concat_map(cs, |c: CrtcView| crtc_ops(c)).contains(o),
    ensures
        !(o is Symlink),
{
    lemma_concat_map_contains(cs, |c: CrtcView| crtc_ops(c), o);
}

proof fn lemma_plane_part_link(ps: Seq<PlaneView>, o: OpView)
    requires
        concat_map(ps, |p: PlaneView| plane_ops(p)).contains(o),
        o is Symlink,
    ensures
        exists|j: int, x: Seq<char>|
            0 <= j < ps.len() && #[trigger] ps[j].possible_crtcs.contains(x) && o->Symlink_0 == seq![crtcs_dir(), x],
{
    lemma_concat_map_contains(ps, |p: PlaneView| plane_ops(p), o);
    let j = choose|j: int| 0 <= j < ps.len() && (#[trigger] plane_ops(ps[j])).contains(o);
    let p = ps[j];
    let head = seq![
        OpView::CreateDir(seq![planes_dir(), p.name]),
        OpView::WriteFile(seq![planes_dir(), p.name, type_file()], kind_attr(p.kind)),
    ];
    lemma_seq_concat_contains(head, link_ops(crtcs_dir(), planes_dir(), p.name, possible_crtcs_dir(), p.possible_crtcs), o);
    lemma_link_ops_shape(crtcs_dir(), planes_dir(), p.name, possible_crtcs_dir(), p.possible_crtcs, o);
    let k = choose|k: int| 0 <= k < p.possible_crtcs.len() && o == OpView::Symlink(
        seq![crtcs_dir(), #[trigger] p.possible_crtcs[k]],
        seq![planes_dir(), p.name, possible_crtcs_dir(), p.possible_crtcs[k]],
    );
    assert(ps[j].possible_crtcs.contains(p.possible_crtcs[k]));
}

proof fn lemma_encoder_part_link(es: Seq<EncoderView>, o: OpView)
    requires
        concat_map(es, |e: EncoderView| encoder_ops(e)).contains(o),
        o is Symlink,
    ensures
        exists|j: int, x: Seq<char>|
            0 <= j < es.len() && #[trigger] es[j].possible_crtcs.contains(x) && o->Symlink_0 == seq![crtcs_dir(), x],
{
    lemma_concat_map_contains(es, |e: EncoderView| encoder_ops(e), o);
    let j = choose|j: int| 0 <= j < es.len() && (#[trigger] encoder_ops(es[j])).contains(o);
    let e = es[j];
    let head = seq![OpView::CreateDir(seq![encoders_dir(), e.name])];
    lemma_seq_concat_contains(head, link_ops(crtcs_dir(), encoders_dir(), e.name, possible_crtcs_dir(), e.possible_crtcs), o);
    lemma_link_ops_shape(crtcs_dir(), encoders_dir(), e.name, possible_crtcs_dir(), e.possible_crtcs, o);
    if head.contains(o) {
        let i = choose|i: int| 0 <= i < head.len() && head[i] == o;
    }
    let k = choose|k: int| 0 <= k < e.possible_crtcs.len() && o == OpView::Symlink(
        seq![crtcs_dir(), #[trigger] e.possible_crtcs[k]],
        seq![encoders_dir(), e.name, possible_crtcs_dir(), e.possible_crtcs[k]],
    );
    assert(es[j].possible_crtcs.contains(e.possible_crtcs[k]));
}

proof fn lemma_connector_part_link(ks: Seq<ConnectorView>, o: OpView)
    requires
        concat_map(ks, |k: ConnectorView| connector_ops(k)).contains(o),
        o is Symlink,
    ensures
        exists|j: int, x: Seq<char>|
            0 <= j < ks.len() && #[trigger] ks[j].possible_encoders.contains(x) && o->Symlink_0 == seq![encoders_dir(), x],
{
    lemma_concat_map_contains(ks, |k: ConnectorView| connector_ops(k), o);
    let j = choose|j: int| 0 <= j < ks.len() && (#[trigger] connector_ops(ks[j])).contains(o);
    let c = ks[j];
    let head = seq![
        OpView::CreateDir(seq![connectors_dir(), c.name]),
        OpView::WriteFile(seq![connectors_dir(), c.name, status_file()], status_attr(c.status)),
    ];
    lemma_seq_concat_contains(head, link_ops(encoders_dir(), connectors_dir(), c.name, possible_encoders_dir(), c.possible_encoders), o);
    lemma_link_ops_shape(encoders_dir(), connectors_dir(), c.name, possible_encoders_dir(), c.possible_encoders, o);
    let k = choose|k: int| 0 <= k < c.possible_encoders.len() && o == OpView::Symlink(
        seq![encoders_dir(), #[trigger] c.possible_encoders[k]],
        seq![connectors_dir(), c.name, possible_encoders_dir(), c.possible_encoders[k]],
    );
    assert(ks[j].possible_encoders.contains(c.possible_encoders[k]));
}

/// In the plan of a device whose references all resolve, the directory a
/// link targets is created by an earlier operation.
pub proof fn lemma_links_follow_targets(d: DeviceView)
    requires
        crtc_refs_resolve(d),
        encoder_refs_resolve(d),
    ensures
        forall|i: int|
            0 <= i < device_plan(d).len() && (#[trigger] device_plan(d)[i]) is Symlink ==> exists|k: int|
                0 <= k < i && device_plan(d)[k] == OpView::CreateDir(device_plan(d)[i]->Symlink_0),
{
    let plan = device_plan(d);
    let s0 = seq![OpView::CreateDir(seq![])];
    let c = concat_map(d.crtcs, |c: CrtcView| crtc_ops(c));
    let p = concat_map(d.planes, |p: PlaneView| plane_ops(p));
    let e = concat_map(d.encoders, |e: EncoderView| encoder_ops(e));
    let k = concat_map(d.connectors, |k: ConnectorView| connector_ops(k));
    let s5 = seq![OpView::WriteFile(seq![enabled_file()], flag_attr(d.enabled))];
    assert(plan == s0 + c + p + e + k + s5);
    let oc: int = 1;
    let op: int = oc + c.len();
    let oe: int = op + p.len();
    let ok: int = oe + e.len();
    assert forall|i: int| 0 <= i < plan.len() && (#[trigger] plan[i]) is Symlink implies exists|q: int|
        0 <= q < i && plan[q] == OpView::CreateDir(plan[i]->Symlink_0) by {
        let o = plan[i];
        if i < oc {
            assert(o == s0[0]);
        } else if i < op {
            assert(o == c[i - oc]);
            lemma_crtc_part_has_no_link(d.crtcs, o);
        } else if i < oe {
            assert(o == p[i - op]);
            assert(p.contains(o));
            lemma_plane_part_link(d.planes, o);
            let (j, x) = choose|j: int, x: Seq<char>|
                0 <= j < d.planes.len() && #[trigger] d.planes[j].possible_crtcs.contains(x) && o->Symlink_0 == seq![crtcs_dir(), x];
            let r = choose|r: int| 0 <= r < d.planes[j].possible_crtcs.len() && d.planes[j].possible_crtcs[r] == x;
            assert(has_crtc(d, d.planes[j].possible_crtcs[r]));
            let t = choose|t: int| 0 <= t < d.crtcs.len() && (#[trigger] d.crtcs[t]).name == x;
            let target = OpView::CreateDir(seq![crtcs_dir(), x]);
            let fc = |c: CrtcView| crtc_ops(c);
            assert(fc(d.crtcs[t])[0] == target);
            lemma_concat_map_contains(d.crtcs, fc, target);
            let q = choose|q: int| 0 <= q < c.len() && c[q] == target;
            assert(plan[oc + q] == target);
        } else if i < ok {
            assert(o == e[i - oe]);
            assert(e.contains(o));
            lemma_encoder_part_link(d.encoders, o);
            let (j, x) = choose|j: int, x: Seq<char>|
                0 <= j < d.encoders.len() && #[trigger] d.encoders[j].possible_crtcs.contains(x) && o->Symlink_0 == seq![crtcs_dir(), x];
            let r = choose|r: int| 0 <= r < d.encoders[j].possible_crtcs.len() && d.encoders[j].possible_crtcs[r] == x;
            assert(has_crtc(d, d.encoders[j].possible_crtcs[r]));
            let t = choose|t: int| 0 <= t < d.crtcs.len() && (#[trigger] d.crtcs[t]).name == x;
            let target = OpView::CreateDir(seq![crtcs_dir(), x]);
            let fc = |c: CrtcView| crtc_ops(c);
            assert(fc(d.crtcs[t])[0] == target);
            lemma_concat_map_contains(d.crtcs, fc, target);
            let q = choose|q: int| 0 <= q < c.len() && c[q] == target;
            assert(plan[oc + q] == target);
        } else if i < ok + k.len() {
            assert(o == k[i - ok]);
            assert(k.contains(o));
            lemma_connector_part_link(d.connectors, o);
            let (j, x) = choose|j: int, x: Seq<char>|
                0 <= j < d.connectors.len() && #[trigger] d.connectors[j].possible_encoders.contains(x) && o->Symlink_0 == seq![encoders_dir(), x];
            let r = choose|r: int| 0 <= r < d.connectors[j].possible_encoders.len() && d.connectors[j].possible_encoders[r] == x;
            assert(has_encoder(d, d.connectors[j].possible_encoders[r]));
            let t = choose|t: int| 0 <= t < d.encoders.len() && (#[trigger] d.encoders[t]).name == x;
            let target = OpView::CreateDir(seq![encoders_dir(), x]);
            let fe = |e: EncoderView| encoder_ops(e);
            assert(fe(d.encoders[t])[0] == target);
            lemma_concat_map_contains(d.encoders, fe, target);
            let q = choose|q: int| 0 <= q < e.len() && e[q] == target;
            assert(plan[oe + q] == target);
        } else {
            assert(o == s5[0]);
        }
    }
}

} // verus!

//! Loading what materialization wrote gives back the same device.
//!
//! `tree_reads` says what a reader finds on disk once a plan has run: the
//! directories it created, the contents of the files it wrote and the targets
//! of the links it made, each directory's entries in any order.

use crate::attr::{
    flag_attr, kind_attr, lemma_connector_status_round_trip, lemma_flag_round_trip,
    lemma_plane_kind_round_trip, parse_flag, status_attr, trimmed,
};
use crate::integrity::distinct;
use crate::load::{
    checked_device, ends_in_filler,
    lemma_final_component, load_all, load_connector, load_crtc,
    load_device, load_encoder, load_plane, resolve_link, resolve_links, ConnectorEntryView,
    CrtcEntryView, EncoderEntryView, LoadError, PlaneEntryView, TreeView,
};
use crate::model::{
    crtc_refs_resolve, encoder_refs_resolve, names_unique,
    connector_matches, device_path, encoder_matches, equivalent, has_crtc, has_encoder,
    plane_matches, valid_device, valid_name, ConnectorView, CrtcView, DeviceView, EncoderView,
    PlaneView,
};
use crate::plan::{
    concat_map, connector_ops, connectors_dir, crtc_ops, crtcs_dir, device_plan, enabled_file,
    encoder_ops, encoders_dir, in_category, joined, lemma_concat_map_contains,
    lemma_connector_part_category, lemma_crtc_part_category, lemma_encoder_part_category,
    lemma_link_ops_shape, lemma_plan_parts, lemma_plane_part_category, lemma_seq_concat_contains,
    link_ops, plane_ops, planes_dir, possible_crtcs_dir, possible_encoders_dir, status_file,
    type_file, writeback_file, OpView,
};
use vstd::prelude::*;

verus! {

proof fn lemma_dir_names_distinct()
    ensures
        crtcs_dir() != planes_dir(),
        crtcs_dir() != encoders_dir(),
        crtcs_dir() != connectors_dir(),
        planes_dir() != encoders_dir(),
        planes_dir() != connectors_dir(),
        encoders_dir() != connectors_dir(),
{
    reveal_strlit("crtcs");
    reveal_strlit("planes");
    reveal_strlit("encoders");
    reveal_strlit("connectors");
    assert(crtcs_dir().len() == 5);
    assert(planes_dir().len() == 6);
    assert(encoders_dir().len() == 8);
    assert(connectors_dir().len() == 10);
}

/// Within one category, a plan holds exactly the operations of that
/// category's part.
proof fn lemma_plan_category(d: DeviceView, o: OpView)
    ensures
        in_category(o, crtcs_dir()) ==> (device_plan(d).contains(o) <==> concat_map(
            d.crtcs,
            |c: CrtcView| crtc_ops(c),
        ).contains(o)),
        in_category(o, planes_dir()) ==> (device_plan(d).contains(o) <==> concat_map(
            d.planes,
            |p: PlaneView| plane_ops(p),
        ).contains(o)),
        in_category(o, encoders_dir()) ==> (device_plan(d).contains(o) <==> concat_map(
            d.encoders,
            |e: EncoderView| encoder_ops(e),
        ).contains(o)),
        in_category(o, connectors_dir()) ==> (device_plan(d).contains(o) <==> concat_map(
            d.connectors,
            |k: ConnectorView| connector_ops(k),
        ).contains(o)),
{
    lemma_dir_names_distinct();
    lemma_plan_parts(d, o);
    if concat_map(d.crtcs, |c: CrtcView| crtc_ops(c)).contains(o) {
        lemma_crtc_part_category(d.crtcs, o);
    }
    if concat_map(d.planes, |p: PlaneView| plane_ops(p)).contains(o) {
        lemma_plane_part_category(d.planes, o);
    }
    if concat_map(d.encoders, |e: EncoderView| encoder_ops(e)).contains(o) {
        lemma_encoder_part_category(d.encoders, o);
    }
    if concat_map(d.connectors, |k: ConnectorView| connector_ops(k)).contains(o) {
        lemma_connector_part_category(d.connectors, o);
    }
}

proof fn lemma_crtc_dir_in_plan(d: DeviceView, n: Seq<char>)
    ensures
        device_plan(d).contains(OpView::CreateDir(seq![crtcs_dir(), n])) <==> has_crtc(d, n),
{
    let o = OpView::CreateDir(seq![crtcs_dir(), n]);
    let f = |c: CrtcView| crtc_ops(c);
    lemma_plan_category(d, o);
    lemma_concat_map_contains(d.crtcs, f, o);
    if has_crtc(d, n) {
        let j = choose|j: int| 0 <= j < d.crtcs.len() && (#[trigger] d.crtcs[j]).name == n;
        assert(f(d.crtcs[j])[0] == o);
    }
}

proof fn lemma_crtc_writeback_in_plan(d: DeviceView, n: Seq<char>, w: Seq<char>)
    requires
        device_plan(d).contains(OpView::WriteFile(seq![crtcs_dir(), n, writeback_file()], w)),
    ensures
        exists|j: int|
            0 <= j < d.crtcs.len() && (#[trigger] d.crtcs[j]).name == n && w == flag_attr(
                d.crtcs[j].writeback,
            ),
{
    let o = OpView::WriteFile(seq![crtcs_dir(), n, writeback_file()], w);
    lemma_plan_category(d, o);
    lemma_concat_map_contains(d.crtcs, |c: CrtcView| crtc_ops(c), o);
}

proof fn lemma_plane_dir_in_plan(d: DeviceView, n: Seq<char>)
    ensures
        device_plan(d).contains(OpView::CreateDir(seq![planes_dir(), n])) <==> exists|j: int|
            0 <= j < d.planes.len() && (#[trigger] d.planes[j]).name == n,
{
    let o = OpView::CreateDir(seq![planes_dir(), n]);
    let f = |p: PlaneView| plane_ops(p);
    lemma_plan_category(d, o);
    lemma_concat_map_contains(d.planes, f, o);
    if device_plan(d).contains(o) {
        let j = choose|j: int| 0 <= j < d.planes.len() && (#[trigger] f(d.planes[j])).contains(o);
        let p = d.planes[j];
        let head = seq![
            OpView::CreateDir(seq![planes_dir(), p.name]),
            OpView::WriteFile(seq![planes_dir(), p.name, type_file()], kind_attr(p.kind)),
        ];
        lemma_seq_concat_contains(head, link_ops(crtcs_dir(), planes_dir(), p.name, possible_crtcs_dir(), p.possible_crtcs), o);
        lemma_link_ops_shape(crtcs_dir(), planes_dir(), p.name, possible_crtcs_dir(), p.possible_crtcs, o);
    }
    if exists|j: int| 0 <= j < d.planes.len() && (#[trigger] d.planes[j]).name == n {
        let j = choose|j: int| 0 <= j < d.planes.len() && (#[trigger] d.planes[j]).name == n;
        assert(f(d.planes[j])[0] == o);
    }
}

proof fn lemma_plane_type_in_plan(d: DeviceView, n: Seq<char>, w: Seq<char>)
    requires
        device_plan(d).contains(OpView::WriteFile(seq![planes_dir(), n, type_file()], w)),
    ensures
        exists|j: int|
            0 <= j < d.planes.len() && (#[trigger] d.planes[j]).name == n && w == kind_attr(
                d.planes[j].kind,
            ),
{
    let o = OpView::WriteFile(seq![planes_dir(), n, type_file()], w);
    let f = |p: PlaneView| plane_ops(p);
    lemma_plan_category(d, o);
    lemma_concat_map_contains(d.planes, f, o);
    let j = choose|j: int| 0 <= j < d.planes.len() && (#[trigger] f(d.planes[j])).contains(o);
    let p = d.planes[j];
    let head = seq![
        OpView::CreateDir(seq![planes_dir(), p.name]),
        OpView::WriteFile(seq![planes_dir(), p.name, type_file()], kind_attr(p.kind)),
    ];
    lemma_seq_concat_contains(head, link_ops(crtcs_dir(), planes_dir(), p.name, possible_crtcs_dir(), p.possible_crtcs), o);
    lemma_link_ops_shape(crtcs_dir(), planes_dir(), p.name, possible_crtcs_dir(), p.possible_crtcs, o);
}

proof fn lemma_plane_link_in_plan(d: DeviceView, n: Seq<char>, tgt: Seq<Seq<char>>, x: Seq<char>)
    ensures
        device_plan(d).contains(OpView::Symlink(tgt, seq![planes_dir(), n, possible_crtcs_dir(), x]))
            <==> (tgt == seq![crtcs_dir(), x] && exists|j: int|
            0 <= j < d.planes.len() && (#[trigger] d.planes[j]).name == n
                && d.planes[j].possible_crtcs.contains(x)),
{
    let o = OpView::Symlink(tgt, seq![planes_dir(), n, possible_crtcs_dir(), x]);
    let f = |p: PlaneView| plane_ops(p);
    lemma_plan_category(d, o);
    lemma_concat_map_contains(d.planes, f, o);
    if device_plan(d).contains(o) {
        let j = choose|j: int| 0 <= j < d.planes.len() && (#[trigger] f(d.planes[j])).contains(o);
        let p = d.planes[j];
        let head = seq![
            OpView::CreateDir(seq![planes_dir(), p.name]),
            OpView::WriteFile(seq![planes_dir(), p.name, type_file()], kind_attr(p.kind)),
        ];
        lemma_seq_concat_contains(head, link_ops(crtcs_dir(), planes_dir(), p.name, possible_crtcs_dir(), p.possible_crtcs), o);
        lemma_link_ops_shape(crtcs_dir(), planes_dir(), p.name, possible_crtcs_dir(), p.possible_crtcs, o);
        let k = choose|k: int| 0 <= k < p.possible_crtcs.len() && o == OpView::Symlink(
            seq![crtcs_dir(), #[trigger] p.possible_crtcs[k]],
            seq![planes_dir(), p.name, possible_crtcs_dir(), p.possible_crtcs[k]],
        );
        assert(p.possible_crtcs[k] =~= x);
    }
    if tgt == seq![crtcs_dir(), x] && exists|j: int|
        0 <= j < d.planes.len() && (#[trigger] d.planes[j]).name == n && d.planes[j].possible_crtcs.contains(x) {
        let j = choose|j: int| 0 <= j < d.planes.len() && (#[trigger] d.planes[j]).name == n && d.planes[j].possible_crtcs.contains(x);
        let p = d.planes[j];
        let head = seq![
            OpView::CreateDir(seq![planes_dir(), p.name]),
            OpView::WriteFile(seq![planes_dir(), p.name, type_file()], kind_attr(p.kind)),
        ];
        let k = choose|k: int| 0 <= k < p.possible_crtcs.len() && p.possible_crtcs[k] == x;
        lemma_link_ops_shape(crtcs_dir(), planes_dir(), p.name, possible_crtcs_dir(), p.possible_crtcs, o);
        lemma_seq_concat_contains(head, link_ops(crtcs_dir(), planes_dir(), p.name, possible_crtcs_dir(), p.possible_crtcs), o);
        assert(f(d.planes[j]).contains(o));
    }
}

proof fn lemma_encoder_dir_in_plan(d: DeviceView, n: Seq<char>)
    ensures
        device_plan(d).contains(OpView::CreateDir(seq![encoders_dir(), n])) <==> has_encoder(d, n),
{
    let o = OpView::CreateDir(seq![encoders_dir(), n]);
    let f = |e: EncoderView| encoder_ops(e);
    lemma_plan_category(d, o);
    lemma_concat_map_contains(d.encoders, f, o);
    if device_plan(d).contains(o) {
        let j = choose|j: int| 0 <= j < d.encoders.len() && (#[trigger] f(d.encoders[j])).contains(o);
        let e = d.encoders[j];
        let head = seq![OpView::CreateDir(seq![encoders_dir(), e.name])];
        lemma_seq_concat_contains(head, link_ops(crtcs_dir(), encoders_dir(), e.name, possible_crtcs_dir(), e.possible_crtcs), o);
        lemma_link_ops_shape(crtcs_dir(), encoders_dir(), e.name, possible_crtcs_dir(), e.possible_crtcs, o);
        if head.contains(o) {
            let i = choose|i: int| 0 <= i < head.len() && head[i] == o;
        }
    }
    if has_encoder(d, n) {
        let j = choose|j: int| 0 <= j < d.encoders.len() && (#[trigger] d.encoders[j]).name == n;
        assert(f(d.encoders[j])[0] == o);
    }
}

proof fn lemma_encoder_link_in_plan(d: DeviceView, n: Seq<char>, tgt: Seq<Seq<char>>, x: Seq<char>)
    ensures
        device_plan(d).contains(OpView::Symlink(tgt, seq![encoders_dir(), n, possible_crtcs_dir(), x]))
            <==> (tgt == seq![crtcs_dir(), x] && exists|j: int|
            0 <= j < d.encoders.len() && (#[trigger] d.encoders[j]).name == n
                && d.encoders[j].possible_crtcs.contains(x)),
{
    let o = OpView::Symlink(tgt, seq![encoders_dir(), n, possible_crtcs_dir(), x]);
    let f = |e: EncoderView| encoder_ops(e);
    lemma_plan_category(d, o);
    lemma_concat_map_contains(d.encoders, f, o);
    if device_plan(d).contains(o) {
        let j = choose|j: int| 0 <= j < d.encoders.len() && (#[trigger] f(d.encoders[j])).contains(o);
        let e = d.encoders[j];
        let head = seq![OpView::CreateDir(seq![encoders_dir(), e.name])];
        lemma_seq_concat_contains(head, link_ops(crtcs_dir(), encoders_dir(), e.name, possible_crtcs_dir(), e.possible_crtcs), o);
        lemma_link_ops_shape(crtcs_dir(), encoders_dir(), e.name, possible_crtcs_dir(), e.possible_crtcs, o);
        if head.contains(o) {
            let i = choose|i: int| 0 <= i < head.len() && head[i] == o;
        }
        let k = choose|k: int| 0 <= k < e.possible_crtcs.len() && o == OpView::Symlink(
            seq![crtcs_dir(), #[trigger] e.possible_crtcs[k]],
            seq![encoders_dir(), e.name, possible_crtcs_dir(), e.possible_crtcs[k]],
        );
        assert(e.possible_crtcs[k] =~= x);
    }
    if tgt == seq![crtcs_dir(), x] && exists|j: int|
        0 <= j < d.encoders.len() && (#[trigger] d.encoders[j]).name == n && d.encoders[j].possible_crtcs.contains(x) {
        let j = choose|j: int| 0 <= j < d.encoders.len() && (#[trigger] d.encoders[j]).name == n && d.encoders[j].possible_crtcs.contains(x);
        let e = d.encoders[j];
        let head = seq![OpView::CreateDir(seq![encoders_dir(), e.name])];
        let k = choose|k: int| 0 <= k < e.possible_crtcs.len() && e.possible_crtcs[k] == x;
        lemma_link_ops_shape(crtcs_dir(), encoders_dir(), e.name, possible_crtcs_dir(), e.possible_crtcs, o);
        lemma_seq_concat_contains(head, link_ops(crtcs_dir(), encoders_dir(), e.name, possible_crtcs_dir(), e.possible_crtcs), o);
        assert(f(d.encoders[j]).contains(o));
    }
}

proof fn lemma_connector_dir_in_plan(d: DeviceView, n: Seq<char>)
    ensures
        device_plan(d).contains(OpView::CreateDir(seq![connectors_dir(), n])) <==> exists|j: int|
            0 <= j < d.connectors.len() && (#[trigger] d.connectors[j]).name == n,
{
    let o = OpView::CreateDir(seq![connectors_dir(), n]);
    let f = |k: ConnectorView| connector_ops(k);
    lemma_plan_category(d, o);
    lemma_concat_map_contains(d.connectors, f, o);
    if device_plan(d).contains(o) {
        let j = choose|j: int| 0 <= j < d.connectors.len() && (#[trigger] f(d.connectors[j])).contains(o);
        let c = d.connectors[j];
        let head = seq![
            OpView::CreateDir(seq![connectors_dir(), c.name]),
            OpView::WriteFile(seq![connectors_dir(), c.name, status_file()], status_attr(c.status)),
        ];
        lemma_seq_concat_contains(head, link_ops(encoders_dir(), connectors_dir(), c.name, possible_encoders_dir(), c.possible_encoders), o);
        lemma_link_ops_shape(encoders_dir(), connectors_dir(), c.name, possible_encoders_dir(), c.possible_encoders, o);
    }
    if exists|j: int| 0 <= j < d.connectors.len() && (#[trigger] d.connectors[j]).name == n {
        let j = choose|j: int| 0 <= j < d.connectors.len() && (#[trigger] d.connectors[j]).name == n;
        assert(f(d.connectors[j])[0] == o);
    }
}

proof fn lemma_connector_status_in_plan(d: DeviceView, n: Seq<char>, w: Seq<char>)
    requires
        device_plan(d).contains(OpView::WriteFile(seq![connectors_dir(), n, status_file()], w)),
    ensures
        exists|j: int|
            0 <= j < d.connectors.len() && (#[trigger] d.connectors[j]).name == n && w == status_attr(
                d.connectors[j].status,
            ),
{
    let o = OpView::WriteFile(seq![connectors_dir(), n, status_file()], w);
    let f = |k: ConnectorView| connector_ops(k);
    lemma_plan_category(d, o);
    lemma_concat_map_contains(d.connectors, f, o);
    let j = choose|j: int| 0 <= j < d.connectors.len() && (#[trigger] f(d.connectors[j])).contains(o);
    let c = d.connectors[j];
    let head = seq![
        OpView::CreateDir(seq![connectors_dir(), c.name]),
        OpView::WriteFile(seq![connectors_dir(), c.name, status_file()], status_attr(c.status)),
    ];
    lemma_seq_concat_contains(head, link_ops(encoders_dir(), connectors_dir(), c.name, possible_encoders_dir(), c.possible_encoders), o);
    lemma_link_ops_shape(encoders_dir(), connectors_dir(), c.name, possible_encoders_dir(), c.possible_encoders, o);
}

proof fn lemma_connector_link_in_plan(d: DeviceView, n: Seq<char>, tgt: Seq<Seq<char>>, x: Seq<char>)
    ensures
        device_plan(d).contains(OpView::Symlink(tgt, seq![connectors_dir(), n, possible_encoders_dir(), x]))
            <==> (tgt == seq![encoders_dir(), x] && exists|j: int|
            0 <= j < d.connectors.len() && (#[trigger] d.connectors[j]).name == n
                && d.connectors[j].possible_encoders.contains(x)),
{
    let o = OpView::Symlink(tgt, seq![connectors_dir(), n, possible_encoders_dir(), x]);
    let f = |k: ConnectorView| connector_ops(k);
    lemma_plan_category(d, o);
    lemma_concat_map_contains(d.connectors, f, o);
    if device_plan(d).contains(o) {
        let j = choose|j: int| 0 <= j < d.connectors.len() && (#[trigger] f(d.connectors[j])).contains(o);
        let c = d.connectors[j];
        let head = seq![
            OpView::CreateDir(seq![connectors_dir(), c.name]),
            OpView::WriteFile(seq![connectors_dir(), c.name, status_file()], status_attr(c.status)),
        ];
        lemma_seq_concat_contains(head, link_ops(encoders_dir(), connectors_dir(), c.name, possible_encoders_dir(), c.possible_encoders), o);
        lemma_link_ops_shape(encoders_dir(), connectors_dir(), c.name, possible_encoders_dir(), c.possible_encoders, o);
        let k = choose|k: int| 0 <= k < c.possible_encoders.len() && o == OpView::Symlink(
            seq![encoders_dir(), #[trigger] c.possible_encoders[k]],
            seq![connectors_dir(), c.name, possible_encoders_dir(), c.possible_encoders[k]],
        );
        assert(c.possible_encoders[k] =~= x);
    }
    if tgt == seq![encoders_dir(), x] && exists|j: int|
        0 <= j < d.connectors.len() && (#[trigger] d.connectors[j]).name == n && d.connectors[j].possible_encoders.contains(x) {
        let j = choose|j: int| 0 <= j < d.connectors.len() && (#[trigger] d.connectors[j]).name == n && d.connectors[j].possible_encoders.contains(x);
        let c = d.connectors[j];
        let head = seq![
            OpView::CreateDir(seq![connectors_dir(), c.name]),
            OpView::WriteFile(seq![connectors_dir(), c.name, status_file()], status_attr(c.status)),
        ];
        let k = choose|k: int| 0 <= k < c.possible_encoders.len() && c.possible_encoders[k] == x;
        lemma_link_ops_shape(encoders_dir(), connectors_dir(), c.name, possible_encoders_dir(), c.possible_encoders, o);
        lemma_seq_concat_contains(head, link_ops(encoders_dir(), connectors_dir(), c.name, possible_encoders_dir(), c.possible_encoders), o);
        assert(f(d.connectors[j]).contains(o));
    }
}

/// A link to `<base>/<dir>/<x>` resolves to `x`.
proof fn lemma_resolve_joined(base: Seq<char>, dir: Seq<char>, x: Seq<char>)
    requires
        valid_name(x),
    ensures
        resolve_link(joined(base, seq![dir, x])) == Ok::<Seq<char>, LoadError>(x),
{
    let comps = seq![dir, x];
    assert(comps.drop_last() =~= seq![dir]);
    let a = joined(base, seq![dir]);
    let s = joined(base, comps);
    assert(s == a + seq!['/'] + x);
    let j: int = a.len() as int + 1;
    assert forall|k: int| j <= k < s.len() implies s[k] != '/' by {
        assert(s[k] == x[k - j]);
    }
    assert(!ends_in_filler(s)) by {
        assert(s.last() == x.last());
        if x.len() >= 2 {
            assert(s[s.len() - 2] == x[x.len() - 2]);
        } else {
            assert(x =~= seq![x[0]]);
        }
    }
    lemma_final_component(s, j);
    assert(s.subrange(j, s.len() as int) =~= x);
}

proof fn lemma_load_all_ok<A, B>(s: Seq<A>, f: spec_fn(A) -> Result<B, LoadError>)
    requires
        forall|i: int| 0 <= i < s.len() ==> (#[trigger] f(s[i])) is Ok,
    ensures
        load_all(s, f) == Ok::<Seq<B>, LoadError>(s.map_values(|a: A| f(a)->Ok_0)),
    decreases s.len(),
{
    if s.len() > 0 {
        let init = s.drop_last();
        assert forall|i: int| 0 <= i < init.len() implies (#[trigger] f(init[i])) is Ok by {
            assert(init[i] == s[i]);
        }
        lemma_load_all_ok(init, f);
        assert(f(s[s.len() - 1]) is Ok);
        assert(init.map_values(|a: A| f(a)->Ok_0).push(f(s.last())->Ok_0) =~= s.map_values(|a: A| f(a)->Ok_0));
    } else {
        assert(s.map_values(|a: A| f(a)->Ok_0) =~= seq![]);
    }
}

pub open spec fn dir_op(cat: Seq<char>, n: Seq<char>) -> OpView {
    OpView::CreateDir(seq![cat, n])
}

pub open spec fn link_op(
    tgt: Seq<Seq<char>>,
    cat: Seq<char>,
    owner: Seq<char>,
    links_dir: Seq<char>,
    x: Seq<char>,
) -> OpView {
    OpView::Symlink(tgt, seq![cat, owner, links_dir, x])
}

/// The directories of a category that a reader finds: those the plan created.
pub open spec fn dirs_read(plan: Seq<OpView>, cat: Seq<char>, names: Seq<Seq<char>>) -> bool {
    forall|n: Seq<char>|
        #![trigger names.contains(n)]
        #![trigger plan.contains(dir_op(cat, n))]
        names.contains(n) <==> plan.contains(dir_op(cat, n))
}

/// The link targets a reader finds in `<cat>/<owner>/<links_dir>/`: those of
/// the links the plan made there, rendered under `base`.
pub open spec fn links_read(
    plan: Seq<OpView>,
    base: Seq<char>,
    cat: Seq<char>,
    owner: Seq<char>,
    links_dir: Seq<char>,
    targets: Seq<Seq<char>>,
) -> bool {
    forall|s: Seq<char>|
        #![trigger targets.contains(s)]
        targets.contains(s) <==> exists|tgt: Seq<Seq<char>>, x: Seq<char>|
            #[trigger] plan.contains(link_op(tgt, cat, owner, links_dir, x)) && s == joined(
                base,
                tgt,
            )
}

/// The contents a reader finds in the file at `path`: what the plan wrote
/// there, up to surrounding white space (configfs ends values with a newline).
pub open spec fn attr_read(plan: Seq<OpView>, path: Seq<Seq<char>>, contents: Seq<char>) -> bool {
    exists|w: Seq<char>| #[trigger] plan.contains(OpView::WriteFile(path, w)) && trimmed(w) == trimmed(contents)
}

/// `t` is what a reader finds in the device directory `base` once `plan` has
/// run. A directory lists each of its entries once.
pub open spec fn tree_reads(base: Seq<char>, plan: Seq<OpView>, t: TreeView) -> bool {
    &&& distinct(t.crtcs.map_values(|e: CrtcEntryView| e.name))
    &&& distinct(t.planes.map_values(|e: PlaneEntryView| e.name))
    &&& distinct(t.encoders.map_values(|e: EncoderEntryView| e.name))
    &&& distinct(t.connectors.map_values(|e: ConnectorEntryView| e.name))
    &&& attr_read(plan, seq![enabled_file()], t.enabled)
    &&& dirs_read(plan, crtcs_dir(), t.crtcs.map_values(|e: CrtcEntryView| e.name))
    &&& forall|i: int|
        0 <= i < t.crtcs.len() ==> attr_read(
            plan,
            seq![crtcs_dir(), (#[trigger] t.crtcs[i]).name, writeback_file()],
            t.crtcs[i].writeback,
        )
    &&& dirs_read(plan, planes_dir(), t.planes.map_values(|e: PlaneEntryView| e.name))
    &&& forall|i: int|
        0 <= i < t.planes.len() ==> attr_read(
            plan,
            seq![planes_dir(), (#[trigger] t.planes[i]).name, type_file()],
            t.planes[i].kind,
        ) && links_read(plan, base, planes_dir(), t.planes[i].name, possible_crtcs_dir(), t.planes[i].crtc_links)
    &&& dirs_read(plan, encoders_dir(), t.encoders.map_values(|e: EncoderEntryView| e.name))
    &&& forall|i: int|
        0 <= i < t.encoders.len() ==> links_read(
            plan,
            base,
            encoders_dir(),
            (#[trigger] t.encoders[i]).name,
            possible_crtcs_dir(),
            t.encoders[i].crtc_links,
        )
    &&& dirs_read(plan, connectors_dir(), t.connectors.map_values(|e: ConnectorEntryView| e.name))
    &&& forall|i: int|
        0 <= i < t.connectors.len() ==> attr_read(
            plan,
            seq![connectors_dir(), (#[trigger] t.connectors[i]).name, status_file()],
            t.connectors[i].status,
        ) && links_read(plan, base, connectors_dir(), t.connectors[i].name, possible_encoders_dir(), t.connectors[i].encoder_links)
}

/// Links read back resolve to exactly the names they were made for.
proof fn lemma_links_round_trip(
    base: Seq<char>,
    plan: Seq<OpView>,
    cat: Seq<char>,
    owner: Seq<char>,
    ld: Seq<char>,
    td: Seq<char>,
    targets: Seq<Seq<char>>,
    refs: Seq<Seq<char>>,
)
    requires
        links_read(plan, base, cat, owner, ld, targets),
        forall|tgt: Seq<Seq<char>>, x: Seq<char>|
            #[trigger] plan.contains(link_op(tgt, cat, owner, ld, x)) <==> (tgt == seq![td, x]
                && refs.contains(x)),
        forall|x: Seq<char>| refs.contains(x) ==> valid_name(x),
    ensures
        resolve_links(targets) is Ok,
        (resolve_links(targets)->Ok_0).to_set() == refs.to_set(),
{
    let f = |t: Seq<char>| resolve_link(t);
    assert forall|k: int| 0 <= k < targets.len() implies (#[trigger] f(targets[k])) is Ok
        && refs.contains(f(targets[k])->Ok_0) by {
        let s = targets[k];
        assert(targets.contains(s));
        let (tgt, x) = choose|tgt: Seq<Seq<char>>, x: Seq<char>|
            #[trigger] plan.contains(link_op(tgt, cat, owner, ld, x)) && s == joined(base, tgt);
        lemma_resolve_joined(base, td, x);
    }
    lemma_load_all_ok(targets, f);
    let r = targets.map_values(|a: Seq<char>| f(a)->Ok_0);
    assert(resolve_links(targets) == Ok::<Seq<Seq<char>>, LoadError>(r));
    assert forall|x: Seq<char>| r.to_set().contains(x) <==> refs.to_set().contains(x) by {
        if r.to_set().contains(x) {
            assert(r.contains(x));
            let k = choose|k: int| 0 <= k < r.len() && r[k] == x;
            assert(f(targets[k]) is Ok);
        }
        if refs.to_set().contains(x) {
            assert(refs.contains(x));
            let tgt = seq![td, x];
            assert(plan.contains(link_op(tgt, cat, owner, ld, x)));
            let s = joined(base, tgt);
            assert(targets.contains(s));
            let k = choose|k: int| 0 <= k < targets.len() && targets[k] == s;
            lemma_resolve_joined(base, td, x);
            assert(r[k] == x);
            assert(r.contains(x));
        }
    }
    assert(r.to_set() =~= refs.to_set());
}

/// Every name a valid device refers to is itself valid.
proof fn lemma_refs_valid(m: DeviceView)
    requires
        valid_device(m),
    ensures
        forall|j: int, x: Seq<char>|
            0 <= j < m.planes.len() && #[trigger] m.planes[j].possible_crtcs.contains(x) ==> valid_name(x),
        forall|j: int, x: Seq<char>|
            0 <= j < m.encoders.len() && #[trigger] m.encoders[j].possible_crtcs.contains(x) ==> valid_name(x),
        forall|j: int, x: Seq<char>|
            0 <= j < m.connectors.len() && #[trigger] m.connectors[j].possible_encoders.contains(x) ==> valid_name(x),
{
    assert forall|j: int, x: Seq<char>|
        0 <= j < m.planes.len() && #[trigger] m.planes[j].possible_crtcs.contains(x) implies valid_name(x) by {
        let k = choose|k: int| 0 <= k < m.planes[j].possible_crtcs.len() && m.planes[j].possible_crtcs[k] == x;
        assert(has_crtc(m, m.planes[j].possible_crtcs[k]));
    }
    assert forall|j: int, x: Seq<char>|
        0 <= j < m.encoders.len() && #[trigger] m.encoders[j].possible_crtcs.contains(x) implies valid_name(x) by {
        let k = choose|k: int| 0 <= k < m.encoders[j].possible_crtcs.len() && m.encoders[j].possible_crtcs[k] == x;
        assert(has_crtc(m, m.encoders[j].possible_crtcs[k]));
    }
    assert forall|j: int, x: Seq<char>|
        0 <= j < m.connectors.len() && #[trigger] m.connectors[j].possible_encoders.contains(x) implies valid_name(x) by {
        let k = choose|k: int| 0 <= k < m.connectors[j].possible_encoders.len() && m.connectors[j].possible_encoders[k] == x;
        assert(has_encoder(m, m.connectors[j].possible_encoders[k]));
    }
}

proof fn lemma_crtc_entry(m: DeviceView, base: Seq<char>, t: TreeView, i: int)
    requires
        valid_device(m),
        tree_reads(base, device_plan(m), t),
        0 <= i < t.crtcs.len(),
    ensures
        exists|j: int| 0 <= j < m.crtcs.len() && #[trigger] m.crtcs[j] == load_crtc(t.crtcs[i]),
{
    let e = t.crtcs[i];
    let path = seq![crtcs_dir(), e.name, writeback_file()];
    let w = choose|w: Seq<char>|
        #[trigger] device_plan(m).contains(OpView::WriteFile(path, w))
            && trimmed(w) == trimmed(e.writeback);
    lemma_crtc_writeback_in_plan(m, e.name, w);
    let j = choose|j: int|
        0 <= j < m.crtcs.len() && (#[trigger] m.crtcs[j]).name == e.name && w == flag_attr(
            m.crtcs[j].writeback,
        );
    lemma_flag_round_trip(m.crtcs[j].writeback);
    assert(m.crtcs[j] == load_crtc(e));
}

proof fn lemma_crtcs_round_trip(m: DeviceView, base: Seq<char>, t: TreeView)
    requires
        valid_device(m),
        tree_reads(base, device_plan(m), t),
    ensures
        forall|i: int| 0 <= i < t.crtcs.len() ==> m.crtcs.contains(load_crtc(#[trigger] t.crtcs[i])),
        forall|j: int|
            0 <= j < m.crtcs.len() ==> exists|i: int|
                0 <= i < t.crtcs.len() && load_crtc(t.crtcs[i]) == #[trigger] m.crtcs[j],
{
    let plan = device_plan(m);
    assert forall|i: int| 0 <= i < t.crtcs.len() implies m.crtcs.contains(load_crtc(#[trigger] t.crtcs[i])) by {
        lemma_crtc_entry(m, base, t, i);
    }
    assert forall|j: int| 0 <= j < m.crtcs.len() implies exists|i: int|
        0 <= i < t.crtcs.len() && load_crtc(t.crtcs[i]) == #[trigger] m.crtcs[j] by {
        let n = m.crtcs[j].name;
        assert(has_crtc(m, n));
        lemma_crtc_dir_in_plan(m, n);
        assert(plan.contains(dir_op(crtcs_dir(), n)));
        let names = t.crtcs.map_values(|e: CrtcEntryView| e.name);
        assert(names.contains(n));
        let i = choose|i: int| 0 <= i < names.len() && names[i] == n;
        lemma_crtc_entry(m, base, t, i);
        let j2 = choose|j2: int| 0 <= j2 < m.crtcs.len() && #[trigger] m.crtcs[j2] == load_crtc(t.crtcs[i]);
        assert(m.crtcs[j2].name == m.crtcs[j].name);
    }
}

proof fn lemma_plane_entry(m: DeviceView, base: Seq<char>, t: TreeView, i: int)
    requires
        valid_device(m),
        tree_reads(base, device_plan(m), t),
        0 <= i < t.planes.len(),
    ensures
        load_plane(t.planes[i]) is Ok,
        exists|j: int|
            0 <= j < m.planes.len() && plane_matches(load_plane(t.planes[i])->Ok_0, #[trigger] m.planes[j]),
{
    let plan = device_plan(m);
    let e = t.planes[i];
    let path = seq![planes_dir(), e.name, type_file()];
    let w = choose|w: Seq<char>|
        #[trigger] plan.contains(OpView::WriteFile(path, w))
            && trimmed(w) == trimmed(e.kind);
    lemma_plane_type_in_plan(m, e.name, w);
    let j = choose|j: int|
        0 <= j < m.planes.len() && (#[trigger] m.planes[j]).name == e.name && w == kind_attr(
            m.planes[j].kind,
        );
    lemma_plane_kind_round_trip(m.planes[j].kind, e.kind);
    lemma_refs_valid(m);
    assert forall|tgt: Seq<Seq<char>>, x: Seq<char>|
        #[trigger] plan.contains(link_op(tgt, planes_dir(), e.name, possible_crtcs_dir(), x)) <==> (tgt
            == seq![crtcs_dir(), x] && m.planes[j].possible_crtcs.contains(x)) by {
        lemma_plane_link_in_plan(m, e.name, tgt, x);
        if exists|j2: int|
            0 <= j2 < m.planes.len() && (#[trigger] m.planes[j2]).name == e.name
                && m.planes[j2].possible_crtcs.contains(x) {
            let j2 = choose|j2: int|
                0 <= j2 < m.planes.len() && (#[trigger] m.planes[j2]).name == e.name
                    && m.planes[j2].possible_crtcs.contains(x);
            assert(j2 == j);
        }
    }
    assert forall|x: Seq<char>| m.planes[j].possible_crtcs.contains(x) implies valid_name(x) by {
        assert(m.planes[j].possible_crtcs.contains(x));
    }
    lemma_links_round_trip(
        base,
        plan,
        planes_dir(),
        e.name,
        possible_crtcs_dir(),
        crtcs_dir(),
        e.crtc_links,
        m.planes[j].possible_crtcs,
    );
    assert(plane_matches(load_plane(e)->Ok_0, m.planes[j]));
}

proof fn lemma_planes_round_trip(m: DeviceView, base: Seq<char>, t: TreeView)
    requires
        valid_device(m),
        tree_reads(base, device_plan(m), t),
    ensures
        forall|i: int| 0 <= i < t.planes.len() ==> (#[trigger] load_plane(t.planes[i])) is Ok,
        forall|i: int|
            #![trigger t.planes[i]]
            0 <= i < t.planes.len() ==> exists|j: int|
                0 <= j < m.planes.len() && plane_matches(load_plane(t.planes[i])->Ok_0, #[trigger] m.planes[j]),
        forall|j: int|
            #![trigger m.planes[j]]
            0 <= j < m.planes.len() ==> exists|i: int|
                0 <= i < t.planes.len() && plane_matches(load_plane(#[trigger] t.planes[i])->Ok_0, m.planes[j]),
{
    let plan = device_plan(m);
    assert forall|i: int| 0 <= i < t.planes.len() implies (#[trigger] load_plane(t.planes[i])) is Ok
        && exists|j: int|
        0 <= j < m.planes.len() && plane_matches(load_plane(t.planes[i])->Ok_0, #[trigger] m.planes[j]) by {
        lemma_plane_entry(m, base, t, i);
    }
    assert forall|j: int|
        #![trigger m.planes[j]]
        0 <= j < m.planes.len() implies exists|i: int|
        0 <= i < t.planes.len() && plane_matches(load_plane(#[trigger] t.planes[i])->Ok_0, m.planes[j]) by {
        let n = m.planes[j].name;
        lemma_plane_dir_in_plan(m, n);
        assert(plan.contains(dir_op(planes_dir(), n)));
        let names = t.planes.map_values(|e: PlaneEntryView| e.name);
        assert(names.contains(n));
        let i = choose|i: int| 0 <= i < names.len() && names[i] == n;
        lemma_plane_entry(m, base, t, i);
        let j2 = choose|j2: int|
            0 <= j2 < m.planes.len() && plane_matches(load_plane(t.planes[i])->Ok_0, #[trigger] m.planes[j2]);
        assert(m.planes[j2].name == m.planes[j].name);
    }
}

proof fn lemma_encoder_entry(m: DeviceView, base: Seq<char>, t: TreeView, i: int, j: int)
    requires
        valid_device(m),
        tree_reads(base, device_plan(m), t),
        0 <= i < t.encoders.len(),
        0 <= j < m.encoders.len(),
        t.encoders[i].name == m.encoders[j].name,
    ensures
        load_encoder(t.encoders[i]) is Ok,
        encoder_matches(load_encoder(t.encoders[i])->Ok_0, m.encoders[j]),
{
    let plan = device_plan(m);
    let e = t.encoders[i];
    lemma_refs_valid(m);
    assert forall|tgt: Seq<Seq<char>>, x: Seq<char>|
        #[trigger] plan.contains(link_op(tgt, encoders_dir(), e.name, possible_crtcs_dir(), x)) <==> (tgt
            == seq![crtcs_dir(), x] && m.encoders[j].possible_crtcs.contains(x)) by {
        lemma_encoder_link_in_plan(m, e.name, tgt, x);
        if exists|j2: int|
            0 <= j2 < m.encoders.len() && (#[trigger] m.encoders[j2]).name == e.name
                && m.encoders[j2].possible_crtcs.contains(x) {
            let j2 = choose|j2: int|
                0 <= j2 < m.encoders.len() && (#[trigger] m.encoders[j2]).name == e.name
                    && m.encoders[j2].possible_crtcs.contains(x);
            assert(j2 == j);
        }
    }
    assert forall|x: Seq<char>| m.encoders[j].possible_crtcs.contains(x) implies valid_name(x) by {
        assert(m.encoders[j].possible_crtcs.contains(x));
    }
    lemma_links_round_trip(
        base,
        plan,
        encoders_dir(),
        e.name,
        possible_crtcs_dir(),
        crtcs_dir(),
        e.crtc_links,
        m.encoders[j].possible_crtcs,
    );
}

proof fn lemma_encoders_round_trip(m: DeviceView, base: Seq<char>, t: TreeView)
    requires
        valid_device(m),
        tree_reads(base, device_plan(m), t),
    ensures
        forall|i: int| 0 <= i < t.encoders.len() ==> (#[trigger] load_encoder(t.encoders[i])) is Ok,
        forall|i: int|
            #![trigger t.encoders[i]]
            0 <= i < t.encoders.len() ==> exists|j: int|
                0 <= j < m.encoders.len() && encoder_matches(load_encoder(t.encoders[i])->Ok_0, #[trigger] m.encoders[j]),
        forall|j: int|
            #![trigger m.encoders[j]]
            0 <= j < m.encoders.len() ==> exists|i: int|
                0 <= i < t.encoders.len() && encoder_matches(load_encoder(#[trigger] t.encoders[i])->Ok_0, m.encoders[j]),
{
    let plan = device_plan(m);
    assert forall|i: int| 0 <= i < t.encoders.len() implies (#[trigger] load_encoder(t.encoders[i])) is Ok
        && exists|j: int|
        0 <= j < m.encoders.len() && encoder_matches(load_encoder(t.encoders[i])->Ok_0, #[trigger] m.encoders[j]) by {
        let n = t.encoders[i].name;
        let names = t.encoders.map_values(|e: EncoderEntryView| e.name);
        assert(names[i] == n);
        assert(names.contains(n));
        assert(plan.contains(dir_op(encoders_dir(), n)));
        lemma_encoder_dir_in_plan(m, n);
        let j = choose|j: int| 0 <= j < m.encoders.len() && (#[trigger] m.encoders[j]).name == n;
        lemma_encoder_entry(m, base, t, i, j);
    }
    assert forall|j: int|
        #![trigger m.encoders[j]]
        0 <= j < m.encoders.len() implies exists|i: int|
        0 <= i < t.encoders.len() && encoder_matches(load_encoder(#[trigger] t.encoders[i])->Ok_0, m.encoders[j]) by {
        let n = m.encoders[j].name;
        assert(has_encoder(m, n));
        lemma_encoder_dir_in_plan(m, n);
        assert(plan.contains(dir_op(encoders_dir(), n)));
        let names = t.encoders.map_values(|e: EncoderEntryView| e.name);
        assert(names.contains(n));
        let i = choose|i: int| 0 <= i < names.len() && names[i] == n;
        lemma_encoder_entry(m, base, t, i, j);
    }
}

proof fn lemma_connector_entry(m: DeviceView, base: Seq<char>, t: TreeView, i: int)
    requires
        valid_device(m),
        tree_reads(base, device_plan(m), t),
        0 <= i < t.connectors.len(),
    ensures
        load_connector(t.connectors[i]) is Ok,
        exists|j: int|
            0 <= j < m.connectors.len() && connector_matches(
                load_connector(t.connectors[i])->Ok_0,
                #[trigger] m.connectors[j],
            ),
{
    let plan = device_plan(m);
    let e = t.connectors[i];
    let path = seq![connectors_dir(), e.name, status_file()];
    let w = choose|w: Seq<char>|
        #[trigger] plan.contains(OpView::WriteFile(path, w))
            && trimmed(w) == trimmed(e.status);
    lemma_connector_status_in_plan(m, e.name, w);
    let j = choose|j: int|
        0 <= j < m.connectors.len() && (#[trigger] m.connectors[j]).name == e.name && w
            == status_attr(m.connectors[j].status);
    lemma_connector_status_round_trip(m.connectors[j].status, e.status);
    lemma_refs_valid(m);
    assert forall|tgt: Seq<Seq<char>>, x: Seq<char>|
        #[trigger] plan.contains(link_op(tgt, connectors_dir(), e.name, possible_encoders_dir(), x)) <==> (
        tgt == seq![encoders_dir(), x] && m.connectors[j].possible_encoders.contains(x)) by {
        lemma_connector_link_in_plan(m, e.name, tgt, x);
        if exists|j2: int|
            0 <= j2 < m.connectors.len() && (#[trigger] m.connectors[j2]).name == e.name
                && m.connectors[j2].possible_encoders.contains(x) {
            let j2 = choose|j2: int|
                0 <= j2 < m.connectors.len() && (#[trigger] m.connectors[j2]).name == e.name
                    && m.connectors[j2].possible_encoders.contains(x);
            assert(j2 == j);
        }
    }
    assert forall|x: Seq<char>| m.connectors[j].possible_encoders.contains(x) implies valid_name(x) by {
        assert(m.connectors[j].possible_encoders.contains(x));
    }
    lemma_links_round_trip(
        base,
        plan,
        connectors_dir(),
        e.name,
        possible_encoders_dir(),
        encoders_dir(),
        e.encoder_links,
        m.connectors[j].possible_encoders,
    );
    assert(connector_matches(load_connector(e)->Ok_0, m.connectors[j]));
}

proof fn lemma_connectors_round_trip(m: DeviceView, base: Seq<char>, t: TreeView)
    requires
        valid_device(m),
        tree_reads(base, device_plan(m), t),
    ensures
        forall|i: int| 0 <= i < t.connectors.len() ==> (#[trigger] load_connector(t.connectors[i])) is Ok,
        forall|i: int|
            #![trigger t.connectors[i]]
            0 <= i < t.connectors.len() ==> exists|j: int|
                0 <= j < m.connectors.len() && connector_matches(load_connector(t.connectors[i])->Ok_0, #[trigger] m.connectors[j]),
        forall|j: int|
            #![trigger m.connectors[j]]
            0 <= j < m.connectors.len() ==> exists|i: int|
                0 <= i < t.connectors.len() && connector_matches(load_connector(#[trigger] t.connectors[i])->Ok_0, m.connectors[j]),
{
    let plan = device_plan(m);
    assert forall|i: int| 0 <= i < t.connectors.len() implies (#[trigger] load_connector(t.connectors[i])) is Ok
        && exists|j: int|
        0 <= j < m.connectors.len() && connector_matches(load_connector(t.connectors[i])->Ok_0, #[trigger] m.connectors[j]) by {
        lemma_connector_entry(m, base, t, i);
    }
    assert forall|j: int|
        #![trigger m.connectors[j]]
        0 <= j < m.connectors.len() implies exists|i: int|
        0 <= i < t.connectors.len() && connector_matches(load_connector(#[trigger] t.connectors[i])->Ok_0, m.connectors[j]) by {
        let n = m.connectors[j].name;
        lemma_connector_dir_in_plan(m, n);
        assert(plan.contains(dir_op(connectors_dir(), n)));
        let names = t.connectors.map_values(|e: ConnectorEntryView| e.name);
        assert(names.contains(n));
        let i = choose|i: int| 0 <= i < names.len() && names[i] == n;
        lemma_connector_entry(m, base, t, i);
        let j2 = choose|j2: int|
            0 <= j2 < m.connectors.len() && connector_matches(load_connector(t.connectors[i])->Ok_0, #[trigger] m.connectors[j2]);
        assert(m.connectors[j2].name == m.connectors[j].name);
    }
}

proof fn lemma_enabled_read(m: DeviceView, w: Seq<char>)
    requires
        device_plan(m).contains(OpView::WriteFile(seq![enabled_file()], w)),
    ensures
        w == flag_attr(m.enabled),
{
    let o = OpView::WriteFile(seq![enabled_file()], w);
    lemma_plan_parts(m, o);
    if concat_map(m.crtcs, |c: CrtcView| crtc_ops(c)).contains(o) {
        lemma_crtc_part_category(m.crtcs, o);
    }
    if concat_map(m.planes, |p: PlaneView| plane_ops(p)).contains(o) {
        lemma_plane_part_category(m.planes, o);
    }
    if concat_map(m.encoders, |e: EncoderView| encoder_ops(e)).contains(o) {
        lemma_encoder_part_category(m.encoders, o);
    }
    if concat_map(m.connectors, |k: ConnectorView| connector_ops(k)).contains(o) {
        lemma_connector_part_category(m.connectors, o);
    }
}

/// A device equivalent to a valid one has every reference resolved too.
pub proof fn lemma_refs_carry_over(m: DeviceView, d: DeviceView)
    requires
        valid_device(m),
        equivalent(d, m),
    ensures
        crtc_refs_resolve(d),
        encoder_refs_resolve(d),
{
    assert forall|x: Seq<char>| has_crtc(m, x) implies has_crtc(d, x) by {
        let c = choose|c: int| 0 <= c < m.crtcs.len() && (#[trigger] m.crtcs[c]).name == x;
        assert(d.crtcs.contains(m.crtcs[c]));
        let i = choose|i: int| 0 <= i < d.crtcs.len() && d.crtcs[i] == m.crtcs[c];
        assert(d.crtcs[i].name == x);
    }
    assert forall|x: Seq<char>| has_encoder(m, x) implies has_encoder(d, x) by {
        let c = choose|c: int| 0 <= c < m.encoders.len() && (#[trigger] m.encoders[c]).name == x;
        let i = choose|i: int| 0 <= i < d.encoders.len() && encoder_matches(#[trigger] d.encoders[i], #[trigger] m.encoders[c]);
        assert(d.encoders[i].name == x);
    }
    assert forall|i: int, k: int|
        0 <= i < d.planes.len() && 0 <= k < d.planes[i].possible_crtcs.len() implies has_crtc(
            d,
            #[trigger] d.planes[i].possible_crtcs[k],
        ) by {
        let x = d.planes[i].possible_crtcs[k];
        let j = choose|j: int| 0 <= j < m.planes.len() && plane_matches(#[trigger] d.planes[i], #[trigger] m.planes[j]);
        assert(d.planes[i].possible_crtcs.to_set().contains(x));
        assert(m.planes[j].possible_crtcs.contains(x));
        let q = choose|q: int| 0 <= q < m.planes[j].possible_crtcs.len() && m.planes[j].possible_crtcs[q] == x;
        assert(has_crtc(m, m.planes[j].possible_crtcs[q]));
    }
    assert forall|i: int, k: int|
        0 <= i < d.encoders.len() && 0 <= k < d.encoders[i].possible_crtcs.len() implies has_crtc(
            d,
            #[trigger] d.encoders[i].possible_crtcs[k],
        ) by {
        let x = d.encoders[i].possible_crtcs[k];
        let j = choose|j: int| 0 <= j < m.encoders.len() && encoder_matches(#[trigger] d.encoders[i], #[trigger] m.encoders[j]);
        assert(d.encoders[i].possible_crtcs.to_set().contains(x));
        assert(m.encoders[j].possible_crtcs.contains(x));
        let q = choose|q: int| 0 <= q < m.encoders[j].possible_crtcs.len() && m.encoders[j].possible_crtcs[q] == x;
        assert(has_crtc(m, m.encoders[j].possible_crtcs[q]));
    }
    assert forall|i: int, k: int|
        0 <= i < d.connectors.len() && 0 <= k < d.connectors[i].possible_encoders.len() implies has_encoder(
            d,
            #[trigger] d.connectors[i].possible_encoders[k],
        ) by {
        let x = d.connectors[i].possible_encoders[k];
        let j = choose|j: int| 0 <= j < m.connectors.len() && connector_matches(#[trigger] d.connectors[i], #[trigger] m.connectors[j]);
        assert(d.connectors[i].possible_encoders.to_set().contains(x));
        assert(m.connectors[j].possible_encoders.contains(x));
        let q = choose|q: int| 0 <= q < m.connectors[j].possible_encoders.len() && m.connectors[j].possible_encoders[q] == x;
        assert(has_encoder(m, m.connectors[j].possible_encoders[q]));
    }
}

/// The device a tree reads as, before names and references are checked.
pub open spec fn read_device(configfs_path: Seq<char>, t: TreeView) -> DeviceView {
    DeviceView {
        configfs_path,
        name: t.name,
        enabled: parse_flag(trimmed(t.enabled)),
        planes: t.planes.map_values(|e: PlaneEntryView| load_plane(e)->Ok_0),
        crtcs: t.crtcs.map_values(|e: CrtcEntryView| load_crtc(e)),
        encoders: t.encoders.map_values(|e: EncoderEntryView| load_encoder(e)->Ok_0),
        connectors: t.connectors.map_values(|e: ConnectorEntryView| load_connector(e)->Ok_0),
    }
}

proof fn lemma_read_device_equivalent(m: DeviceView, t: TreeView)
    requires
        valid_device(m),
        t.name == m.name,
        tree_reads(device_path(m.configfs_path, m.name), device_plan(m), t),
    ensures
        equivalent(read_device(m.configfs_path, t), m),
{
    let base = device_path(m.configfs_path, m.name);
    let d = read_device(m.configfs_path, t);
    assert(d.enabled == m.enabled) by {
        let path = seq![enabled_file()];
        let w = choose|w: Seq<char>|
            #[trigger] device_plan(m).contains(OpView::WriteFile(path, w))
                && trimmed(w) == trimmed(t.enabled);
        lemma_enabled_read(m, w);
        lemma_flag_round_trip(m.enabled);
    }
    assert((forall|i: int| 0 <= i < d.crtcs.len() ==> m.crtcs.contains(#[trigger] d.crtcs[i]))
        && (forall|j: int| 0 <= j < m.crtcs.len() ==> d.crtcs.contains(#[trigger] m.crtcs[j]))) by {
        lemma_crtcs_round_trip(m, base, t);
        assert forall|j: int| 0 <= j < m.crtcs.len() implies d.crtcs.contains(#[trigger] m.crtcs[j]) by {
            let i = choose|i: int| 0 <= i < t.crtcs.len() && load_crtc(t.crtcs[i]) == #[trigger] m.crtcs[j];
            assert(d.crtcs[i] == m.crtcs[j]);
        }
        assert forall|i: int| 0 <= i < d.crtcs.len() implies m.crtcs.contains(#[trigger] d.crtcs[i]) by {
            assert(d.crtcs[i] == load_crtc(t.crtcs[i]));
        }
    }
    assert((forall|i: int|
        0 <= i < d.planes.len() ==> exists|j: int|
            0 <= j < m.planes.len() && plane_matches(#[trigger] d.planes[i], #[trigger] m.planes[j]))
        && (forall|j: int|
        0 <= j < m.planes.len() ==> exists|i: int|
            0 <= i < d.planes.len() && plane_matches(#[trigger] d.planes[i], #[trigger] m.planes[j]))) by {
        lemma_planes_round_trip(m, base, t);
        assert forall|j: int| 0 <= j < m.planes.len() implies exists|i: int|
            0 <= i < d.planes.len() && plane_matches(#[trigger] d.planes[i], #[trigger] m.planes[j]) by {
            let i = choose|i: int| 0 <= i < t.planes.len() && plane_matches(load_plane(#[trigger] t.planes[i])->Ok_0, m.planes[j]);
            assert(d.planes[i] == load_plane(t.planes[i])->Ok_0);
        }
        assert forall|i: int| 0 <= i < d.planes.len() implies exists|j: int|
            0 <= j < m.planes.len() && plane_matches(#[trigger] d.planes[i], #[trigger] m.planes[j]) by {
            assert(d.planes[i] == load_plane(t.planes[i])->Ok_0);
            assert(t.planes[i] == t.planes[i]);
        }
    }
    assert((forall|i: int|
        0 <= i < d.encoders.len() ==> exists|j: int|
            0 <= j < m.encoders.len() && encoder_matches(#[trigger] d.encoders[i], #[trigger] m.encoders[j]))
        && (forall|j: int|
        0 <= j < m.encoders.len() ==> exists|i: int|
            0 <= i < d.encoders.len() && encoder_matches(#[trigger] d.encoders[i], #[trigger] m.encoders[j]))) by {
        lemma_encoders_round_trip(m, base, t);
        assert forall|j: int| 0 <= j < m.encoders.len() implies exists|i: int|
            0 <= i < d.encoders.len() && encoder_matches(#[trigger] d.encoders[i], #[trigger] m.encoders[j]) by {
            let i = choose|i: int| 0 <= i < t.encoders.len() && encoder_matches(load_encoder(#[trigger] t.encoders[i])->Ok_0, m.encoders[j]);
            assert(d.encoders[i] == load_encoder(t.encoders[i])->Ok_0);
        }
        assert forall|i: int| 0 <= i < d.encoders.len() implies exists|j: int|
            0 <= j < m.encoders.len() && encoder_matches(#[trigger] d.encoders[i], #[trigger] m.encoders[j]) by {
            assert(d.encoders[i] == load_encoder(t.encoders[i])->Ok_0);
            assert(t.encoders[i] == t.encoders[i]);
        }
    }
    assert((forall|i: int|
        0 <= i < d.connectors.len() ==> exists|j: int|
            0 <= j < m.connectors.len() && connector_matches(#[trigger] d.connectors[i], #[trigger] m.connectors[j]))
        && (forall|j: int|
        0 <= j < m.connectors.len() ==> exists|i: int|
            0 <= i < d.connectors.len() && connector_matches(#[trigger] d.connectors[i], #[trigger] m.connectors[j]))) by {
        lemma_connectors_round_trip(m, base, t);
        assert forall|j: int| 0 <= j < m.connectors.len() implies exists|i: int|
            0 <= i < d.connectors.len() && connector_matches(#[trigger] d.connectors[i], #[trigger] m.connectors[j]) by {
            let i = choose|i: int| 0 <= i < t.connectors.len() && connector_matches(load_connector(#[trigger] t.connectors[i])->Ok_0, m.connectors[j]);
            assert(d.connectors[i] == load_connector(t.connectors[i])->Ok_0);
        }
        assert forall|i: int| 0 <= i < d.connectors.len() implies exists|j: int|
            0 <= j < m.connectors.len() && connector_matches(#[trigger] d.connectors[i], #[trigger] m.connectors[j]) by {
            assert(d.connectors[i] == load_connector(t.connectors[i])->Ok_0);
            assert(t.connectors[i] == t.connectors[i]);
        }
    }
}

proof fn lemma_read_device_unique(m: DeviceView, t: TreeView)
    requires
        valid_device(m),
        tree_reads(device_path(m.configfs_path, m.name), device_plan(m), t),
    ensures
        names_unique(read_device(m.configfs_path, t)),
{
    let base = device_path(m.configfs_path, m.name);
    let d = read_device(m.configfs_path, t);
        lemma_planes_round_trip(m, base, t);
        lemma_encoders_round_trip(m, base, t);
        lemma_connectors_round_trip(m, base, t);
        let tc = t.crtcs.map_values(|e: CrtcEntryView| e.name);
        let tp = t.planes.map_values(|e: PlaneEntryView| e.name);
        let te = t.encoders.map_values(|e: EncoderEntryView| e.name);
        let tk = t.connectors.map_values(|e: ConnectorEntryView| e.name);
        assert forall|i: int| 0 <= i < d.crtcs.len() implies (#[trigger] d.crtcs[i]).name == tc[i] by {}
        assert forall|i: int| 0 <= i < d.planes.len() implies (#[trigger] d.planes[i]).name == tp[i] by {
            assert(load_plane(t.planes[i]) is Ok);
        }
        assert forall|i: int| 0 <= i < d.encoders.len() implies (#[trigger] d.encoders[i]).name == te[i] by {
            assert(load_encoder(t.encoders[i]) is Ok);
        }
        assert forall|i: int| 0 <= i < d.connectors.len() implies (#[trigger] d.connectors[i]).name == tk[i] by {
            assert(load_connector(t.connectors[i]) is Ok);
        }
        assert forall|i: int, j: int| 0 <= i < d.crtcs.len() && 0 <= j < d.crtcs.len() && #[trigger] d.crtcs[i].name == #[trigger] d.crtcs[j].name implies i == j by {
            assert(tc[i] == tc[j]);
        }
        assert forall|i: int, j: int| 0 <= i < d.planes.len() && 0 <= j < d.planes.len() && #[trigger] d.planes[i].name == #[trigger] d.planes[j].name implies i == j by {
            assert(tp[i] == tp[j]);
        }
        assert forall|i: int, j: int| 0 <= i < d.encoders.len() && 0 <= j < d.encoders.len() && #[trigger] d.encoders[i].name == #[trigger] d.encoders[j].name implies i == j by {
            assert(te[i] == te[j]);
        }
        assert forall|i: int, j: int| 0 <= i < d.connectors.len() && 0 <= j < d.connectors.len() && #[trigger] d.connectors[i].name == #[trigger] d.connectors[j].name implies i == j by {
            assert(tk[i] == tk[j]);
        }
    }

/// Loading the tree that materializing a valid device wrote gives back an
/// equivalent device: the same names, enumeration values and reference sets,
/// whatever order the directories are read in.
pub proof fn lemma_load_after_materialize(m: DeviceView, t: TreeView)
    requires
        valid_device(m),
        t.name == m.name,
        tree_reads(device_path(m.configfs_path, m.name), device_plan(m), t),
    ensures
        load_device(m.configfs_path, t) is Ok,
        equivalent(load_device(m.configfs_path, t)->Ok_0, m),
{
    let base = device_path(m.configfs_path, m.name);
    let fp = |e: PlaneEntryView| load_plane(e);
    let fe = |e: EncoderEntryView| load_encoder(e);
    let fk = |e: ConnectorEntryView| load_connector(e);
    let d = read_device(m.configfs_path, t);
    assert(load_all(t.planes, fp) == Ok::<Seq<PlaneView>, LoadError>(d.planes)) by {
        lemma_planes_round_trip(m, base, t);
        lemma_load_all_ok(t.planes, fp);
        assert(t.planes.map_values(|e: PlaneEntryView| fp(e)->Ok_0) =~= d.planes);
    }
    assert(load_all(t.encoders, fe) == Ok::<Seq<EncoderView>, LoadError>(d.encoders)) by {
        lemma_encoders_round_trip(m, base, t);
        lemma_load_all_ok(t.encoders, fe);
        assert(t.encoders.map_values(|e: EncoderEntryView| fe(e)->Ok_0) =~= d.encoders);
    }
    assert(load_all(t.connectors, fk) == Ok::<Seq<ConnectorView>, LoadError>(d.connectors)) by {
        lemma_connectors_round_trip(m, base, t);
        lemma_load_all_ok(t.connectors, fk);
        assert(t.connectors.map_values(|e: ConnectorEntryView| fk(e)->Ok_0) =~= d.connectors);
    }
    lemma_read_device_equivalent(m, t);
    lemma_read_device_unique(m, t);
    lemma_refs_carry_over(m, d);
    assert(load_device(m.configfs_path, t) == checked_device(d));
}
} // verus!

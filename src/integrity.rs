//! Integrity of a device model: names unique within each category, and every
//! reference naming an entity of the device.

use crate::model::{
    crtc_refs_resolve, encoder_refs_resolve, names_unique, ConnectorConfig, CrtcConfig,
    EncoderConfig, PlaneConfig, VkmsDeviceBuilder,
};
use vstd::prelude::*;

verus! {

/// Whether `n` is one of `pool`.
fn name_in(pool: &Vec<String>, n: &String) -> (r: bool)
    ensures
        r == pool.deep_view().contains(n@),
{
    let mut j: usize = 0;
    while j < pool.len()
        invariant
            j <= pool@.len(),
            forall|k: int| 0 <= k < j ==> pool@[k]@ != n@,
        decreases pool@.len() - j,
    {
        if pool[j] == *n {
            proof {
                assert(pool.deep_view()[j as int] == n@);
            }
            return true;
        }
        j = j + 1;
    }
    false
}

/// Whether every name of `refs` is one of `pool`.
fn all_in(refs: &Vec<String>, pool: &Vec<String>) -> (r: bool)
    ensures
        r == forall|k: int| 0 <= k < refs@.len() ==> pool.deep_view().contains(#[trigger] refs.deep_view()[k]),
{
    let mut k: usize = 0;
    while k < refs.len()
        invariant
            k <= refs@.len(),
            forall|m: int| 0 <= m < k ==> pool.deep_view().contains(#[trigger] refs.deep_view()[m]),
        decreases refs@.len() - k,
    {
        if !name_in(pool, &refs[k]) {
            proof {
                assert(refs.deep_view()[k as int] == refs@[k as int]@);
            }
            return false;
        }
        k = k + 1;
    }
    true
}

fn crtc_names(crtcs: &Vec<CrtcConfig>) -> (r: Vec<String>)
    ensures
        r.deep_view() == crtcs@.map_values(|c: CrtcConfig| c@.name),
{
    let mut r: Vec<String> = Vec::new();
    let mut i: usize = 0;
    while i < crtcs.len()
        invariant
            i <= crtcs@.len(),
            r@.len() == i,
            forall|k: int| 0 <= k < i ==> (#[trigger] r@[k])@ == crtcs@[k].name@,
        decreases crtcs@.len() - i,
    {
        r.push(crtcs[i].name.clone());
        i = i + 1;
    }
    proof {
        assert(r.deep_view() =~= crtcs@.map_values(|c: CrtcConfig| c@.name));
    }
    r
}

fn encoder_names(encoders: &Vec<EncoderConfig>) -> (r: Vec<String>)
    ensures
        r.deep_view() == encoders@.map_values(|e: EncoderConfig| e@.name),
{
    let mut r: Vec<String> = Vec::new();
    let mut i: usize = 0;
    while i < encoders.len()
        invariant
            i <= encoders@.len(),
            r@.len() == i,
            forall|k: int| 0 <= k < i ==> (#[trigger] r@[k])@ == encoders@[k].name@,
        decreases encoders@.len() - i,
    {
        r.push(encoders[i].name.clone());
        i = i + 1;
    }
    proof {
        assert(r.deep_view() =~= encoders@.map_values(|e: EncoderConfig| e@.name));
    }
    r
}

/// Whether every reference of the device names an entity it holds.
pub fn refs_resolve(d: &VkmsDeviceBuilder) -> (r: bool)
    ensures
        r == (crtc_refs_resolve(d@) && encoder_refs_resolve(d@)),
{
    let crtcs = crtc_names(&d.crtcs);
    let encoders = encoder_names(&d.encoders);
    proof {
        assert forall|n: Seq<char>| crtcs.deep_view().contains(n) <==> crate::model::has_crtc(d@, n) by {
            if crtcs.deep_view().contains(n) {
                let j = choose|j: int| 0 <= j < crtcs.deep_view().len() && crtcs.deep_view()[j] == n;
                assert(d@.crtcs[j].name == n);
            }
            if crate::model::has_crtc(d@, n) {
                let j = choose|j: int| 0 <= j < d@.crtcs.len() && (#[trigger] d@.crtcs[j]).name == n;
                assert(crtcs.deep_view()[j] == n);
            }
        }
        assert forall|n: Seq<char>| encoders.deep_view().contains(n) <==> crate::model::has_encoder(d@, n) by {
            if encoders.deep_view().contains(n) {
                let j = choose|j: int| 0 <= j < encoders.deep_view().len() && encoders.deep_view()[j] == n;
                assert(d@.encoders[j].name == n);
            }
            if crate::model::has_encoder(d@, n) {
                let j = choose|j: int| 0 <= j < d@.encoders.len() && (#[trigger] d@.encoders[j]).name == n;
                assert(encoders.deep_view()[j] == n);
            }
        }
    }
    let mut i: usize = 0;
    while i < d.planes.len()
        invariant
            i <= d.planes@.len(),
            forall|n: Seq<char>| crtcs.deep_view().contains(n) <==> crate::model::has_crtc(d@, n),
            forall|m: int, k: int|
                0 <= m < i && 0 <= k < d@.planes[m].possible_crtcs.len() ==> crate::model::has_crtc(
                    d@,
                    #[trigger] d@.planes[m].possible_crtcs[k],
                ),
        decreases d.planes@.len() - i,
    {
        if !all_in(&d.planes[i].possible_crtcs, &crtcs) {
            proof {
                let k = choose|k: int| 0 <= k < d.planes@[i as int].possible_crtcs@.len()
                    && !crtcs.deep_view().contains(#[trigger] d.planes@[i as int].possible_crtcs.deep_view()[k]);
                assert(d@.planes[i as int].possible_crtcs[k] == d.planes@[i as int].possible_crtcs.deep_view()[k]);
            }
            return false;
        }
        i = i + 1;
    }
    let mut i: usize = 0;
    while i < d.encoders.len()
        invariant
            i <= d.encoders@.len(),
            forall|n: Seq<char>| crtcs.deep_view().contains(n) <==> crate::model::has_crtc(d@, n),
            forall|m: int, k: int|
                0 <= m < d@.planes.len() && 0 <= k < d@.planes[m].possible_crtcs.len() ==> crate::model::has_crtc(
                    d@,
                    #[trigger] d@.planes[m].possible_crtcs[k],
                ),
            forall|m: int, k: int|
                0 <= m < i && 0 <= k < d@.encoders[m].possible_crtcs.len() ==> crate::model::has_crtc(
                    d@,
                    #[trigger] d@.encoders[m].possible_crtcs[k],
                ),
        decreases d.encoders@.len() - i,
    {
        if !all_in(&d.encoders[i].possible_crtcs, &crtcs) {
            proof {
                let k = choose|k: int| 0 <= k < d.encoders@[i as int].possible_crtcs@.len()
                    && !crtcs.deep_view().contains(#[trigger] d.encoders@[i as int].possible_crtcs.deep_view()[k]);
                assert(d@.encoders[i as int].possible_crtcs[k] == d.encoders@[i as int].possible_crtcs.deep_view()[k]);
            }
            return false;
        }
        i = i + 1;
    }
    let mut i: usize = 0;
    while i < d.connectors.len()
        invariant
            i <= d.connectors@.len(),
            crtc_refs_resolve(d@),
            forall|n: Seq<char>| encoders.deep_view().contains(n) <==> crate::model::has_encoder(d@, n),
            forall|m: int, k: int|
                0 <= m < i && 0 <= k < d@.connectors[m].possible_encoders.len() ==> crate::model::has_encoder(
                    d@,
                    #[trigger] d@.connectors[m].possible_encoders[k],
                ),
        decreases d.connectors@.len() - i,
    {
        if !all_in(&d.connectors[i].possible_encoders, &encoders) {
            proof {
                let k = choose|k: int| 0 <= k < d.connectors@[i as int].possible_encoders@.len()
                    && !encoders.deep_view().contains(#[trigger] d.connectors@[i as int].possible_encoders.deep_view()[k]);
                assert(d@.connectors[i as int].possible_encoders[k] == d.connectors@[i as int].possible_encoders.deep_view()[k]);
            }
            return false;
        }
        i = i + 1;
    }
    true
}


fn plane_names(planes: &Vec<PlaneConfig>) -> (r: Vec<String>)
    ensures
        r.deep_view() == planes@.map_values(|p: PlaneConfig| p@.name),
{
    let mut r: Vec<String> = Vec::new();
    let mut i: usize = 0;
    while i < planes.len()
        invariant
            i <= planes@.len(),
            r@.len() == i,
            forall|k: int| 0 <= k < i ==> (#[trigger] r@[k])@ == planes@[k].name@,
        decreases planes@.len() - i,
    {
        r.push(planes[i].name.clone());
        i = i + 1;
    }
    proof {
        assert(r.deep_view() =~= planes@.map_values(|p: PlaneConfig| p@.name));
    }
    r
}

fn connector_names(connectors: &Vec<ConnectorConfig>) -> (r: Vec<String>)
    ensures
        r.deep_view() == connectors@.map_values(|k: ConnectorConfig| k@.name),
{
    let mut r: Vec<String> = Vec::new();
    let mut i: usize = 0;
    while i < connectors.len()
        invariant
            i <= connectors@.len(),
            r@.len() == i,
            forall|k: int| 0 <= k < i ==> (#[trigger] r@[k])@ == connectors@[k].name@,
        decreases connectors@.len() - i,
    {
        r.push(connectors[i].name.clone());
        i = i + 1;
    }
    proof {
        assert(r.deep_view() =~= connectors@.map_values(|k: ConnectorConfig| k@.name));
    }
    r
}

pub open spec fn distinct(s: Seq<Seq<char>>) -> bool {
    forall|i: int, j: int| 0 <= i < s.len() && 0 <= j < s.len() && #[trigger] s[i] == #[trigger] s[j] ==> i == j
}

/// Whether no name occurs twice in `names`.
fn all_distinct(names: &Vec<String>) -> (r: bool)
    ensures
        r == distinct(names.deep_view()),
{
    let ghost s = names.deep_view();
    let mut i: usize = 0;
    while i < names.len()
        invariant
            s == names.deep_view(),
            i <= names@.len(),
            forall|a: int, b: int| 0 <= a < i && 0 <= b < names@.len() && #[trigger] s[a] == #[trigger] s[b] ==> a == b,
        decreases names@.len() - i,
    {
        let mut j: usize = 0;
        while j < names.len()
            invariant
                s == names.deep_view(),
                i < names@.len(),
                j <= names@.len(),
                forall|a: int, b: int| 0 <= a < i && 0 <= b < names@.len() && #[trigger] s[a] == #[trigger] s[b] ==> a == b,
                forall|b: int| 0 <= b < j && s[i as int] == #[trigger] s[b] ==> b == i,
            decreases names@.len() - j,
        {
            if j != i && names[i] == names[j] {
                proof {
                    assert(s[i as int] == s[j as int]);
                }
                return false;
            }
            j = j + 1;
        }
        i = i + 1;
    }
    true
}

/// Whether names are unique within each category of the device.
pub fn names_are_unique(d: &VkmsDeviceBuilder) -> (r: bool)
    ensures
        r == names_unique(d@),
{
    let n0 = plane_names(&d.planes);
    let u0 = all_distinct(&n0);
    proof {
        let s = n0.deep_view();
        assert forall|i: int| 0 <= i < d@.planes.len() implies s[i] == #[trigger] d@.planes[i].name by {}
        assert(u0 == (forall|i: int, j: int|
            0 <= i < d@.planes.len() && 0 <= j < d@.planes.len() && #[trigger] d@.planes[i].name
                == #[trigger] d@.planes[j].name ==> i == j)) by {
            if u0 {
                assert forall|i: int, j: int|
                    0 <= i < d@.planes.len() && 0 <= j < d@.planes.len() && #[trigger] d@.planes[i].name
                        == #[trigger] d@.planes[j].name implies i == j by {
                    assert(s[i] == s[j]);
                }
            } else {
                let (i, j) = choose|i: int, j: int| 0 <= i < s.len() && 0 <= j < s.len() && #[trigger] s[i] == #[trigger] s[j] && i != j;
                assert(d@.planes[i].name == d@.planes[j].name);
            }
        }
    }
    let n1 = crtc_names(&d.crtcs);
    let u1 = all_distinct(&n1);
    proof {
        let s = n1.deep_view();
        assert forall|i: int| 0 <= i < d@.crtcs.len() implies s[i] == #[trigger] d@.crtcs[i].name by {}
        assert(u1 == (forall|i: int, j: int|
            0 <= i < d@.crtcs.len() && 0 <= j < d@.crtcs.len() && #[trigger] d@.crtcs[i].name
                == #[trigger] d@.crtcs[j].name ==> i == j)) by {
            if u1 {
                assert forall|i: int, j: int|
                    0 <= i < d@.crtcs.len() && 0 <= j < d@.crtcs.len() && #[trigger] d@.crtcs[i].name
                        == #[trigger] d@.crtcs[j].name implies i == j by {
                    assert(s[i] == s[j]);
                }
            } else {
                let (i, j) = choose|i: int, j: int| 0 <= i < s.len() && 0 <= j < s.len() && #[trigger] s[i] == #[trigger] s[j] && i != j;
                assert(d@.crtcs[i].name == d@.crtcs[j].name);
            }
        }
    }
    let n2 = encoder_names(&d.encoders);
    let u2 = all_distinct(&n2);
    proof {
        let s = n2.deep_view();
        assert forall|i: int| 0 <= i < d@.encoders.len() implies s[i] == #[trigger] d@.encoders[i].name by {}
        assert(u2 == (forall|i: int, j: int|
            0 <= i < d@.encoders.len() && 0 <= j < d@.encoders.len() && #[trigger] d@.encoders[i].name
                == #[trigger] d@.encoders[j].name ==> i == j)) by {
            if u2 {
                assert forall|i: int, j: int|
                    0 <= i < d@.encoders.len() && 0 <= j < d@.encoders.len() && #[trigger] d@.encoders[i].name
                        == #[trigger] d@.encoders[j].name implies i == j by {
                    assert(s[i] == s[j]);
                }
            } else {
                let (i, j) = choose|i: int, j: int| 0 <= i < s.len() && 0 <= j < s.len() && #[trigger] s[i] == #[trigger] s[j] && i != j;
                assert(d@.encoders[i].name == d@.encoders[j].name);
            }
        }
    }
    let n3 = connector_names(&d.connectors);
    let u3 = all_distinct(&n3);
    proof {
        let s = n3.deep_view();
        assert forall|i: int| 0 <= i < d@.connectors.len() implies s[i] == #[trigger] d@.connectors[i].name by {}
        assert(u3 == (forall|i: int, j: int|
            0 <= i < d@.connectors.len() && 0 <= j < d@.connectors.len() && #[trigger] d@.connectors[i].name
                == #[trigger] d@.connectors[j].name ==> i == j)) by {
            if u3 {
                assert forall|i: int, j: int|
                    0 <= i < d@.connectors.len() && 0 <= j < d@.connectors.len() && #[trigger] d@.connectors[i].name
                        == #[trigger] d@.connectors[j].name implies i == j by {
                    assert(s[i] == s[j]);
                }
            } else {
                let (i, j) = choose|i: int, j: int| 0 <= i < s.len() && 0 <= j < s.len() && #[trigger] s[i] == #[trigger] s[j] && i != j;
                assert(d@.connectors[i].name == d@.connectors[j].name);
            }
        }
    }
    u0 && u1 && u2 && u3
}

} // verus!

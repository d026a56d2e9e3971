//! Removal: the order in which to delete everything under a device directory.
//!
//! The caller lists what is on disk, whatever state it is in (a device left
//! half-written by a failed materialization included), and deletes in the
//! order given: links as links, never through their targets.

use vstd::prelude::*;

verus! {

/// What kind of node an entry is.
#[derive(Clone, Copy, Debug, PartialEq, Eq, Structural)]
pub enum EntryKind {
    Dir,
    File,
    Link,
}

/// One node under the device directory; the empty path is the directory itself.
#[derive(Debug)]
pub struct TreeEntry {
    pub path: Vec<String>,
    pub kind: EntryKind,
}

pub open spec fn depth(entries: Seq<TreeEntry>, j: int) -> nat {
    entries[j].path@.len()
}

/// `order` lists each index of `entries` exactly once.
pub open spec fn is_permutation(order: Seq<usize>, n: nat) -> bool {
    &&& order.len() == n
    &&& forall|k: int| 0 <= k < order.len() ==> (order[k] as int) < n
    &&& forall|k1: int, k2: int|
        0 <= k1 < order.len() && 0 <= k2 < order.len() && k1 != k2 ==> order[k1] != order[k2]
}

/// Entries come deepest first, so everything below a directory goes before it.
pub open spec fn deepest_first(entries: Seq<TreeEntry>, order: Seq<usize>) -> bool {
    forall|k1: int, k2: int|
        0 <= k1 < k2 < order.len() ==> depth(entries, order[k1] as int) >= depth(
            entries,
            order[k2] as int,
        )
}

/// The order in which to delete the entries: each exactly once, every entry
/// after all entries deeper than it.
pub fn removal_order(entries: &Vec<TreeEntry>) -> (r: Vec<usize>)
    ensures
        is_permutation(r@, entries@.len()),
        deepest_first(entries@, r@),
{
    let n = entries.len();
    let mut max_depth: usize = 0;
    let mut i: usize = 0;
    while i < n
        invariant
            n == entries@.len(),
            i <= n,
            forall|j: int| 0 <= j < i ==> depth(entries@, j) <= max_depth,
        decreases n - i,
    {
        if entries[i].path.len() > max_depth {
            max_depth = entries[i].path.len();
        }
        i = i + 1;
    }
    let mut r: Vec<usize> = Vec::new();
    let mut level: usize = max_depth;
    loop
        invariant_except_break
            forall|k: int| 0 <= k < r@.len() ==> depth(entries@, r@[k] as int) > level,
            forall|j: int| 0 <= j < n && depth(entries@, j) > level ==> r@.contains(j as usize),
        invariant
            n == entries@.len(),
            level <= max_depth,
            forall|j: int| 0 <= j < n ==> depth(entries@, j) <= max_depth,
            forall|k: int| 0 <= k < r@.len() ==> (r@[k] as int) < n,
            forall|k1: int, k2: int| 0 <= k1 < r@.len() && 0 <= k2 < r@.len() && k1 != k2 ==> r@[k1] != r@[k2],
            deepest_first(entries@, r@),
        ensures
            forall|k: int| 0 <= k < r@.len() ==> (r@[k] as int) < n,
            forall|k1: int, k2: int| 0 <= k1 < r@.len() && 0 <= k2 < r@.len() && k1 != k2 ==> r@[k1] != r@[k2],
            deepest_first(entries@, r@),
            forall|j: usize| (j as int) < n ==> r@.contains(j),
        decreases level,
    {
        let mut i: usize = 0;
        while i < n
            invariant
                n == entries@.len(),
                i <= n,
                forall|k: int| 0 <= k < r@.len() ==> (r@[k] as int) < n && depth(entries@, r@[k] as int) >= level,
                forall|k: int| 0 <= k < r@.len() && depth(entries@, r@[k] as int) == level ==> r@[k] < i,
                forall|k1: int, k2: int| 0 <= k1 < r@.len() && 0 <= k2 < r@.len() && k1 != k2 ==> r@[k1] != r@[k2],
                deepest_first(entries@, r@),
                forall|j: int|
                    0 <= j < n && (depth(entries@, j) > level || (depth(entries@, j) == level && j < i))
                        ==> r@.contains(j as usize),
            decreases n - i,
        {
            if entries[i].path.len() == level {
                let ghost before = r@;
                r.push(i);
                proof {
                    assert forall|j: int|
                        0 <= j < n && (depth(entries@, j) > level || (depth(entries@, j) == level && j < i + 1))
                            implies r@.contains(j as usize) by {
                        if j == i {
                            assert(r@[r@.len() - 1] == i);
                        } else {
                            let k = choose|k: int| 0 <= k < before.len() && before[k] == j as usize;
                            assert(r@[k] == j as usize);
                        }
                    }
                }
            }
            i = i + 1;
        }
        if level == 0 {
            proof {
                assert forall|j: usize| (j as int) < n implies r@.contains(j) by {
                    assert(depth(entries@, j as int) > level || depth(entries@, j as int) == level);
                    assert(r@.contains((j as int) as usize));
                }
            }
            break;
        }
        level = level - 1;
    }
    proof {
        assert forall|k: int| 0 <= k < r@.len() implies (r@[k] as int) < n by {}
        let s = r@.to_set();
        let full = Set::new(|j: usize| (j as int) < n);
        assert(s =~= full) by {
            assert forall|j: usize| full.contains(j) implies s.contains(j) by {
                assert(r@.contains(j));
            }
        }
        assert(r@.no_duplicates());
        r@.unique_seq_to_set();
        lemma_range_set_len(n as nat);
        assert(full =~= Set::new(|j: usize| (j as int) < n as int));
    }
    r
}

proof fn lemma_range_set_len(n: nat)
    requires
        n <= usize::MAX + 1,
    ensures
        Set::new(|j: usize| (j as int) < n as int).finite(),
        Set::new(|j: usize| (j as int) < n as int).len() == n,
    decreases n,
{
    let s = Set::new(|j: usize| (j as int) < n as int);
    if n == 0 {
        assert(s =~= Set::empty());
    } else {
        lemma_range_set_len((n - 1) as nat);
        let t = Set::new(|j: usize| (j as int) < (n - 1) as int);
        assert(s =~= t.insert((n - 1) as usize));
    }
}

} // verus!

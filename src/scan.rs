//! Building a snapshot from what a walk of the tree reported.

use vstd::prelude::*;
use crate::path::{component_views, hidden_name, is_hidden, join_components, join_path};
use crate::snapshot::{FileMeta, FileRecord, Snapshot};

verus! {

/// A regular file met by the walk: its path below the root, as components,
/// and its size and modification time, or `None` where reading them failed.
#[derive(Clone, Debug)]
pub struct ScanEntry {
    pub components: Vec<String>,
    pub stat: Option<FileMeta>,
}

/// No component of the path is hidden.
pub open spec fn visible(parts: Seq<Seq<char>>) -> bool {
    forall|i: int| 0 <= i < parts.len() ==> !hidden_name(#[trigger] parts[i])
}

pub open spec fn entry_key(e: ScanEntry) -> Seq<char> {
    join_components(component_views(e.components@))
}

/// An entry goes into the snapshot when no part of its path is hidden and
/// its metadata could be read.
pub open spec fn entry_kept(e: ScanEntry) -> bool {
    visible(component_views(e.components@)) && e.stat is Some
}

/// The snapshot that a walk's entries stand for; where a path comes twice
/// the first entry stands.
pub open spec fn scan_map(es: Seq<ScanEntry>) -> Map<Seq<char>, FileMeta>
    decreases es.len(),
{
    if es.len() == 0 {
        Map::empty()
    } else {
        let m = scan_map(es.drop_last());
        let e = es.last();
        if entry_kept(e) && !m.contains_key(entry_key(e)) {
            m.insert(entry_key(e), e.stat->Some_0)
        } else {
            m
        }
    }
}

/// Tells whether no component of `parts` is hidden.
pub fn all_visible(parts: &Vec<String>) -> (r: bool)
    ensures
        r == visible(component_views(parts@)),
{
    let mut i: usize = 0;
    while i < parts.len()
        invariant
            i <= parts@.len(),
            forall|k: int| 0 <= k < i ==> !hidden_name(#[trigger] component_views(parts@)[k]),
        decreases parts@.len() - i,
    {
        if is_hidden(parts[i].as_str()) {
            assert(hidden_name(component_views(parts@)[i as int]));
            return false;
        }
        i = i + 1;
    }
    true
}

/// The snapshot of a walk: each visible file whose metadata was read, keyed
/// by its canonical relative path. Files whose metadata failed are left out.
pub fn build_snapshot(entries: &Vec<ScanEntry>) -> (r: Snapshot)
    ensures
        r.wf(),
        r@ == scan_map(entries@),
{
    let mut snap = Snapshot::new();
    let mut i: usize = 0;
    while i < entries.len()
        invariant
            i <= entries@.len(),
            snap.wf(),
            snap@ == scan_map(entries@.take(i as int)),
        decreases entries@.len() - i,
    {
        let e = &entries[i];
        proof {
            assert(entries@.take(i + 1).drop_last() =~= entries@.take(i as int));
            assert(entries@.take(i + 1).last() == entries@[i as int]);
        }
        if all_visible(&e.components) {
            match e.stat {
                Some(m) => {
                    let path = join_path(&e.components, 0);
                    proof {
                        assert(component_views(e.components@).skip(0) =~= component_views(e.components@));
                    }
                    snap.insert(FileRecord { path, size: m.size, modified_at: m.modified_at });
                },
                None => {},
            }
        }
        i = i + 1;
    }
    proof {
        assert(entries@.take(i as int) =~= entries@);
    }
    snap
}

} // verus!

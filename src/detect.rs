//! Change detection: which files of the current snapshot are new or modified
//! relative to the baseline.

use vstd::prelude::*;
use crate::snapshot::{lemma_records_map_at, record_paths, sorted_paths, FileMeta, Snapshot};

verus! {

/// `p` is in `current` and either absent from `baseline` or recorded there
/// with another size or modification time. Removed files are no change.
pub open spec fn changed(
    baseline: Map<Seq<char>, FileMeta>,
    current: Map<Seq<char>, FileMeta>,
    p: Seq<char>,
) -> bool {
    current.contains_key(p) && (!baseline.contains_key(p) || baseline[p] != current[p])
}

/// The paths that a run has to send.
pub open spec fn change_set(
    baseline: Map<Seq<char>, FileMeta>,
    current: Map<Seq<char>, FileMeta>,
) -> Set<Seq<char>> {
    Set::new(|p: Seq<char>| changed(baseline, current, p))
}

/// The views of a list of paths.
pub open spec fn path_views(v: Seq<String>) -> Seq<Seq<char>> {
    v.map_values(|s: String| s@)
}

/// The change set of `new` against `old`, in ascending path order.
pub fn diff_metadata(old: &Snapshot, new: &Snapshot) -> (r: Vec<String>)
    requires
        old.wf(),
        new.wf(),
    ensures
        sorted_paths(path_views(r@)),
        path_views(r@).to_set() == change_set(old@, new@),
{
    let ghost recs = new.records@;
    let mut out: Vec<String> = Vec::new();
    let mut i: usize = 0;
    while i < new.records.len()
        invariant
            old.wf(),
            new.wf(),
            recs == new.records@,
            i <= recs.len(),
            sorted_paths(path_views(out@)),
            forall|k: int| 0 <= k < out@.len() ==> changed(old@, new@, #[trigger] out@[k]@),
            forall|k: int| 0 <= k < out@.len() ==> exists|j: int| 0 <= j < i && (#[trigger] out@[k])@ == recs[j].path@,
            forall|j: int| 0 <= j < i && changed(old@, new@, (#[trigger] recs[j]).path@) ==>
                exists|k: int| 0 <= k < out@.len() && (#[trigger] out@[k])@ == recs[j].path@,
        decreases recs.len() - i,
    {
        let rec = &new.records[i];
        proof {
            lemma_records_map_at(recs, i as int);
        }
        let is_changed = match old.get(rec.path.as_str()) {
            None => true,
            Some(m) => m.size != rec.size || m.modified_at != rec.modified_at,
        };
        assert(is_changed == changed(old@, new@, rec.path@));
        if is_changed {
            let ghost before = out@;
            out.push(rec.path.clone());
            proof {
                assert forall|a: int, b: int| 0 <= a < b < out@.len() implies
                    crate::path::seq_lt(#[trigger] path_views(out@)[a], #[trigger] path_views(out@)[b]) by {
                    if b == before.len() {
                        let j = choose|j: int| 0 <= j < i && (#[trigger] before[a])@ == recs[j].path@;
                        assert(record_paths(recs)[j] == recs[j].path@);
                        assert(record_paths(recs)[i as int] == recs[i as int].path@);
                    } else {
                        assert(path_views(before)[a] == path_views(out@)[a]);
                        assert(path_views(before)[b] == path_views(out@)[b]);
                    }
                }
                assert forall|k: int| 0 <= k < out@.len() implies exists|j: int| 0 <= j < i + 1 && (#[trigger] out@[k])@ == recs[j].path@ by {
                    if k < before.len() {
                        assert(out@[k] == before[k]);
                    } else {
                        assert(out@[k]@ == recs[i as int].path@);
                    }
                }
                assert forall|j: int| 0 <= j < i + 1 && changed(old@, new@, (#[trigger] recs[j]).path@) implies
                    exists|k: int| 0 <= k < out@.len() && (#[trigger] out@[k])@ == recs[j].path@ by {
                    if j < i {
                        let k = choose|k: int| 0 <= k < before.len() && (#[trigger] before[k])@ == recs[j].path@;
                        assert(out@[k] == before[k]);
                    } else {
                        assert(out@[before.len() as int]@ == recs[j].path@);
                    }
                }
            }
        }
        i = i + 1;
    }
    proof {
        let want = change_set(old@, new@);
        assert forall|p: Seq<char>| path_views(out@).to_set().contains(p) <==> want.contains(p) by {
            if path_views(out@).to_set().contains(p) {
                let k = choose|k: int| 0 <= k < path_views(out@).len() && path_views(out@)[k] == p;
                assert(out@[k]@ == p);
            }
            if want.contains(p) {
                let j = crate::snapshot::index_of(recs, p);
                let k = choose|k: int| 0 <= k < out@.len() && (#[trigger] out@[k])@ == recs[j].path@;
                assert(path_views(out@)[k] == p);
            }
        }
        assert(path_views(out@).to_set() =~= want);
    }
    out
}

/// A snapshot holds no change against itself.
pub proof fn lemma_no_change_against_itself(s: Map<Seq<char>, FileMeta>)
    ensures
        change_set(s, s) == Set::<Seq<char>>::empty(),
{
    assert(change_set(s, s) =~= Set::<Seq<char>>::empty());
}

} // verus!

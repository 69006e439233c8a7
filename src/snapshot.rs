//! Snapshots: what a scan of the tree found, keyed by relative path.

use vstd::prelude::*;
use crate::path::{compare_paths, lemma_lt_irreflexive, lemma_lt_transitive, seq_lt, PathOrder};

verus! {

/// Size and modification time of one file, the two facts change detection reads.
#[derive(Clone, Copy, Debug, PartialEq, Eq)]
pub struct FileMeta {
    pub size: u64,
    /// Milliseconds since the Unix epoch.
    pub modified_at: u64,
}

/// One regular file of the tree.
#[derive(Clone, Debug)]
pub struct FileRecord {
    /// Path below the root, components joined by `/`.
    pub path: String,
    pub size: u64,
    /// Milliseconds since the Unix epoch.
    pub modified_at: u64,
}

impl FileRecord {
    pub open spec fn meta(&self) -> FileMeta {
        FileMeta { size: self.size, modified_at: self.modified_at }
    }

    pub fn file_meta(&self) -> (r: FileMeta)
        ensures
            r == self.meta(),
    {
        FileMeta { size: self.size, modified_at: self.modified_at }
    }
}

/// Strictly ascending in path order (and so free of repeated paths).
pub open spec fn sorted_paths(s: Seq<Seq<char>>) -> bool {
    forall|i: int, j: int| 0 <= i < j < s.len() ==> seq_lt(#[trigger] s[i], #[trigger] s[j])
}

pub open spec fn record_paths(r: Seq<FileRecord>) -> Seq<Seq<char>> {
    r.map_values(|x: FileRecord| x.path@)
}

pub open spec fn has_path(r: Seq<FileRecord>, p: Seq<char>) -> bool {
    exists|i: int| 0 <= i < r.len() && (#[trigger] r[i]).path@ == p
}

/// An index at which `p` stands in `r`, where it stands anywhere.
pub open spec fn index_of(r: Seq<FileRecord>, p: Seq<char>) -> int {
    choose|i: int| 0 <= i < r.len() && (#[trigger] r[i]).path@ == p
}

/// The mapping that a list of records stands for.
pub open spec fn records_map(r: Seq<FileRecord>) -> Map<Seq<char>, FileMeta> {
    Map::new(
        |p: Seq<char>| has_path(r, p),
        |p: Seq<char>| r[index_of(r, p)].meta(),
    )
}

/// A point-in-time mapping from relative path to size and modification
/// time, held as records in ascending path order.
#[derive(Clone, Debug)]
pub struct Snapshot {
    pub records: Vec<FileRecord>,
}

impl View for Snapshot {
    type V = Map<Seq<char>, FileMeta>;

    open spec fn view(&self) -> Map<Seq<char>, FileMeta> {
        records_map(self.records@)
    }
}

pub proof fn lemma_sorted_distinct(s: Seq<Seq<char>>, i: int, j: int)
    requires
        sorted_paths(s),
        0 <= i < s.len(),
        0 <= j < s.len(),
        i != j,
    ensures
        s[i] != s[j],
{
    if i < j {
        assert(seq_lt(s[i], s[j]));
        lemma_lt_irreflexive(s[i]);
    } else {
        assert(seq_lt(s[j], s[i]));
        lemma_lt_irreflexive(s[j]);
    }
}

/// In sorted records, the record at `k` is what the mapping holds for its path.
pub proof fn lemma_records_map_at(r: Seq<FileRecord>, k: int)
    requires
        sorted_paths(record_paths(r)),
        0 <= k < r.len(),
    ensures
        records_map(r).contains_key(r[k].path@),
        records_map(r)[r[k].path@] == r[k].meta(),
{
    let p = r[k].path@;
    assert(has_path(r, p));
    let c = index_of(r, p);
    if c != k {
        lemma_sorted_distinct(record_paths(r), c, k);
        assert(record_paths(r)[c] == r[c].path@);
        assert(record_paths(r)[k] == r[k].path@);
    }
    assert(c == k);
    assert(records_map(r)[p] == r[c].meta());
}

impl Snapshot {
    /// Well formed: records in strictly ascending path order.
    pub open spec fn wf(&self) -> bool {
        sorted_paths(record_paths(self.records@))
    }

    /// The empty snapshot.
    pub fn new() -> (r: Snapshot)
        ensures
            r.wf(),
            r@ == Map::<Seq<char>, FileMeta>::empty(),
    {
        let r = Snapshot { records: Vec::new() };
        assert(r@ =~= Map::<Seq<char>, FileMeta>::empty());
        r
    }

    /// Number of files in the snapshot.
    pub fn len(&self) -> (n: usize)
        requires
            self.wf(),
        ensures
            n == self.records@.len(),
            n == self@.dom().len(),
    {
        proof {
            self.lemma_dom_len();
        }
        self.records.len()
    }

    proof fn lemma_dom_len(&self)
        requires
            self.wf(),
        ensures
            self@.dom() == record_paths(self.records@).to_set(),
            self@.dom().len() == self.records@.len(),
    {
        let ps = record_paths(self.records@);
        assert(self@.dom() =~= ps.to_set()) by {
            assert forall|p: Seq<char>| self@.dom().contains(p) implies ps.to_set().contains(p) by {
                let i = choose|i: int| 0 <= i < self.records@.len() && (#[trigger] self.records@[i]).path@ == p;
                assert(ps[i] == p);
            }
            assert forall|p: Seq<char>| ps.to_set().contains(p) implies self@.dom().contains(p) by {
                let i = choose|i: int| 0 <= i < ps.len() && ps[i] == p;
                assert(self.records@[i].path@ == p);
            }
        }
        assert(ps.no_duplicates()) by {
            assert forall|i: int, j: int| 0 <= i < ps.len() && 0 <= j < ps.len() && i != j implies ps[i] != ps[j] by {
                lemma_sorted_distinct(ps, i, j);
            }
        }
        ps.unique_seq_to_set();
    }

    /// Where `path` stands among the records: its index when present, else
    /// the index at which it would be inserted.
    fn locate(&self, path: &str) -> (r: (bool, usize))
        requires
            self.wf(),
        ensures
            r.1 <= self.records@.len(),
            r.0 ==> r.1 < self.records@.len() && self.records@[r.1 as int].path@ == path@,
            !r.0 ==> (forall|i: int| 0 <= i < r.1 ==> seq_lt(#[trigger] self.records@[i].path@, path@)),
            !r.0 ==> (forall|i: int| r.1 <= i < self.records@.len() ==> seq_lt(path@, #[trigger] self.records@[i].path@)),
    {
        let ghost ps = record_paths(self.records@);
        let mut lo: usize = 0;
        let mut hi: usize = self.records.len();
        while lo < hi
            invariant
                self.wf(),
                ps == record_paths(self.records@),
                lo <= hi <= self.records@.len(),
                forall|i: int| 0 <= i < lo ==> seq_lt(#[trigger] self.records@[i].path@, path@),
                forall|i: int| hi <= i < self.records@.len() ==> seq_lt(path@, #[trigger] self.records@[i].path@),
            decreases hi - lo,
        {
            let mid = lo + (hi - lo) / 2;
            match compare_paths(self.records[mid].path.as_str(), path) {
                PathOrder::Same => {
                    return (true, mid);
                },
                PathOrder::Before => {
                    proof {
                        assert forall|i: int| 0 <= i < mid + 1 implies seq_lt(#[trigger] self.records@[i].path@, path@) by {
                            if i < mid {
                                assert(seq_lt(ps[i], ps[mid as int]));
                                lemma_lt_transitive(self.records@[i].path@, self.records@[mid as int].path@, path@);
                            }
                        }
                    }
                    lo = mid + 1;
                },
                PathOrder::After => {
                    proof {
                        assert forall|i: int| mid <= i < self.records@.len() implies seq_lt(path@, #[trigger] self.records@[i].path@) by {
                            if i > mid {
                                assert(seq_lt(ps[mid as int], ps[i]));
                                lemma_lt_transitive(path@, self.records@[mid as int].path@, self.records@[i].path@);
                            }
                        }
                    }
                    hi = mid;
                },
            }
        }
        (false, lo)
    }

    /// Size and modification time recorded for `path`, if the snapshot holds it.
    pub fn get(&self, path: &str) -> (r: Option<FileMeta>)
        requires
            self.wf(),
        ensures
            r == (if self@.contains_key(path@) { Some(self@[path@]) } else { None::<FileMeta> }),
    {
        let (found, k) = self.locate(path);
        if found {
            proof {
                lemma_records_map_at(self.records@, k as int);
            }
            Some(self.records[k].file_meta())
        } else {
            proof {
                if self@.contains_key(path@) {
                    let i = choose|i: int| 0 <= i < self.records@.len() && (#[trigger] self.records@[i]).path@ == path@;
                    lemma_lt_irreflexive(path@);
                    if i < k {
                        assert(seq_lt(self.records@[i].path@, path@));
                    } else {
                        assert(seq_lt(path@, self.records@[i].path@));
                    }
                }
            }
            None
        }
    }

    /// Adds `rec` unless its path is already present; tells whether it was added.
    pub fn insert(&mut self, rec: FileRecord) -> (added: bool)
        requires
            old(self).wf(),
        ensures
            final(self).wf(),
            added == !old(self)@.contains_key(rec.path@),
            final(self)@ == (if added { old(self)@.insert(rec.path@, rec.meta()) } else { old(self)@ }),
    {
        let (found, k) = self.locate(rec.path.as_str());
        if found {
            proof {
                lemma_records_map_at(self.records@, k as int);
            }
            return false;
        }
        let ghost before = self.records@;
        let ghost p = rec.path@;
        let ghost m = rec.meta();
        proof {
            if records_map(before).contains_key(p) {
                let i = choose|i: int| 0 <= i < before.len() && (#[trigger] before[i]).path@ == p;
                lemma_lt_irreflexive(p);
                if i < k {
                    assert(seq_lt(before[i].path@, p));
                } else {
                    assert(seq_lt(p, before[i].path@));
                }
            }
        }
        self.records.insert(k, rec);
        let ghost after = self.records@;
        proof {
            assert(after == before.insert(k as int, rec));
            let ps = record_paths(after);
            assert forall|i: int, j: int| 0 <= i < j < ps.len() implies seq_lt(#[trigger] ps[i], #[trigger] ps[j]) by {
                let qs = record_paths(before);
                if j < k {
                    assert(seq_lt(qs[i], qs[j]));
                } else if j == k {
                    assert(seq_lt(before[i].path@, p));
                } else if i < k {
                    assert(seq_lt(before[i].path@, p));
                    assert(seq_lt(p, before[j - 1].path@));
                    lemma_lt_transitive(before[i].path@, p, before[j - 1].path@);
                } else if i == k {
                    assert(seq_lt(p, before[j - 1].path@));
                } else {
                    assert(seq_lt(qs[i - 1], qs[j - 1]));
                }
            }
            let want = records_map(before).insert(p, m);
            assert forall|q: Seq<char>| #[trigger] records_map(after).contains_key(q) <==> want.contains_key(q) by {
                if has_path(before, q) {
                    let i = choose|i: int| 0 <= i < before.len() && (#[trigger] before[i]).path@ == q;
                    if i < k {
                        assert(after[i].path@ == q);
                    } else {
                        assert(after[i + 1].path@ == q);
                    }
                }
                if q == p {
                    assert(after[k as int].path@ == q);
                }
                if has_path(after, q) {
                    let i = choose|i: int| 0 <= i < after.len() && (#[trigger] after[i]).path@ == q;
                    if i < k {
                        assert(before[i].path@ == q);
                    } else if i > k {
                        assert(before[i - 1].path@ == q);
                    }
                }
            }
            assert forall|q: Seq<char>| #[trigger] want.contains_key(q) implies records_map(after)[q] == want[q] by {
                if q == p {
                    lemma_records_map_at(after, k as int);
                } else {
                    let i = choose|i: int| 0 <= i < before.len() && (#[trigger] before[i]).path@ == q;
                    lemma_records_map_at(before, i);
                    if i < k {
                        lemma_records_map_at(after, i);
                    } else {
                        lemma_records_map_at(after, i + 1);
                    }
                }
            }
            assert(records_map(after) =~= want);
        }
        true
    }
}

} // verus!

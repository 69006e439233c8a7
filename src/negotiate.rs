//! Negotiation: trimming the change set to what the remote side still lacks.

use vstd::prelude::*;
use crate::detect::path_views;
use crate::path::seq_lt;
use crate::snapshot::sorted_paths;

verus! {

/// The paths of `changes` that `needed` names, in the order of `changes`.
pub open spec fn keep_needed(changes: Seq<Seq<char>>, needed: Set<Seq<char>>) -> Seq<Seq<char>>
    decreases changes.len(),
{
    if changes.len() == 0 {
        Seq::empty()
    } else {
        let r = keep_needed(changes.drop_last(), needed);
        if needed.contains(changes.last()) {
            r.push(changes.last())
        } else {
            r
        }
    }
}

/// What is kept is taken from `changes`.
pub proof fn lemma_keep_needed_from(changes: Seq<Seq<char>>, needed: Set<Seq<char>>, k: int)
    requires
        0 <= k < keep_needed(changes, needed).len(),
    ensures
        changes.contains(keep_needed(changes, needed)[k]),
    decreases changes.len(),
{
    let h = changes.drop_last();
    let r = keep_needed(h, needed);
    if k < r.len() {
        lemma_keep_needed_from(h, needed, k);
        let j = choose|j: int| 0 <= j < h.len() && h[j] == r[k];
        assert(changes[j] == h[j]);
    } else {
        assert(changes[changes.len() - 1] == changes.last());
    }
}

/// Trimming keeps the ascending order of the changes.
pub proof fn lemma_keep_needed_sorted(changes: Seq<Seq<char>>, needed: Set<Seq<char>>)
    requires
        sorted_paths(changes),
    ensures
        sorted_paths(keep_needed(changes, needed)),
    decreases changes.len(),
{
    if changes.len() > 0 {
        let h = changes.drop_last();
        assert(sorted_paths(h)) by {
            assert forall|i: int, j: int| 0 <= i < j < h.len() implies seq_lt(#[trigger] h[i], #[trigger] h[j]) by {
                assert(h[i] == changes[i] && h[j] == changes[j]);
            }
        }
        lemma_keep_needed_sorted(h, needed);
        let r = keep_needed(h, needed);
        if needed.contains(changes.last()) {
            let t = r.push(changes.last());
            assert forall|i: int, j: int| 0 <= i < j < t.len() implies seq_lt(#[trigger] t[i], #[trigger] t[j]) by {
                if j == r.len() {
                    lemma_keep_needed_from(h, needed, i);
                    let m = choose|m: int| 0 <= m < h.len() && h[m] == r[i];
                    assert(changes[m] == h[m]);
                    assert(seq_lt(changes[m], changes[changes.len() - 1]));
                } else {
                    assert(t[i] == r[i] && t[j] == r[j]);
                }
            }
        }
    }
}

/// Tells whether `list` holds `p`.
pub fn contains_path(list: &Vec<String>, p: &String) -> (r: bool)
    ensures
        r == path_views(list@).contains(p@),
{
    let mut i: usize = 0;
    while i < list.len()
        invariant
            i <= list@.len(),
            forall|k: int| 0 <= k < i ==> (#[trigger] list@[k])@ != p@,
        decreases list@.len() - i,
    {
        if list[i] == *p {
            assert(path_views(list@)[i as int] == p@);
            return true;
        }
        i = i + 1;
    }
    proof {
        if path_views(list@).contains(p@) {
            let k = choose|k: int| 0 <= k < path_views(list@).len() && path_views(list@)[k] == p@;
            assert(list@[k]@ == p@);
        }
    }
    false
}

/// The local changes that the remote answer names, in their local order.
pub fn intersect_needed(changes: &Vec<String>, needed: &Vec<String>) -> (r: Vec<String>)
    ensures
        path_views(r@) == keep_needed(path_views(changes@), path_views(needed@).to_set()),
{
    let ghost want = path_views(needed@).to_set();
    let mut out: Vec<String> = Vec::new();
    let mut i: usize = 0;
    while i < changes.len()
        invariant
            i <= changes@.len(),
            want == path_views(needed@).to_set(),
            path_views(out@) == keep_needed(path_views(changes@).take(i as int), want),
        decreases changes@.len() - i,
    {
        let ghost cs = path_views(changes@).take(i + 1);
        proof {
            assert(cs.drop_last() =~= path_views(changes@).take(i as int));
            assert(cs.last() == changes@[i as int]@);
        }
        if contains_path(needed, &changes[i]) {
            out.push(changes[i].clone());
            proof {
                assert(path_views(out@) =~= keep_needed(path_views(changes@).take(i as int), want).push(changes@[i as int]@));
            }
        }
        i = i + 1;
    }
    proof {
        assert(path_views(changes@).take(i as int) =~= path_views(changes@));
    }
    out
}

/// The paths to upload: the local change set trimmed by the remote's answer,
/// or the whole change set where the negotiation failed (`None`).
pub fn upload_set(changes: &Vec<String>, answer: Option<&Vec<String>>) -> (r: Vec<String>)
    ensures
        answer is None ==> path_views(r@) == path_views(changes@),
        answer matches Some(needed) ==> path_views(r@) == keep_needed(
            path_views(changes@),
            path_views(needed@).to_set(),
        ),
{
    match answer {
        Some(needed) => intersect_needed(changes, needed),
        None => {
            let r = changes.clone();
            proof {
                assert(path_views(r@) =~= path_views(changes@));
            }
            r
        },
    }
}

/// The paths that a negotiation response body lists under `needed_files`,
/// or `None` where the body is not a JSON object with such a list of strings.
pub uninterp spec fn needed_files_in(body: Seq<u8>) -> Option<Seq<Seq<char>>>;

/// Relies on `serde_json::from_slice` to read the response body as JSON, and
/// on `Value::get`, `Value::as_array` and `Value::as_str` to take out the
/// strings of its `needed_files` array.
#[verifier::external_body]
fn decode_needed_files(body: &[u8]) -> (r: Option<Vec<String>>)
    ensures
        r is None ==> needed_files_in(body@) is None,
        r matches Some(v) ==> needed_files_in(body@) == Some(path_views(v@)),
{
    let value: serde_json::Value = serde_json::from_slice(body).ok()?;
    let list = value.get("needed_files")?.as_array()?;
    list.iter().map(|v| v.as_str().map(String::from)).collect()
}

/// The remote's answer: what a response body lists, or `None` where the
/// call failed (`body` is `None`) or the body could not be read.
pub open spec fn answer_of(body: Option<Vec<u8>>) -> Option<Seq<Seq<char>>> {
    match body {
        Some(b) => needed_files_in(b@),
        None => None,
    }
}

/// The paths to upload after a negotiation round trip whose response body
/// is `body` (`None` where the call failed): the changes that the answer
/// names, or all of them where there is no readable answer.
pub fn upload_set_from_response(changes: &Vec<String>, body: &Option<Vec<u8>>) -> (r: Vec<String>)
    ensures
        answer_of(*body) is None ==> path_views(r@) == path_views(changes@),
        answer_of(*body) matches Some(n) ==> path_views(r@) == keep_needed(path_views(changes@), n.to_set()),
        sorted_paths(path_views(changes@)) ==> sorted_paths(path_views(r@)),
{
    proof {
        if let Some(n) = answer_of(*body) {
            if sorted_paths(path_views(changes@)) {
                lemma_keep_needed_sorted(path_views(changes@), n.to_set());
            }
        }
    }
    let answer = match body {
        Some(b) => decode_needed_files(b.as_slice()),
        None => None,
    };
    match answer {
        Some(n) => upload_set(changes, Some(&n)),
        None => upload_set(changes, None),
    }
}

} // verus!

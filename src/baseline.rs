//! The baseline's text form: one line per file, `path`, modification time
//! and size separated by tabs, each line ended by a newline, in ascending
//! path order. Both numbers are written in full, so nothing is lost.

use vstd::prelude::*;
use crate::decimal::{
    canonical_decimal, decimal, digits_value, is_digit, lemma_canonical_is_decimal,
    lemma_decimal_digits, lemma_decimal_reads_back, parse_decimal, push_decimal,
};
use crate::detect::path_views;
use crate::path::{compare_paths, lemma_lt_transitive, seq_lt, PathOrder};
use crate::snapshot::{record_paths, sorted_paths, FileRecord, Snapshot};
use crate::text::{join_with, lemma_join_free_of, lemma_join_push, lemma_join_unique, pieces_free_of, split_on};

verus! {

/// Why a stored baseline could not be read.
#[derive(Clone, Copy, Debug, PartialEq, Eq)]
pub enum BaselineError {
    /// The text does not end with a newline.
    Unterminated,
    /// The line (counted from zero) is not three fields of path and numbers.
    Malformed { line: usize },
    /// The line's path does not come after the path of the line before.
    OutOfOrder { line: usize },
}

/// A path can be stored when it is not empty and holds no tab or newline.
pub open spec fn storable_path(p: Seq<char>) -> bool {
    p.len() > 0 && !p.contains('\t') && !p.contains('\n')
}

pub open spec fn all_storable(rs: Seq<FileRecord>) -> bool {
    forall|i: int| 0 <= i < rs.len() ==> storable_path(#[trigger] rs[i].path@)
}

/// Records that a baseline text can hold: paths storable and ascending.
pub open spec fn valid_records(rs: Seq<FileRecord>) -> bool {
    sorted_paths(record_paths(rs)) && all_storable(rs)
}

pub open spec fn record_fields(r: FileRecord) -> Seq<Seq<char>> {
    seq![r.path@, decimal(r.modified_at as nat), decimal(r.size as nat)]
}

pub open spec fn record_line(r: FileRecord) -> Seq<char> {
    join_with(record_fields(r), '\t')
}

/// The stored text of a list of records.
pub open spec fn baseline_text(rs: Seq<FileRecord>) -> Seq<char>
    decreases rs.len(),
{
    if rs.len() == 0 {
        Seq::empty()
    } else {
        baseline_text(rs.drop_last()) + record_line(rs.last()) + seq!['\n']
    }
}

/// What a record holds, as values.
pub open spec fn record_view(r: FileRecord) -> (Seq<char>, u64, u64) {
    (r.path@, r.size, r.modified_at)
}

pub open spec fn record_lines(rs: Seq<FileRecord>) -> Seq<Seq<char>> {
    rs.map_values(|r: FileRecord| record_line(r))
}

proof fn lemma_text_as_lines(rs: Seq<FileRecord>)
    ensures
        baseline_text(rs) == join_with(record_lines(rs).push(Seq::empty()), '\n'),
    decreases rs.len(),
{
    let e = Seq::<char>::empty();
    if rs.len() == 0 {
        assert(record_lines(rs).push(e) =~= seq![e]);
    } else {
        let h = rs.drop_last();
        lemma_text_as_lines(h);
        assert(record_lines(rs) =~= record_lines(h).push(record_line(rs.last())));
        lemma_join_push(record_lines(rs), e, '\n');
        if h.len() == 0 {
            assert(record_lines(rs) =~= seq![record_line(rs.last())]);
            assert(baseline_text(h) =~= e);
        } else {
            lemma_join_push(record_lines(h), record_line(rs.last()), '\n');
            lemma_join_push(record_lines(h), e, '\n');
        }
        assert(baseline_text(rs) =~= join_with(record_lines(rs).push(e), '\n'));
    }
}

proof fn lemma_fields_free(r: FileRecord, c: char)
    requires
        storable_path(r.path@),
        c == '\t' || c == '\n',
    ensures
        pieces_free_of(record_fields(r), c),
{
    lemma_decimal_digits(r.modified_at as nat, c);
    lemma_decimal_digits(r.size as nat, c);
}

proof fn lemma_lines_free(rs: Seq<FileRecord>)
    requires
        all_storable(rs),
    ensures
        pieces_free_of(record_lines(rs).push(Seq::empty()), '\n'),
{
    assert forall|i: int| 0 <= i < rs.len() implies !(#[trigger] record_lines(rs)[i]).contains('\n') by {
        lemma_fields_free(rs[i], '\n');
        lemma_join_free_of(record_fields(rs[i]), '\t', '\n');
    }
    assert forall|i: int| 0 <= i < rs.len() + 1 implies !(#[trigger] record_lines(rs).push(Seq::empty())[i]).contains('\n') by {
        if i < rs.len() {
            assert(record_lines(rs).push(Seq::empty())[i] == record_lines(rs)[i]);
        }
    }
}

/// Two lists of storable records with the same text hold the same values.
pub proof fn lemma_baseline_text_injective(a: Seq<FileRecord>, b: Seq<FileRecord>)
    requires
        all_storable(a),
        all_storable(b),
        baseline_text(a) == baseline_text(b),
    ensures
        a.map_values(|r: FileRecord| record_view(r)) == b.map_values(|r: FileRecord| record_view(r)),
{
    lemma_text_as_lines(a);
    lemma_text_as_lines(b);
    lemma_lines_free(a);
    lemma_lines_free(b);
    lemma_join_unique(record_lines(a).push(Seq::empty()), record_lines(b).push(Seq::empty()), '\n');
    assert(a.len() == b.len());
    assert forall|i: int| 0 <= i < a.len() implies record_view(a[i]) == record_view(b[i]) by {
        assert(record_lines(a).push(Seq::empty())[i] == record_lines(b).push(Seq::empty())[i]);
        lemma_fields_free(a[i], '\t');
        lemma_fields_free(b[i], '\t');
        lemma_join_unique(record_fields(a[i]), record_fields(b[i]), '\t');
        assert(record_fields(a[i])[1] == record_fields(b[i])[1]);
        assert(record_fields(a[i])[2] == record_fields(b[i])[2]);
        lemma_decimal_reads_back(a[i].modified_at as nat);
        lemma_decimal_reads_back(b[i].modified_at as nat);
        lemma_decimal_reads_back(a[i].size as nat);
        lemma_decimal_reads_back(b[i].size as nat);
    }
    assert(a.map_values(|r: FileRecord| record_view(r)) =~= b.map_values(|r: FileRecord| record_view(r)));
}

/// Tells whether a path can be stored.
pub fn is_storable(p: &str) -> (r: bool)
    ensures
        r == storable_path(p@),
{
    let n = p.unicode_len();
    if n == 0 {
        return false;
    }
    let mut i: usize = 0;
    while i < n
        invariant
            n == p@.len(),
            i <= n,
            forall|k: int| 0 <= k < i ==> p@[k] != '\t' && p@[k] != '\n',
        decreases n - i,
    {
        let c = p.get_char(i);
        if c == '\t' || c == '\n' {
            assert(p@[i as int] == c);
            return false;
        }
        i = i + 1;
    }
    true
}

/// The text to store for a snapshot; `None` where a path holds a tab or a
/// newline, which the text cannot carry.
pub fn render_baseline(s: &Snapshot) -> (r: Option<String>)
    requires
        s.wf(),
    ensures
        r is Some <==> all_storable(s.records@),
        r matches Some(t) ==> t@ == baseline_text(s.records@),
{
    let ghost rs = s.records@;
    let mut out = String::new();
    let mut i: usize = 0;
    while i < s.records.len()
        invariant
            rs == s.records@,
            i <= rs.len(),
            all_storable(rs.take(i as int)),
            out@ == baseline_text(rs.take(i as int)),
        decreases rs.len() - i,
    {
        let rec = &s.records[i];
        if !is_storable(rec.path.as_str()) {
            assert(!storable_path(rs[i as int].path@));
            return None;
        }
        proof {
            reveal_strlit("\t");
            reveal_strlit("\n");
        }
        out.append(rec.path.as_str());
        out.append("\t");
        push_decimal(&mut out, rec.modified_at);
        out.append("\t");
        push_decimal(&mut out, rec.size);
        out.append("\n");
        proof {
            let t = rs.take(i + 1);
            assert(t.drop_last() =~= rs.take(i as int));
            assert(t.last() == rs[i as int]);
            let f = record_fields(rs[i as int]);
            assert(f.drop_first().drop_first() =~= seq![f[2]]);
            assert(f.drop_first()[0] == f[1]);
            assert(join_with(f.drop_first().drop_first(), '\t') == f[2]);
            assert(join_with(f.drop_first(), '\t') == f[1] + seq!['\t'] + f[2]);
            assert(record_line(rs[i as int]) == f[0] + seq!['\t'] + (f[1] + seq!['\t'] + f[2]));
            assert(out@ =~= baseline_text(t));
        }
        i = i + 1;
    }
    proof {
        assert(rs.take(i as int) =~= rs);
    }
    Some(out)
}

/// Reads a stored baseline. It succeeds exactly on the texts that
/// `render_baseline` writes, and then gives back records with that text.
pub fn parse_baseline(text: &str) -> (r: Result<Snapshot, BaselineError>)
    ensures
        r matches Ok(s) ==> s.wf() && valid_records(s.records@) && baseline_text(s.records@) == text@,
        r is Ok <==> exists|rs: Seq<FileRecord>| valid_records(rs) && #[trigger] baseline_text(rs) == text@,
{
    let ghost w: Option<Seq<FileRecord>> = if exists|rs: Seq<FileRecord>| valid_records(rs) && #[trigger] baseline_text(rs) == text@ {
        Some(choose|rs: Seq<FileRecord>| valid_records(rs) && #[trigger] baseline_text(rs) == text@)
    } else {
        None
    };
    let lines = split_on(text, '\n');
    let ghost lv = path_views(lines@);
    proof {
        if let Some(rs) = w {
            lemma_text_as_lines(rs);
            lemma_lines_free(rs);
            lemma_join_unique(lv, record_lines(rs).push(Seq::empty()), '\n');
        }
    }
    let n = lines.len() - 1;
    if lines[n].unicode_len() != 0 {
        proof {
            if let Some(rs) = w {
                assert(lv[n as int] == record_lines(rs).push(Seq::empty())[n as int]);
            }
        }
        return Err(BaselineError::Unterminated);
    }
    let mut recs: Vec<FileRecord> = Vec::new();
    let mut i: usize = 0;
    while i < n
        invariant
            n + 1 == lines@.len(),
            lv == path_views(lines@),
            lv[n as int].len() == 0,
            pieces_free_of(lv, '\n'),
            i <= n,
            recs@.len() == i,
            valid_records(recs@),
            forall|k: int| 0 <= k < i ==> record_line(#[trigger] recs@[k]) == lv[k],
            w is None ==> !exists|rs: Seq<FileRecord>| valid_records(rs) && #[trigger] baseline_text(rs) == text@,
            w matches Some(rs) ==> lv == record_lines(rs).push(Seq::empty()) && valid_records(rs)
                && forall|k: int| 0 <= k < i ==> record_view(#[trigger] recs@[k]) == record_view(rs[k]),
        decreases n - i,
    {
        let fields = split_on(lines[i].as_str(), '\t');
        let ghost fv = path_views(fields@);
        proof {
            if let Some(rs) = w {
                assert(lv[i as int] == record_lines(rs).push(Seq::empty())[i as int]);
                assert(lv[i as int] == record_lines(rs)[i as int]);
                assert(lv[i as int] == lines@[i as int]@);
                assert(join_with(fv, '\t') == record_line(rs[i as int]));
                assert(valid_records(rs));
                assert(storable_path(rs[i as int].path@));
                lemma_fields_free(rs[i as int], '\t');
                lemma_join_unique(fv, record_fields(rs[i as int]), '\t');
                lemma_decimal_reads_back(rs[i as int].modified_at as nat);
                lemma_decimal_reads_back(rs[i as int].size as nat);
                assert(fv.len() == 3);
                assert(storable_path(rs[i as int].path@));
                assert(fields@[0]@ == fv[0]);
                assert(fields@[1]@ == fv[1]);
                assert(fields@[2]@ == fv[2]);
            }
        }
        if fields.len() != 3 {
            return Err(BaselineError::Malformed { line: i });
        }
        let path = fields[0].clone();
        if path.unicode_len() == 0 {
            proof {
                if let Some(rs) = w {
                    assert(path@ == fv[0]);
                    assert(fv[0] == record_fields(rs[i as int])[0]);
                }
            }
            return Err(BaselineError::Malformed { line: i });
        }
        let modified_at = match parse_decimal(fields[1].as_str()) {
            Some(v) => v,
            None => {
                proof {
                    if let Some(rs) = w {
                        assert(fv[1] == record_fields(rs[i as int])[1]);
                    }
                }
                return Err(BaselineError::Malformed { line: i });
            },
        };
        let size = match parse_decimal(fields[2].as_str()) {
            Some(v) => v,
            None => {
                proof {
                    if let Some(rs) = w {
                        assert(fv[2] == record_fields(rs[i as int])[2]);
                    }
                }
                return Err(BaselineError::Malformed { line: i });
            },
        };
        if i > 0 {
            match compare_paths(recs[i - 1].path.as_str(), path.as_str()) {
                PathOrder::Before => {},
                _ => {
                    proof {
                        if let Some(rs) = w {
                            assert(seq_lt(record_paths(rs)[i - 1], record_paths(rs)[i as int]));
                        }
                    }
                    return Err(BaselineError::OutOfOrder { line: i });
                },
            }
        }
        let rec = FileRecord { path, size, modified_at };
        proof {
            // what the line holds is the record's line
            lemma_canonical_is_decimal(fv[1]);
            lemma_canonical_is_decimal(fv[2]);
            assert(fv =~= record_fields(rec));
            // the line has no newline, so neither has the path
            assert(!lv[i as int].contains('\n')) by {
                assert(lines@[i as int]@ == lv[i as int]);
            }
            assert(fv.len() >= 1);
            lemma_join_free_of(fv, '\t', '\n');
            assert(!fv[0].contains('\n'));
            assert(!fv[0].contains('\t'));
            assert(storable_path(rec.path@));
        }
        let ghost before = recs@;
        recs.push(rec);
        proof {
            assert forall|a: int, b: int| 0 <= a < b < recs@.len() implies
                seq_lt(#[trigger] record_paths(recs@)[a], #[trigger] record_paths(recs@)[b]) by {
                if b < i {
                    assert(record_paths(before)[a] == record_paths(recs@)[a]);
                    assert(record_paths(before)[b] == record_paths(recs@)[b]);
                } else if a < i - 1 {
                    assert(seq_lt(record_paths(before)[a], record_paths(before)[i - 1]));
                    lemma_lt_transitive(before[a].path@, before[i - 1].path@, rec.path@);
                }
            }
            assert(forall|k: int| 0 <= k < i ==> recs@[k] == before[k]);
        }
        i = i + 1;
    }
    proof {
        assert forall|k: int| 0 <= k < lv.len() implies lv[k] == #[trigger] record_lines(recs@).push(Seq::empty())[k] by {
            if k < n {
                assert(record_line(recs@[k]) == lv[k]);
                assert(record_lines(recs@)[k] == record_line(recs@[k]));
            }
        }
        assert(lv =~= record_lines(recs@).push(Seq::empty()));
        lemma_text_as_lines(recs@);
        if w is None {
            assert(valid_records(recs@) && baseline_text(recs@) == text@);
        }
    }
    Ok(Snapshot { records: recs })
}

} // verus!

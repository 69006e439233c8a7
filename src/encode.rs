//! The encode task's decisions, file by file, and the manifest sent to the
//! remote for negotiation.

use vstd::prelude::*;
use crate::decimal::{decimal, push_decimal};
use crate::snapshot::{FileRecord, Snapshot};

verus! {

/// The encoder reports progress on every file whose index is a multiple of this.
pub const PROGRESS_EVERY: usize = 100;

/// What the encode task does next.
#[derive(Clone, Copy, Debug, PartialEq, Eq)]
pub enum EncodeStep {
    /// Add the file at `index` to the archive, reporting progress first when
    /// `report` is set.
    Append { index: usize, report: bool },
    /// The file at this index has gone since the scan: leave it out.
    Skip(usize),
    /// Every file was handled: close the archive and the buffer.
    Finish,
    /// The transport has cancelled: stop at once, reading no further file.
    Stop,
}

/// The encode task's next step, given the index of the next file, the
/// number of files, whether the transport cancelled, and whether the next
/// file is still there.
pub fn encode_step(next: usize, total: usize, cancelled: bool, present: bool) -> (r: EncodeStep)
    ensures
        cancelled ==> r == EncodeStep::Stop,
        !cancelled && next >= total ==> r == EncodeStep::Finish,
        !cancelled && next < total && !present ==> r == EncodeStep::Skip(next),
        !cancelled && next < total && present ==> r == (EncodeStep::Append {
            index: next,
            report: next % PROGRESS_EVERY == 0,
        }),
{
    if cancelled {
        EncodeStep::Stop
    } else if next >= total {
        EncodeStep::Finish
    } else if !present {
        EncodeStep::Skip(next)
    } else {
        EncodeStep::Append { index: next, report: next % PROGRESS_EVERY == 0 }
    }
}

/// The header line of the negotiation manifest.
pub open spec fn manifest_header() -> Seq<char> {
    seq!['p', 'a', 't', 'h', ',', 's', 'i', 'z', 'e', ',', 'm', 't', 'i', 'm', 'e', '\n']
}

/// One manifest line: path, size and modification time, comma separated.
pub open spec fn manifest_line(r: FileRecord) -> Seq<char> {
    r.path@ + seq![','] + decimal(r.size as nat) + seq![','] + decimal(r.modified_at as nat) + seq!['\n']
}

pub open spec fn manifest_body(rs: Seq<FileRecord>) -> Seq<char>
    decreases rs.len(),
{
    if rs.len() == 0 {
        Seq::empty()
    } else {
        manifest_body(rs.drop_last()) + manifest_line(rs.last())
    }
}

/// The manifest of a snapshot that the remote reads to say which files it
/// lacks: a header line, then one line per file in ascending path order.
pub fn render_manifest(s: &Snapshot) -> (r: String)
    ensures
        r@ == manifest_header() + manifest_body(s.records@),
{
    let ghost rs = s.records@;
    let mut out = String::new();
    proof {
        reveal_strlit("path,size,mtime\n");
    }
    out.append("path,size,mtime\n");
    proof {
        assert(out@ =~= manifest_header() + manifest_body(rs.take(0)));
    }
    let mut i: usize = 0;
    while i < s.records.len()
        invariant
            rs == s.records@,
            i <= rs.len(),
            out@ == manifest_header() + manifest_body(rs.take(i as int)),
        decreases rs.len() - i,
    {
        let rec = &s.records[i];
        proof {
            reveal_strlit(",");
            reveal_strlit("\n");
        }
        out.append(rec.path.as_str());
        out.append(",");
        push_decimal(&mut out, rec.size);
        out.append(",");
        push_decimal(&mut out, rec.modified_at);
        out.append("\n");
        proof {
            let t = rs.take(i + 1);
            assert(t.drop_last() =~= rs.take(i as int));
            assert(t.last() == rs[i as int]);
            assert(out@ =~= manifest_header() + manifest_body(t));
        }
        i = i + 1;
    }
    proof {
        assert(rs.take(i as int) =~= rs);
    }
    out
}

} // verus!

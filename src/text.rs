//! Text cut into pieces at a separator character.

use vstd::prelude::*;
use crate::detect::path_views;

verus! {

/// The pieces put together with `sep` between each two.
pub open spec fn join_with(parts: Seq<Seq<char>>, sep: char) -> Seq<char>
    decreases parts.len(),
{
    if parts.len() == 0 {
        Seq::empty()
    } else if parts.len() == 1 {
        parts[0]
    } else {
        parts[0] + seq![sep] + join_with(parts.drop_first(), sep)
    }
}

/// No piece holds `c`.
pub open spec fn pieces_free_of(parts: Seq<Seq<char>>, c: char) -> bool {
    forall|i: int| 0 <= i < parts.len() ==> !(#[trigger] parts[i]).contains(c)
}

/// Relies on `str::split` with a `char` pattern: the pieces of `text`
/// between the occurrences of `sep`, in order, at least one; put together
/// with `sep` they give `text` back, and none of them holds `sep`.
#[verifier::external_body]
pub(crate) fn split_on(text: &str, sep: char) -> (r: Vec<String>)
    ensures
        r@.len() >= 1,
        join_with(path_views(r@), sep) == text@,
        pieces_free_of(path_views(r@), sep),
{
    text.split(sep).map(String::from).collect()
}

pub proof fn lemma_join_push(parts: Seq<Seq<char>>, x: Seq<char>, sep: char)
    requires
        parts.len() >= 1,
    ensures
        join_with(parts.push(x), sep) == join_with(parts, sep) + seq![sep] + x,
    decreases parts.len(),
{
    let p = parts.push(x);
    assert(p[0] == parts[0]);
    assert(p.len() > 1);
    if parts.len() > 1 {
        lemma_join_push(parts.drop_first(), x, sep);
        assert(p.drop_first() =~= parts.drop_first().push(x));
        assert(join_with(p, sep) == p[0] + seq![sep] + join_with(p.drop_first(), sep));
        assert(join_with(p, sep) =~= join_with(parts, sep) + seq![sep] + x);
    } else {
        assert(p.drop_first() =~= seq![x]);
        assert(join_with(p.drop_first(), sep) == x);
        assert(join_with(p, sep) =~= join_with(parts, sep) + seq![sep] + x);
    }
}

/// What the join holds is what the pieces and the separators hold.
pub proof fn lemma_join_free_of(parts: Seq<Seq<char>>, sep: char, c: char)
    requires
        parts.len() >= 1,
        c != sep,
    ensures
        !join_with(parts, sep).contains(c) <==> pieces_free_of(parts, c),
    decreases parts.len(),
{
    let t = join_with(parts, sep);
    if parts.len() > 1 {
        lemma_join_free_of(parts.drop_first(), sep, c);
        let rest = join_with(parts.drop_first(), sep);
        let n = parts[0].len();
        if t.contains(c) {
            let k = choose|k: int| 0 <= k < t.len() && t[k] == c;
            if k < n {
                assert(parts[0][k] == c);
            } else if k > n {
                assert(rest[k - n - 1] == c);
            }
        }
        if !pieces_free_of(parts, c) {
            let i = choose|i: int| 0 <= i < parts.len() && (#[trigger] parts[i]).contains(c);
            let k = choose|k: int| 0 <= k < parts[i].len() && parts[i][k] == c;
            if i == 0 {
                assert(t[k] == c);
            } else {
                assert(parts.drop_first()[i - 1] == parts[i]);
                assert(rest.contains(c));
                let j = choose|j: int| 0 <= j < rest.len() && rest[j] == c;
                assert(t[n + 1 + j] == c);
            }
        }
    }
}

/// Pieces free of the separator are found again from their join.
pub proof fn lemma_join_unique(a: Seq<Seq<char>>, b: Seq<Seq<char>>, sep: char)
    requires
        a.len() >= 1,
        b.len() >= 1,
        pieces_free_of(a, sep),
        pieces_free_of(b, sep),
        join_with(a, sep) == join_with(b, sep),
    ensures
        a == b,
    decreases a.len(),
{
    let t = join_with(a, sep);
    if a.len() == 1 && b.len() == 1 {
        assert(a =~= b);
    } else if a.len() == 1 {
        assert(t[b[0].len() as int] == sep);
        assert(a[0].contains(sep));
    } else if b.len() == 1 {
        assert(t[a[0].len() as int] == sep);
        assert(b[0].contains(sep));
    } else {
        let la = a[0].len() as int;
        let lb = b[0].len() as int;
        if la < lb {
            assert(t[la] == sep);
            assert(b[0][la] == sep);
            assert(b[0].contains(sep));
        } else if lb < la {
            assert(t[lb] == sep);
            assert(a[0][lb] == sep);
            assert(a[0].contains(sep));
        } else {
            assert(a[0] =~= t.take(la));
            assert(b[0] =~= t.take(la));
            assert(join_with(a.drop_first(), sep) =~= t.skip(la + 1));
            assert(join_with(b.drop_first(), sep) =~= t.skip(la + 1));
            assert(pieces_free_of(a.drop_first(), sep));
            assert(pieces_free_of(b.drop_first(), sep));
            lemma_join_unique(a.drop_first(), b.drop_first(), sep);
            assert(a =~= seq![a[0]] + a.drop_first());
            assert(b =~= seq![b[0]] + b.drop_first());
        }
    }
}

} // verus!

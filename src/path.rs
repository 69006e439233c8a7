//! Relative paths: their canonical text form and their order.

use vstd::prelude::*;

verus! {

/// Lexicographic order of paths, character by character (by code point).
pub open spec fn seq_lt(a: Seq<char>, b: Seq<char>) -> bool
    decreases a.len(),
{
    if a.len() == 0 {
        b.len() > 0
    } else if b.len() == 0 {
        false
    } else if a[0] != b[0] {
        (a[0] as int) < (b[0] as int)
    } else {
        seq_lt(a.drop_first(), b.drop_first())
    }
}

pub proof fn lemma_lt_irreflexive(a: Seq<char>)
    ensures
        !seq_lt(a, a),
    decreases a.len(),
{
    if a.len() > 0 {
        lemma_lt_irreflexive(a.drop_first());
    }
}

pub proof fn lemma_lt_transitive(a: Seq<char>, b: Seq<char>, c: Seq<char>)
    requires
        seq_lt(a, b),
        seq_lt(b, c),
    ensures
        seq_lt(a, c),
    decreases a.len(),
{
    if a.len() > 0 && b.len() > 0 && c.len() > 0 {
        if a[0] == b[0] && b[0] == c[0] {
            lemma_lt_transitive(a.drop_first(), b.drop_first(), c.drop_first());
        }
    }
}

proof fn lemma_lt_skip(a: Seq<char>, b: Seq<char>, i: int)
    requires
        0 <= i < a.len(),
        i < b.len(),
        a[i] == b[i],
    ensures
        seq_lt(a.skip(i), b.skip(i)) == seq_lt(a.skip(i + 1), b.skip(i + 1)),
{
    assert(a.skip(i).drop_first() =~= a.skip(i + 1));
    assert(b.skip(i).drop_first() =~= b.skip(i + 1));
}

/// Where `a` stands relative to `b` in path order.
#[derive(Clone, Copy, Debug, PartialEq, Eq)]
pub enum PathOrder {
    Before,
    Same,
    After,
}

/// Compares two paths in the order of `seq_lt`.
pub fn compare_paths(a: &str, b: &str) -> (r: PathOrder)
    ensures
        r == PathOrder::Before <==> seq_lt(a@, b@),
        r == PathOrder::Same <==> a@ == b@,
        r == PathOrder::After <==> seq_lt(b@, a@),
{
    let la = a.unicode_len();
    let lb = b.unicode_len();
    let mut i: usize = 0;
    proof {
        assert(a@.skip(0) =~= a@);
        assert(b@.skip(0) =~= b@);
        assert(a@.take(0) =~= b@.take(0));
    }
    while i < la && i < lb
        invariant
            la == a@.len(),
            lb == b@.len(),
            i <= la,
            i <= lb,
            a@.take(i as int) == b@.take(i as int),
            seq_lt(a@, b@) == seq_lt(a@.skip(i as int), b@.skip(i as int)),
            seq_lt(b@, a@) == seq_lt(b@.skip(i as int), a@.skip(i as int)),
        decreases la - i,
    {
        let ca = a.get_char(i);
        let cb = b.get_char(i);
        if ca != cb {
            proof {
                lemma_lt_irreflexive(a@);
                assert(a@.skip(i as int)[0] == ca);
                assert(b@.skip(i as int)[0] == cb);
                assert((ca as int) != (cb as int));
                assert(a@ != b@);
            }
            if (ca as u32) < (cb as u32) {
                return PathOrder::Before;
            } else {
                return PathOrder::After;
            }
        }
        proof {
            lemma_lt_skip(a@, b@, i as int);
            lemma_lt_skip(b@, a@, i as int);
            assert(a@.take(i as int + 1) =~= a@.take(i as int).push(ca));
            assert(b@.take(i as int + 1) =~= b@.take(i as int).push(cb));
        }
        i = i + 1;
    }
    proof {
        lemma_lt_irreflexive(a@);
    }
    if la == lb {
        proof {
            assert(a@ =~= a@.take(i as int));
            assert(b@ =~= b@.take(i as int));
        }
        PathOrder::Same
    } else if la < lb {
        proof {
            assert(a@ =~= a@.take(i as int));
            assert(a@ != b@);
        }
        PathOrder::Before
    } else {
        proof {
            assert(b@ =~= b@.take(i as int));
            assert(a@ != b@);
        }
        PathOrder::After
    }
}

/// A directory entry is hidden when its name starts with a dot.
pub open spec fn hidden_name(name: Seq<char>) -> bool {
    name.len() > 0 && name[0] == '.'
}

/// Tells whether an entry of the tree is hidden, so that it and everything
/// below it stay out of a snapshot.
pub fn is_hidden(name: &str) -> (r: bool)
    ensures
        r == hidden_name(name@),
{
    if name.unicode_len() == 0 {
        false
    } else {
        name.get_char(0) == '.'
    }
}

/// The canonical text of a relative path: its components joined by `/`.
pub open spec fn join_components(parts: Seq<Seq<char>>) -> Seq<char>
    decreases parts.len(),
{
    if parts.len() == 0 {
        Seq::empty()
    } else if parts.len() == 1 {
        parts[0]
    } else {
        join_components(parts.drop_last()) + seq!['/'] + parts.last()
    }
}

/// The views of a list of path components.
pub open spec fn component_views(parts: Seq<String>) -> Seq<Seq<char>> {
    parts.map_values(|s: String| s@)
}

/// Joins the components `parts[from..]` with `/`.
pub fn join_path(parts: &Vec<String>, from: usize) -> (r: String)
    requires
        from <= parts@.len(),
    ensures
        r@ == join_components(component_views(parts@).skip(from as int)),
{
    let mut out = String::new();
    let mut i: usize = from;
    proof {
        reveal_strlit("/");
        assert(component_views(parts@).skip(from as int).take(0) =~= Seq::<Seq<char>>::empty());
    }
    while i < parts.len()
        invariant
            from <= i <= parts@.len(),
            out@ == join_components(component_views(parts@).skip(from as int).take(i - from)),
        decreases parts@.len() - i,
    {
        let ghost done = component_views(parts@).skip(from as int).take(i - from);
        let ghost next = component_views(parts@).skip(from as int).take(i + 1 - from);
        proof {
            reveal_strlit("/");
            assert(next.drop_last() =~= done);
            assert(next.last() == parts@[i as int]@);
        }
        if i > from {
            out.append("/");
        }
        out.append(parts[i].as_str());
        proof {
            if i == from {
                assert(next.len() == 1);
            }
            assert(out@ =~= join_components(next));
        }
        i = i + 1;
    }
    proof {
        assert(component_views(parts@).skip(from as int).take(i - from)
            =~= component_views(parts@).skip(from as int));
    }
    out
}

/// Tells whether `base` is a leading part of `path`, component by component.
pub open spec fn components_prefix(base: Seq<Seq<char>>, path: Seq<Seq<char>>) -> bool {
    base.len() <= path.len() && path.take(base.len() as int) == base
}

/// The relative path of `path` below `base`, both given as components, in
/// canonical form; `None` when `path` does not lie below `base`.
pub fn normalize_path(path: &Vec<String>, base: &Vec<String>) -> (r: Option<String>)
    ensures
        r is Some <==> components_prefix(component_views(base@), component_views(path@)),
        r matches Some(s) ==> s@ == join_components(
            component_views(path@).skip(base@.len() as int),
        ),
{
    if base.len() > path.len() {
        return None;
    }
    let mut i: usize = 0;
    while i < base.len()
        invariant
            base@.len() <= path@.len(),
            i <= base@.len(),
            component_views(path@).take(i as int) == component_views(base@).take(i as int),
        decreases base@.len() - i,
    {
        if path[i] != base[i] {
            proof {
                assert(component_views(path@).take(base@.len() as int)[i as int] != component_views(base@)[i as int]);
            }
            return None;
        }
        proof {
            assert(component_views(path@).take(i + 1) =~= component_views(path@).take(i as int).push(path@[i as int]@));
            assert(component_views(base@).take(i + 1) =~= component_views(base@).take(i as int).push(base@[i as int]@));
        }
        i = i + 1;
    }
    proof {
        assert(component_views(base@).take(i as int) =~= component_views(base@));
    }
    Some(join_path(path, base.len()))
}

} // verus!

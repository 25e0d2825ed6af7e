//! Which paths there are, how they are nested, and how they are ordered.

use crate::model;
use crate::path;
use crate::path::Path;
use vstd::prelude::*;

verus! {

/// The root is a path. A name under the root or under a path is one if it is not empty
/// and neither `.` nor `..`; and there are no other paths.
pub proof fn lemma_paths_are_built(front: Path, name: Seq<char>)
    requires
        forall|i: int| 0 <= i < name.len() ==> name[i] != '/',
        front.len() > 0 || name.len() > 0,
    ensures
        path::valid_path(seq!['/']),
        path::valid_path(front + seq!['/'] + name) <==> {
            &&& name.len() > 0 && name != seq!['.'] && name != seq!['.', '.']
            &&& front.len() == 0 || path::valid_path(front) && front != seq!['/']
        },
{
    let p = front + seq!['/'] + name;
    let n = front.len() as int;
    let root: Path = seq!['/'];
    assert(path::root_path() =~= root);
    assert(p.len() > 1);
    assert(p != root);
    assert(p[n] == '/');
    assert forall|i: int| n < i < p.len() implies p[i] != '/' by {
        assert(p[i] == name[i - n - 1]);
    }
    assert(p.subrange(n + 1, p.len() as int) =~= name);
    if path::valid_path(p) {
        assert(path::segment_at(p, n, p.len() as int) || name.len() == 0);
        if name.len() == 0 {
            assert(path::segment_at(p, n, n + 1));
            assert(p.subrange(n + 1, n + 1) =~= name);
        }
        if n > 0 {
            assert(front[0] == p[0]);
            assert forall|i: int, j: int| #[trigger]
                path::segment_at(front, i, j) implies path::good_segment(
                front.subrange(i + 1, j),
            ) by {
                assert(p[i] == front[i]);
                assert forall|m: int| i < m < j implies p[m] != '/' by {
                    assert(p[m] == front[m]);
                }
                if j < n {
                    assert(p[j] == front[j]);
                }
                assert(path::segment_at(p, i, j));
                assert(p.subrange(i + 1, j) =~= front.subrange(i + 1, j));
            }
            if n == 1 {
                assert(path::segment_at(p, 0, 1));
                assert(p.subrange(1, 1) =~= Seq::<char>::empty());
            }
        }
    }
    if name.len() > 0 && name != seq!['.'] && name != seq!['.', '.'] && (front.len() == 0
        || path::valid_path(front) && front != seq!['/']) {
        assert forall|i: int, j: int| #[trigger]
            path::segment_at(p, i, j) implies path::good_segment(p.subrange(i + 1, j)) by {
            if i < n {
                assert(p[n] == '/');
                assert(j <= n);
                assert(p[i] == front[i]);
                assert forall|m: int| i < m < j implies front[m] != '/' by {
                    assert(front[m] == p[m]);
                }
                if j < n {
                    assert(p[j] == front[j]);
                }
                assert(path::segment_at(front, i, j));
                assert(front.subrange(i + 1, j) =~= p.subrange(i + 1, j));
            } else {
                assert(i == n);
                if j < p.len() {
                    assert(p[j] != '/');
                }
                assert(p.subrange(i + 1, j) =~= name);
            }
        }
        if n > 0 {
            assert(p[0] == front[0]);
        }
    }
}

/// Every path but the root is a name under the root or under a path.
pub proof fn lemma_paths_split(p: Path) -> (parts: (Path, Seq<char>))
    requires
        path::valid_path(p),
        p != seq!['/'],
    ensures
        p == parts.0 + seq!['/'] + parts.1,
        forall|i: int| 0 <= i < parts.1.len() ==> parts.1[i] != '/',
        parts.1.len() > 0,
{
    assert(path::root_path() =~= seq!['/']);
    path::lemma_last_segment(p);
    let n = path::last_slash(p);
    let front = p.take(n);
    let name = p.skip(n + 1);
    assert(p =~= front + seq!['/'] + name);
    assert forall|i: int| 0 <= i < name.len() implies name[i] != '/' by {
        assert(name[i] == p[n + 1 + i]);
    }
    (front, name)
}

/// What does not begin with a slash is no path.
pub proof fn lemma_paths_are_absolute(p: Path)
    requires
        path::valid_path(p),
    ensures
        p.len() > 0 && p[0] == '/',
        p.len() > 1 ==> p.last() != '/',
{
    if p.len() > 1 {
        assert(p != path::root_path()) by {
            assert(path::root_path().len() == 1);
        }
        let (front, name) = lemma_paths_split(p);
        assert(p.last() == name.last());
    }
}

/// A name stands in what stands before it; right under the root it stands in the root.
pub proof fn lemma_parent(front: Path, name: Seq<char>)
    requires
        forall|i: int| 0 <= i < name.len() ==> name[i] != '/',
    ensures
        path::parent_of(front + seq!['/'] + name) == (if front.len() == 0 {
            seq!['/']
        } else {
            front
        }),
{
    let p = front + seq!['/'] + name;
    let n = front.len() as int;
    assert forall|m: int| n < m < p.len() implies p[m] != '/' by {
        assert(p[m] == name[m - n - 1]);
    }
    assert(path::last_slash_at(p, n));
    path::lemma_last_slash_unique(p, n);
    assert(p.subrange(0, n) =~= front);
    assert(path::root_path() =~= seq!['/']);
}

/// A path lies below the one in which it stands, and below all below which that one lies;
/// the root lies below none.
pub proof fn lemma_below(a: Path, d: Path)
    requires
        path::valid_path(a),
        path::valid_path(d),
    ensures
        path::strict_ancestor(a, d) <==> d != seq!['/'] && (a == path::parent_of(d)
            || path::strict_ancestor(a, path::parent_of(d))),
{
    let root: Path = seq!['/'];
    assert(path::root_path() =~= root);
    if d != root {
        path::lemma_parent_valid(d);
        let q = path::parent_of(d);
        if path::strict_ancestor(a, d) {
            path::lemma_ancestor_of_child(a, d);
        }
        if path::strict_ancestor(a, q) && a != root {
            assert(q != root);
            let n = path::last_slash(d);
            assert(q =~= d.subrange(0, n));
            assert(d.subrange(0, a.len() as int) =~= q.subrange(0, a.len() as int));
            assert(d[a.len() as int] == q[a.len() as int]);
        }
    } else {
        if path::strict_ancestor(a, d) {
            assert(a.len() < 1);
        }
    }
}

/// A path lies below another if and only if it begins with it and goes on with a slash;
/// everything but the root lies below the root.
pub proof fn lemma_below_begins(a: Path, d: Path)
    requires
        path::valid_path(a),
        path::valid_path(d),
    ensures
        a != seq!['/'] ==> (path::strict_ancestor(a, d) <==> exists|rest: Seq<char>|
            d == a + seq!['/'] + rest),
        a == seq!['/'] ==> (path::strict_ancestor(a, d) <==> d != seq!['/']),
{
    assert(path::root_path() =~= seq!['/']);
    if a != seq!['/'] {
        if path::strict_ancestor(a, d) {
            let rest = d.skip(a.len() as int + 1);
            assert(d =~= a + seq!['/'] + rest);
        }
        if exists|rest: Seq<char>| d == a + seq!['/'] + rest {
            let rest = choose|rest: Seq<char>| d == a + seq!['/'] + rest;
            assert(d.subrange(0, a.len() as int) =~= a);
        }
    }
}

/// Of two texts that first differ at `n`, the one with the smaller character there comes
/// first; what a text begins with comes before it, and no text before itself.
pub proof fn lemma_text_order(a: Seq<char>, b: Seq<char>, n: int)
    requires
        0 <= n <= a.len(),
        n <= b.len(),
        a.take(n) == b.take(n),
    ensures
        n < a.len() && n < b.len() && a[n] < b[n] ==> model::text_before(a, b)
            && !model::text_before(b, a),
        n == a.len() && n < b.len() ==> model::text_before(a, b) && !model::text_before(b, a),
        n == a.len() && n == b.len() ==> !model::text_before(a, b),
    decreases n,
{
    if n > 0 {
        assert(a.take(n)[0] == a[0] && b.take(n)[0] == b[0]);
        let c = a.drop_first();
        let d = b.drop_first();
        assert(c.take(n - 1) =~= a.take(n).drop_first());
        assert(d.take(n - 1) =~= b.take(n).drop_first());
        lemma_text_order(c, d, n - 1);
    }
}

} // verus!

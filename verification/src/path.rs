//! Absolute paths as sequences of characters: which ones are well formed, what
//! the parent of one is, and when one lies above another.

use vstd::prelude::*;

verus! {

/// An absolute path, as its characters.
pub type Path = Seq<char>;

/// The root path, `/`.
pub open spec fn root_path() -> Path {
    seq!['/']
}

/// A path segment that may stand between two slashes.
pub open spec fn good_segment(s: Seq<char>) -> bool {
    &&& s.len() > 0
    &&& s != seq!['.']
    &&& s != seq!['.', '.']
}

/// `p[i]` is a slash and the next slash after it, or the end of `p`, is at `j`.
pub open spec fn segment_at(p: Path, i: int, j: int) -> bool {
    &&& 0 <= i < j <= p.len()
    &&& p[i] == '/'
    &&& (j == p.len() || p[j] == '/')
    &&& forall|m: int| i < m < j ==> p[m] != '/'
}

/// A well-formed absolute path: the root, or a leading slash and good segments
/// with one slash between each two.
pub open spec fn valid_path(p: Path) -> bool {
    p == root_path() || {
        &&& p.len() > 1
        &&& p[0] == '/'
        &&& forall|i: int, j: int| #[trigger]
            segment_at(p, i, j) ==> good_segment(p.subrange(i + 1, j))
    }
}

/// `i` is the position of the last slash of `p`.
pub open spec fn last_slash_at(p: Path, i: int) -> bool {
    &&& 0 <= i < p.len()
    &&& p[i] == '/'
    &&& forall|m: int| i < m < p.len() ==> p[m] != '/'
}

/// The position of the last slash of `p`.
pub open spec fn last_slash(p: Path) -> int {
    choose|i: int| last_slash_at(p, i)
}

/// The directory that holds `p`; meant for paths other than the root.
pub open spec fn parent_of(p: Path) -> Path {
    if last_slash(p) == 0 {
        root_path()
    } else {
        p.subrange(0, last_slash(p))
    }
}

/// `a` is a directory somewhere above `d`.
pub open spec fn strict_ancestor(a: Path, d: Path) -> bool {
    if a == root_path() {
        d != root_path()
    } else {
        a.len() < d.len() && d.subrange(0, a.len() as int) == a && d[a.len() as int] == '/'
    }
}

/// There is at most one last slash.
pub proof fn lemma_last_slash_unique(p: Path, i: int)
    requires
        last_slash_at(p, i),
    ensures
        last_slash(p) == i,
{
    let j = last_slash(p);
    assert(last_slash_at(p, j));
    if i < j {
        assert(p[j] != '/');
    } else if j < i {
        assert(p[i] != '/');
    }
}

/// A path that starts with a slash has a last slash.
pub proof fn lemma_last_slash_exists(p: Path, n: int)
    requires
        0 < n <= p.len(),
        p[0] == '/',
        forall|m: int| n <= m < p.len() ==> p[m] != '/',
    ensures
        last_slash_at(p, last_slash(p)),
        0 <= last_slash(p) < n,
    decreases n,
{
    if p[n - 1] == '/' {
        assert(last_slash_at(p, n - 1));
        lemma_last_slash_unique(p, n - 1);
    } else {
        lemma_last_slash_exists(p, n - 1);
    }
}

/// The last slash of a well-formed path other than the root is not its last
/// character, and what follows it is a good segment.
pub proof fn lemma_last_segment(p: Path)
    requires
        valid_path(p),
        p != root_path(),
    ensures
        last_slash_at(p, last_slash(p)),
        last_slash(p) + 1 < p.len(),
        good_segment(p.subrange(last_slash(p) + 1, p.len() as int)),
{
    lemma_last_slash_exists(p, p.len() as int);
    let i = last_slash(p);
    assert(segment_at(p, i, p.len() as int));
    assert(p.subrange(i + 1, p.len() as int).len() > 0);
}

/// The parent of a well-formed path is a well-formed path, and a shorter one.
pub proof fn lemma_parent_valid(p: Path)
    requires
        valid_path(p),
        p != root_path(),
    ensures
        valid_path(parent_of(p)),
        parent_of(p).len() < p.len(),
        strict_ancestor(parent_of(p), p),
        parent_of(p) != p,
{
    lemma_last_segment(p);
    let n = last_slash(p);
    let q = parent_of(p);
    if n == 0 {
        assert(q == root_path());
    } else {
        assert(q =~= p.subrange(0, n));
        if q.len() == 1 {
            assert(segment_at(p, 0, 1));
            assert(p.subrange(1, 1).len() == 0);
        }
        assert(q.len() > 1);
        assert forall|i: int, j: int| #[trigger] segment_at(q, i, j) implies good_segment(
            q.subrange(i + 1, j),
        ) by {
            assert(forall|m: int| i < m < j ==> q[m] != '/');
            assert(forall|m: int| i < m < j ==> #[trigger] p[m] == q[m]);
            assert(segment_at(p, i, j));
            assert(q.subrange(i + 1, j) =~= p.subrange(i + 1, j));
        }
        assert(q != root_path()) by {
            assert(root_path().len() == 1);
        }
        assert(p.subrange(0, q.len() as int) =~= q);
    }
}

/// Nothing lies above itself, and no two paths lie above each other.
pub proof fn lemma_ancestor_asymmetric(a: Path, b: Path)
    requires
        valid_path(a),
        valid_path(b),
        strict_ancestor(a, b),
    ensures
        a != b,
        !strict_ancestor(b, a),
{
}

/// Two well-formed paths with the same parent neither lie above each other nor
/// are the parent themselves.
pub proof fn lemma_siblings(a: Path, b: Path)
    requires
        valid_path(a),
        valid_path(b),
        a != root_path(),
        b != root_path(),
        parent_of(a) == parent_of(b),
    ensures
        a != parent_of(b),
        b != parent_of(a),
        !strict_ancestor(a, b),
        !strict_ancestor(b, a),
{
    lemma_parent_valid(a);
    lemma_parent_valid(b);
    if strict_ancestor(a, b) {
        lemma_ancestor_of_child(a, b);
    }
    if strict_ancestor(b, a) {
        lemma_ancestor_of_child(b, a);
    }
}

/// What lies above `d` is its parent or lies above its parent.
pub proof fn lemma_ancestor_of_child(a: Path, d: Path)
    requires
        valid_path(a),
        valid_path(d),
        d != root_path(),
        strict_ancestor(a, d),
    ensures
        a == parent_of(d) || strict_ancestor(a, parent_of(d)),
        a.len() <= parent_of(d).len(),
{
    lemma_last_segment(d);
    lemma_parent_valid(d);
    let n = last_slash(d);
    if a == root_path() {
        assert(parent_of(d).len() >= 1);
    } else {
        assert(d[a.len() as int] == '/');
        assert(a.len() <= n);
        assert(a.len() > 0);
        assert(n > 0);
        let q = parent_of(d);
        assert(q =~= d.subrange(0, n));
        if a.len() == n {
            assert(a =~= q);
        } else {
            assert(q.subrange(0, a.len() as int) =~= d.subrange(0, a.len() as int));
            assert(q[a.len() as int] == '/');
        }
    }
}

} // verus!

use vstd::prelude::*;

use crate::text::chars_of;

verus! {

/// One component of a filesystem path, in the way `std::path::Path::components`
/// splits a path: a Windows prefix, the root, `.`, `..`, or a plain name.
#[derive(Debug, PartialEq, Eq)]
pub enum PathComponent {
    Prefix(String),
    RootDir,
    CurDir,
    ParentDir,
    Normal(String),
}

/// What a `PathComponent` denotes, with names taken by their characters.
pub enum ComponentView {
    Prefix(Seq<char>),
    RootDir,
    CurDir,
    ParentDir,
    Normal(Seq<char>),
}

impl View for PathComponent {
    type V = ComponentView;

    open spec fn view(&self) -> ComponentView {
        match self {
            PathComponent::Prefix(s) => ComponentView::Prefix(s@),
            PathComponent::RootDir => ComponentView::RootDir,
            PathComponent::CurDir => ComponentView::CurDir,
            PathComponent::ParentDir => ComponentView::ParentDir,
            PathComponent::Normal(s) => ComponentView::Normal(s@),
        }
    }
}

/// A path, as the sequence of what its components denote.
pub open spec fn path_view(path: Seq<PathComponent>) -> Seq<ComponentView> {
    path.map_values(|c: PathComponent| c@)
}

/// `Path::parent`: the path without its last component, where that component is a
/// name, `.` or `..`; none where the path is empty or ends in a root or a prefix.
pub open spec fn parent_view(path: Seq<ComponentView>) -> Option<Seq<ComponentView>> {
    if path.len() > 0 && (path.last() is Normal || path.last() is CurDir
        || path.last() is ParentDir) {
        Some(path.drop_last())
    } else {
        None
    }
}

/// The parents of those of `paths` that have one, in order.
pub open spec fn parents_view(paths: Seq<Seq<ComponentView>>) -> Seq<Seq<ComponentView>> {
    paths.filter_map(|p: Seq<ComponentView>| parent_view(p))
}

/// Each of `paths` by what it denotes.
pub open spec fn paths_view(paths: Seq<Vec<PathComponent>>) -> Seq<Seq<ComponentView>> {
    paths.map_values(|p: Vec<PathComponent>| path_view(p@))
}

/// `p` is a prefix of `q`: `q` is `p` followed by nothing or more components.
pub open spec fn is_prefix(p: Seq<ComponentView>, q: Seq<ComponentView>) -> bool {
    p.len() <= q.len() && q.subrange(0, p.len() as int) == p
}

/// `root` is a prefix of every path of `paths`: a directory that contains them all.
pub open spec fn is_common_prefix(paths: Seq<Seq<ComponentView>>, root: Seq<ComponentView>) -> bool {
    forall|i: int| 0 <= i < paths.len() ==> is_prefix(root, #[trigger] paths[i])
}

/// `root` is the deepest directory that contains every directory of `dirs`: a common
/// prefix of them all, and no common prefix is longer.
pub open spec fn is_shared_root(dirs: Seq<Seq<ComponentView>>, root: Seq<ComponentView>) -> bool {
    &&& is_common_prefix(dirs, root)
    &&& forall|q: Seq<ComponentView>| #[trigger] is_common_prefix(dirs, q) ==> q.len() <= root.len()
}

/// A copy of `c`.
fn copy_component(c: &PathComponent) -> (r: PathComponent)
    ensures
        r@ == c@,
{
    match c {
        PathComponent::Prefix(s) => PathComponent::Prefix(s.clone()),
        PathComponent::RootDir => PathComponent::RootDir,
        PathComponent::CurDir => PathComponent::CurDir,
        PathComponent::ParentDir => PathComponent::ParentDir,
        PathComponent::Normal(s) => PathComponent::Normal(s.clone()),
    }
}

/// Whether `path` has a parent (see `parent_view`).
pub fn has_parent(path: &Vec<PathComponent>) -> (r: bool)
    ensures
        r == parent_view(path_view(path@)) is Some,
{
    if path.len() == 0 {
        return false;
    }
    match &path[path.len() - 1] {
        PathComponent::Normal(_) | PathComponent::CurDir | PathComponent::ParentDir => true,
        _ => false,
    }
}

/// The parent of `path`, where it has one.
fn parent_of(path: &Vec<PathComponent>) -> (r: Option<Vec<PathComponent>>)
    ensures
        r is None <==> parent_view(path_view(path@)) is None,
        r matches Some(q) ==> parent_view(path_view(path@)) == Some(path_view(q@)),
{
    if !has_parent(path) {
        return None;
    }
    let n = path.len() - 1;
    let mut q: Vec<PathComponent> = Vec::new();
    for i in 0..n
        invariant
            n + 1 == path@.len(),
            path_view(q@) == path_view(path@).take(i as int),
    {
        let c = copy_component(&path[i]);
        let ghost before = q@;
        q.push(c);
        assert(q@ == before.push(c));
        assert(path_view(q@) =~= path_view(before).push(c@));
        assert(path_view(q@) =~= path_view(path@).take(i + 1));
    }
    assert(path_view(q@) == path_view(path@).drop_last());
    Some(q)
}

/// Whether `a` and `b` are the same component.
fn same_component(a: &PathComponent, b: &PathComponent) -> (r: bool)
    ensures
        r == (a@ == b@),
{
    match (a, b) {
        (PathComponent::Prefix(x), PathComponent::Prefix(y)) => *x == *y,
        (PathComponent::RootDir, PathComponent::RootDir) => true,
        (PathComponent::CurDir, PathComponent::CurDir) => true,
        (PathComponent::ParentDir, PathComponent::ParentDir) => true,
        (PathComponent::Normal(x), PathComponent::Normal(y)) => *x == *y,
        _ => false,
    }
}

/// The directory to write a map file into, for the files `paths`: the root-most folder
/// they share, the deepest directory that contains the parent directory of every path
/// that has one. None where `paths` is empty.
pub fn find_rootmost(paths: &Vec<Vec<PathComponent>>) -> (root: Option<Vec<PathComponent>>)
    requires
        paths@.len() == 0 || exists|i: int|
            0 <= i < paths@.len() && #[trigger] parent_view(path_view(paths@[i]@)) is Some,
    ensures
        root is None <==> paths@.len() == 0,
        root matches Some(r) ==> is_shared_root(parents_view(paths_view(paths@)), path_view(r@)),
{
    if paths.len() == 0 {
        return None;
    }
    let ghost pv = paths_view(paths@);
    let mut parents: Vec<Vec<PathComponent>> = Vec::new();
    for i in 0..paths.len()
        invariant
            pv == paths_view(paths@),
            paths_view(parents@) == parents_view(pv.take(i as int)),
            (exists|j: int| 0 <= j < i && #[trigger] parent_view(pv[j]) is Some) ==> parents@.len()
                > 0,
    {
        assert(pv.take(i + 1).drop_last() == pv.take(i as int));
        assert(pv.take(i + 1).last() == pv[i as int]);
        assert(pv[i as int] == path_view(paths@[i as int]@));
        let ghost before = parents@;
        match parent_of(&paths[i]) {
            Some(q) => {
                parents.push(q);
                assert(paths_view(parents@) == paths_view(before).push(path_view(q@)));
            },
            None => {},
        }
        assert(paths_view(parents@) == parents_view(pv.take(i + 1)));
    }
    assert(pv.take(paths@.len() as int) == pv);
    assert(parents@.len() > 0) by {
        let j = choose|j: int|
            0 <= j < paths@.len() && #[trigger] parent_view(path_view(paths@[j]@)) is Some;
        assert(pv[j] == path_view(paths@[j]@));
    }
    let ghost dirs = paths_view(parents@);
    let ghost b = dirs[0];
    assert(b == path_view(parents@[0]@));
    // the length of the longest common prefix of the directories seen so far
    let mut n: usize = parents[0].len();
    for i in 1..parents.len()
        invariant
            dirs == paths_view(parents@),
            parents@.len() > 0,
            b == dirs[0],
            n <= b.len(),
            forall|j: int|
                0 <= j < i ==> n <= (#[trigger] dirs[j]).len() && dirs[j].subrange(0, n as int)
                    == b.subrange(0, n as int),
            n == b.len() || exists|j: int|
                0 <= j < i && ((#[trigger] dirs[j]).len() == n || (n < dirs[j].len() && dirs[j][n as int]
                    != b[n as int])),
    {
        let p = &parents[i];
        assert(dirs[i as int] == path_view(p@));
        let mut k: usize = 0;
        while k < n && k < p.len() && same_component(&parents[0][k], &p[k])
            invariant
                dirs == paths_view(parents@),
                0 < i < parents@.len(),
                b == path_view(parents@[0]@),
                b.len() == parents@[0]@.len(),
                dirs[i as int] == path_view(p@),
                n <= b.len(),
                k <= n,
                k <= p@.len(),
                forall|t: int| 0 <= t < k ==> dirs[i as int][t] == b[t],
            decreases n - k,
        {
            k = k + 1;
        }
        let ghost old_n = n;
        assert(dirs[i as int].subrange(0, k as int) == b.subrange(0, k as int));
        assert forall|j: int| 0 <= j < i + 1 implies k <= (#[trigger] dirs[j]).len()
            && dirs[j].subrange(0, k as int) == b.subrange(0, k as int) by {
            if j < i {
                assert(dirs[j].subrange(0, k as int) == dirs[j].subrange(0, old_n as int).subrange(
                    0,
                    k as int,
                ));
                assert(b.subrange(0, k as int) == b.subrange(0, old_n as int).subrange(0, k as int));
            }
        }
        proof {
            if k < old_n {
                assert(dirs[i as int].len() == k || (k < dirs[i as int].len()
                    && dirs[i as int][k as int] != b[k as int]));
            }
        }
        n = k;
    }
    let mut r: Vec<PathComponent> = Vec::new();
    for t in 0..n
        invariant
            n <= b.len(),
            parents@.len() > 0,
            b == path_view(parents@[0]@),
            b.len() == parents@[0]@.len(),
            path_view(r@) == b.subrange(0, t as int),
    {
        let c = copy_component(&parents[0][t]);
        let ghost before = r@;
        r.push(c);
        assert(path_view(r@) =~= path_view(before).push(c@));
        assert(path_view(r@) =~= b.subrange(0, t + 1));
    }
    let ghost root = path_view(r@);
    assert(root == b.subrange(0, n as int));
    assert(is_common_prefix(dirs, root));
    assert forall|q: Seq<ComponentView>| #[trigger] is_common_prefix(dirs, q) implies q.len()
        <= root.len() by {
        if q.len() > n {
            assert(is_prefix(q, dirs[0]));
            let j = choose|j: int|
                0 <= j < parents@.len() && ((#[trigger] dirs[j]).len() == n || (n < dirs[j].len()
                    && dirs[j][n as int] != b[n as int]));
            assert(is_prefix(q, dirs[j]));
            assert(q[n as int] == b.subrange(0, q.len() as int)[n as int]);
            assert(q[n as int] == dirs[j].subrange(0, q.len() as int)[n as int]);
        }
    }
    Some(r)
}

/// The marker of a minified output file in its name.
pub open spec fn min_marker() -> Seq<char> {
    seq!['.', 'm', 'i', 'n', '.']
}

/// Whether `path` contains `.min.`, the mark of a file that minifying wrote.
pub open spec fn marks_minified(path: Seq<char>) -> bool {
    exists|i: int| 0 <= i && i + 5 <= path.len() && #[trigger] path.subrange(i, i + 5) == min_marker()
}

/// Whether the file `path` (its path as text) is an output of minifying, which is not
/// minified again: its path contains `.min.`.
pub fn is_minified_output(path: &str) -> (r: bool)
    ensures
        r == marks_minified(path@),
{
    let s = chars_of(path);
    let n = s.len();
    if n < 5 {
        assert forall|i: int| 0 <= i && i + 5 <= s@.len() implies #[trigger] s@.subrange(i, i + 5)
            != min_marker() by {}
        return false;
    }
    let mut i: usize = 0;
    while i < n - 4
        invariant
            n == s@.len(),
            s@ == path@,
            5 <= n,
            i <= n - 4,
            forall|j: int| 0 <= j < i ==> #[trigger] s@.subrange(j, j + 5) != min_marker(),
        decreases n - i,
    {
        if s[i] == '.' && s[i + 1] == 'm' && s[i + 2] == 'i' && s[i + 3] == 'n' && s[i + 4] == '.' {
            assert(s@.subrange(i as int, i + 5) == min_marker());
            return true;
        }
        assert(s@.subrange(i as int, i + 5)[0] == s@[i as int]);
        assert(s@.subrange(i as int, i + 5)[1] == s@[i + 1]);
        assert(s@.subrange(i as int, i + 5)[2] == s@[i + 2]);
        assert(s@.subrange(i as int, i + 5)[3] == s@[i + 3]);
        assert(s@.subrange(i as int, i + 5)[4] == s@[i + 4]);
        i = i + 1;
    }
    false
}

} // verus!

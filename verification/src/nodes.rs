//! The parts of an origin's tree that a handle may use.

use crate::path::{antichain, covers, lemma_prefix_trans, views, Path, PathPrefixes};
use crate::tree::{lemma_comparable, PathView};
use vstd::prelude::*;

verus! {

/// What a root contributes when a handle is restricted to a prefix: itself if it lies
/// within the prefix, the prefix if that lies within the root, nothing otherwise.
pub open spec fn narrowed(root: PathView, prefix: PathView) -> Seq<PathView> {
    if prefix.is_prefix_of(root) {
        seq![root]
    } else if root.is_prefix_of(prefix) {
        seq![prefix]
    } else {
        Seq::empty()
    }
}

/// What a root contributes when a handle is restricted to some prefixes.
pub open spec fn narrowed_all(root: PathView, prefixes: Seq<PathView>) -> Seq<PathView>
    decreases prefixes.len(),
{
    if prefixes.len() == 0 {
        Seq::empty()
    } else {
        narrowed_all(root, prefixes.drop_last()) + narrowed(root, prefixes.last())
    }
}

/// The roots of a handle after it was restricted to some prefixes.
pub open spec fn selected(roots: Seq<PathView>, prefixes: Seq<PathView>) -> Seq<PathView>
    decreases roots.len(),
{
    if roots.len() == 0 {
        Seq::empty()
    } else {
        selected(roots.drop_last(), prefixes) + narrowed_all(roots.last(), prefixes)
    }
}

/// What a root contributes when paths are taken relative to `new_root`: the rest of it if
/// it lies within, everything if the new root lies within it, nothing otherwise.
pub open spec fn rebased(root: PathView, new_root: PathView) -> Seq<PathView> {
    if new_root.is_prefix_of(root) {
        seq![root.skip(new_root.len() as int)]
    } else if root.is_prefix_of(new_root) {
        seq![Seq::<Seq<char>>::empty()]
    } else {
        Seq::empty()
    }
}

/// The roots of a handle after paths are taken relative to `new_root`.
pub open spec fn rooted(roots: Seq<PathView>, new_root: PathView) -> Seq<PathView>
    decreases roots.len(),
{
    if roots.len() == 0 {
        Seq::empty()
    } else {
        rooted(roots.drop_last(), new_root) + rebased(roots.last(), new_root)
    }
}

/// The paths at and below which a handle may publish or consume, relative to its root.
/// None is above another. A path of "" means everything.
pub struct OriginNodes {
    roots: Vec<Path>,
}

impl View for OriginNodes {
    type V = Seq<PathView>;

    closed spec fn view(&self) -> Seq<PathView> {
        views(self.roots@)
    }
}

impl Default for OriginNodes {
    fn default() -> (r: Self)
        ensures
            r@ == seq![Seq::<Seq<char>>::empty()],
    {
        let mut roots: Vec<Path> = Vec::new();
        roots.push(Path::empty());
        assert(views(roots@) =~= seq![Seq::<Seq<char>>::empty()]);
        OriginNodes { roots }
    }
}

impl Clone for OriginNodes {
    fn clone(&self) -> (r: Self)
        ensures
            r@ == self@,
    {
        proof {
            use_type_invariant(self);
        }
        let mut roots: Vec<Path> = Vec::new();
        let mut i: usize = 0;
        while i < self.roots.len()
            invariant
                i <= self.roots@.len(),
                views(roots@) == views(self.roots@).take(i as int),
            decreases self.roots@.len() - i,
        {
            let ghost before = views(roots@);
            roots.push(self.roots[i].clone());
            assert(views(roots@) =~= before.push(self.roots@[i as int]@));
            assert(views(self.roots@).take(i + 1) =~= before.push(self.roots@[i as int]@));
            i = i + 1;
        }
        assert(views(self.roots@).take(i as int) =~= views(self.roots@));
        OriginNodes { roots }
    }
}

impl OriginNodes {
    #[verifier::type_invariant]
    spec fn inv(self) -> bool {
        antichain(views(self.roots@))
    }

    /// No paths at all.
    pub fn none() -> (r: Self)
        ensures
            r@ == Seq::<PathView>::empty(),
    {
        let roots: Vec<Path> = Vec::new();
        assert(views(roots@) =~= Seq::<PathView>::empty());
        OriginNodes { roots }
    }

    /// The paths are unrelated to each other.
    pub fn disjoint(&self)
        ensures
            antichain(self@),
    {
        proof {
            use_type_invariant(self);
        }
    }

    /// The paths.
    pub fn as_slice(&self) -> (r: &[Path])
        ensures
            views(r@) == self@,
    {
        self.roots.as_slice()
    }

    /// Restrict to the given prefixes; `None` when nothing is left.
    pub fn select(&self, prefixes: &PathPrefixes) -> (r: Option<Self>)
        ensures
            match r {
                Some(nodes) => nodes@ == selected(self@, prefixes@) && nodes@.len() > 0,
                None => selected(self@, prefixes@).len() == 0,
            },
    {
        prefixes.disjoint();
        self.disjoint();
        let mut roots: Vec<Path> = Vec::new();
        let ghost mut from: Seq<(int, int)> = Seq::empty();
        let mut i: usize = 0;
        assert(self@.take(0) =~= Seq::<PathView>::empty());
        assert(views(roots@) =~= Seq::<PathView>::empty());
        while i < self.roots.len()
            invariant
                i <= self.roots@.len(),
                views(roots@) == selected(self@.take(i as int), prefixes@),
                narrowed_from(views(roots@), self@, prefixes@, from),
                forall|k: int| 0 <= k < from.len() ==> (#[trigger] from[k]).0 < i,
            decreases self.roots@.len() - i,
        {
            let mut j: usize = 0;
            let ghost base = views(roots@);
            let root = &self.roots[i];
            assert(prefixes@.take(0) =~= Seq::<PathView>::empty());
            assert(base + narrowed_all(root@, prefixes@.take(0)) =~= base);
            while j < prefixes.len()
                invariant
                    i < self.roots@.len(),
                    root@ == self@[i as int],
                    j <= prefixes@.len(),
                    views(roots@) == base + narrowed_all(root@, prefixes@.take(j as int)),
                    narrowed_from(views(roots@), self@, prefixes@, from),
                    forall|k: int|
                        0 <= k < from.len() ==> (#[trigger] from[k]).0 < i || (from[k].0 == i
                            && from[k].1 < j),
                decreases prefixes@.len() - j,
            {
                let prefix = prefixes.get(j);
                let ghost before = views(roots@);
                proof {
                    let next = prefixes@.take(j + 1);
                    assert(next.drop_last() =~= prefixes@.take(j as int));
                    assert(next.last() == prefix@);
                }
                if root.has_prefix(prefix) {
                    // Keep the existing root if we're allowed to access it.
                    roots.push(root.clone());
                    proof {
                        from = from.push((i as int, j as int));
                        assert(views(roots@) =~= before.push(root@));
                        assert(before + seq![root@] =~= before.push(root@));
                    }
                } else if prefix.has_prefix(root) {
                    // The requested prefix lies deeper than the allowed one: scope further.
                    roots.push(prefix.clone());
                    proof {
                        from = from.push((i as int, j as int));
                        assert(views(roots@) =~= before.push(prefix@));
                        assert(before + seq![prefix@] =~= before.push(prefix@));
                    }
                } else {
                    assert(before + Seq::<PathView>::empty() =~= before);
                }
                assert(views(roots@) =~= base + narrowed_all(root@, prefixes@.take(j + 1)));
                j = j + 1;
            }
            proof {
                assert(prefixes@.take(j as int) =~= prefixes@);
                assert(self@.take(i + 1).drop_last() =~= self@.take(i as int));
            }
            i = i + 1;
        }
        proof {
            assert(self@.take(i as int) =~= self@);
            lemma_narrowed_antichain(views(roots@), self@, prefixes@, from);
        }
        if roots.len() == 0 {
            None
        } else {
            Some(OriginNodes { roots })
        }
    }

    /// Take paths relative to `new_root`; `None` when nothing is left.
    pub fn root(&self, new_root: &Path) -> (r: Option<Self>)
        ensures
            match r {
                Some(nodes) => nodes@ == (if new_root@.len() == 0 {
                    self@
                } else {
                    rooted(self@, new_root@)
                }) && (new_root@.len() > 0 ==> nodes@.len() > 0),
                None => new_root@.len() > 0 && rooted(self@, new_root@).len() == 0,
            },
    {
        self.disjoint();
        if new_root.is_empty() {
            return Some(self.clone());
        }
        let mut roots: Vec<Path> = Vec::new();
        let ghost mut from: Seq<int> = Seq::empty();
        let mut i: usize = 0;
        assert(self@.take(0) =~= Seq::<PathView>::empty());
        assert(views(roots@) =~= Seq::<PathView>::empty());
        while i < self.roots.len()
            invariant
                i <= self.roots@.len(),
                views(roots@) == rooted(self@.take(i as int), new_root@),
                rebased_from(views(roots@), self@, new_root@, from),
                forall|k: int| 0 <= k < from.len() ==> #[trigger] from[k] < i,
            decreases self.roots@.len() - i,
        {
            let root = &self.roots[i];
            let ghost before = views(roots@);
            proof {
                assert(self@.take(i + 1).drop_last() =~= self@.take(i as int));
                assert(self@.take(i + 1).last() == root@);
            }
            if let Some(suffix) = root.strip_prefix(new_root) {
                // If the old root is longer than the new root, shorten the keys.
                proof {
                    assert(suffix@ =~= root@.skip(new_root@.len() as int));
                    assert(root@.take(new_root@.len() as int) =~= new_root@);
                    from = from.push(i as int);
                }
                let ghost rest = suffix@;
                roots.push(suffix);
                assert(views(roots@) =~= before.push(rest));
                assert(before + seq![rest] =~= before.push(rest));
            } else if new_root.has_prefix(root) {
                // If the new root is longer than the old root, everything is left.
                roots.push(Path::empty());
                proof {
                    from = from.push(i as int);
                    assert(views(roots@) =~= before.push(Seq::<Seq<char>>::empty()));
                    assert(before + seq![Seq::<Seq<char>>::empty()] =~= before.push(
                        Seq::<Seq<char>>::empty(),
                    ));
                }
            } else {
                assert(before + Seq::<PathView>::empty() =~= before);
            }
            assert(views(roots@) =~= rooted(self@.take(i + 1), new_root@));
            i = i + 1;
        }
        proof {
            assert(self@.take(i as int) =~= self@);
            lemma_rebased_antichain(views(roots@), self@, new_root@, from);
        }
        if roots.len() == 0 {
            None
        } else {
            Some(OriginNodes { roots })
        }
    }

    /// The root at or above `path` and the rest of the path below it.
    pub fn get(&self, path: &Path) -> (r: Option<(Path, Path)>)
        ensures
            match r {
                Some((root, rest)) => self@.contains(root@) && path@ == root@ + rest@,
                None => !covers(self@, path@),
            },
    {
        let mut i: usize = 0;
        while i < self.roots.len()
            invariant
                i <= self.roots@.len(),
                forall|k: int| 0 <= k < i ==> !(#[trigger] self@[k]).is_prefix_of(path@),
            decreases self.roots@.len() - i,
        {
            assert(self@[i as int] == self.roots@[i as int]@);
            if let Some(rest) = path.strip_prefix(&self.roots[i]) {
                return Some((self.roots[i].clone(), rest));
            }
            i = i + 1;
        }
        None
    }

    /// Whether `path` is at or below one of the roots.
    pub fn allows(&self, path: &Path) -> (r: bool)
        ensures
            r == covers(self@, path@),
    {
        match self.get(path) {
            Some((root, rest)) => {
                proof {
                    let i = choose|i: int| 0 <= i < self@.len() && self@[i] == root@;
                    assert(self@[i].is_prefix_of(path@)) by {
                        assert(path@.take(root@.len() as int) =~= root@);
                    }
                }
                true
            },
            None => false,
        }
    }

    /// The paths made absolute.
    pub fn absolute(&self, root: &Path) -> (r: Vec<Path>)
        ensures
            views(r@) == absolute_roots(root@, self@),
            antichain(views(r@)),
            forall|i: int| 0 <= i < r@.len() ==> root@.is_prefix_of(#[trigger] views(r@)[i]),
    {
        self.disjoint();
        let mut r: Vec<Path> = Vec::new();
        let mut i: usize = 0;
        while i < self.roots.len()
            invariant
                i <= self.roots@.len(),
                views(r@) == absolute_roots(root@, self@).take(i as int),
            decreases self.roots@.len() - i,
        {
            let ghost before = views(r@);
            r.push(root.join(&self.roots[i]));
            assert(views(r@) =~= before.push(root@ + self.roots@[i as int]@));
            assert(absolute_roots(root@, self@).take(i + 1) =~= before.push(
                root@ + self.roots@[i as int]@,
            ));
            i = i + 1;
        }
        proof {
            let all = absolute_roots(root@, self@);
            assert(all.take(i as int) =~= all);
            assert forall|a: int, b: int|
                0 <= a < all.len() && 0 <= b < all.len() && a != b implies !(
            #[trigger] all[a]).is_prefix_of(#[trigger] all[b]) by {
                if all[a].is_prefix_of(all[b]) {
                    lemma_prefix_below(root@, self@[a], self@[b]);
                }
            }
            assert forall|k: int| 0 <= k < r@.len() implies root@.is_prefix_of(
                #[trigger] views(r@)[k],
            ) by {
                assert((root@ + self@[k]).take(root@.len() as int) =~= root@);
            }
        }
        r
    }
}

/// The roots of a handle as absolute paths.
pub open spec fn absolute_roots(root: PathView, roots: Seq<PathView>) -> Seq<PathView> {
    Seq::new(roots.len(), |i: int| root + roots[i])
}

/// Each path is the deeper of a root and a prefix that are related, by distinct pairs.
spec fn narrowed_from(
    out: Seq<PathView>,
    roots: Seq<PathView>,
    prefixes: Seq<PathView>,
    from: Seq<(int, int)>,
) -> bool {
    &&& out.len() == from.len()
    &&& forall|k: int|
        0 <= k < from.len() ==> {
            let (i, j) = #[trigger] from[k];
            &&& 0 <= i < roots.len()
            &&& 0 <= j < prefixes.len()
            &&& roots[i].is_prefix_of(out[k])
            &&& prefixes[j].is_prefix_of(out[k])
        }
    &&& forall|k: int, l: int| 0 <= k < l < from.len() ==> #[trigger] from[k] != #[trigger] from[l]
}

proof fn lemma_narrowed_antichain(
    out: Seq<PathView>,
    roots: Seq<PathView>,
    prefixes: Seq<PathView>,
    from: Seq<(int, int)>,
)
    requires
        antichain(roots),
        antichain(prefixes),
        narrowed_from(out, roots, prefixes, from),
    ensures
        antichain(out),
{
    assert forall|a: int, b: int|
        0 <= a < out.len() && 0 <= b < out.len() && a != b implies !(
    #[trigger] out[a]).is_prefix_of(#[trigger] out[b]) by {
        if out[a].is_prefix_of(out[b]) {
            let (i, j) = from[a];
            let (k, l) = from[b];
            lemma_prefix_trans(roots[i], out[a], out[b]);
            lemma_prefix_trans(prefixes[j], out[a], out[b]);
            lemma_comparable(roots[i], roots[k], out[b]);
            lemma_comparable(prefixes[j], prefixes[l], out[b]);
            assert(i == k && j == l);
            if a < b {
                assert(from[a] != from[b]);
            } else {
                assert(from[b] != from[a]);
            }
        }
    }
}

/// Each path is the rest of a root below the new root, or everything because a root is
/// above the new root, by distinct roots.
spec fn rebased_from(
    out: Seq<PathView>,
    roots: Seq<PathView>,
    new_root: PathView,
    from: Seq<int>,
) -> bool {
    &&& out.len() == from.len()
    &&& forall|k: int|
        0 <= k < from.len() ==> {
            let i = #[trigger] from[k];
            &&& 0 <= i < roots.len()
            &&& (roots[i] == new_root + out[k] || (out[k].len() == 0 && roots[i].is_prefix_of(
                new_root,
            )))
        }
    &&& forall|k: int, l: int| 0 <= k < l < from.len() ==> #[trigger] from[k] != #[trigger] from[l]
}

/// Paths below one root are related as the rests are.
proof fn lemma_prefix_below(root: PathView, a: PathView, b: PathView)
    requires
        (root + a).is_prefix_of(root + b),
    ensures
        a.is_prefix_of(b),
{
    let n = root.len() as int;
    let whole = (root + b).take((root + a).len() as int);
    assert(whole.skip(n) =~= b.take(a.len() as int));
    assert((root + a).skip(n) =~= a);
}

proof fn lemma_rebased_antichain(
    out: Seq<PathView>,
    roots: Seq<PathView>,
    new_root: PathView,
    from: Seq<int>,
)
    requires
        antichain(roots),
        rebased_from(out, roots, new_root, from),
    ensures
        antichain(out),
{
    assert forall|a: int, b: int|
        0 <= a < out.len() && 0 <= b < out.len() && a != b implies !(
    #[trigger] out[a]).is_prefix_of(#[trigger] out[b]) by {
        if out[a].is_prefix_of(out[b]) {
            let i = from[a];
            let j = from[b];
            assert(i != j) by {
                if a < b {
                    assert(from[a] != from[b]);
                } else {
                    assert(from[b] != from[a]);
                }
            }
            let whole = new_root + out[b];
            assert(new_root.is_prefix_of(whole)) by {
                assert(whole.take(new_root.len() as int) =~= new_root);
            }
            assert((new_root + out[a]).is_prefix_of(whole)) by {
                assert(out[b].take(out[a].len() as int) == out[a]);
                assert(whole.take((new_root + out[a]).len() as int) =~= new_root + out[b].take(
                    out[a].len() as int,
                ));
            }
            if roots[i] != new_root + out[a] {
                lemma_prefix_trans(roots[i], new_root, whole);
            }
            if roots[j] != new_root + out[b] {
                lemma_prefix_trans(roots[j], new_root, whole);
            } else {
                assert(whole.take(whole.len() as int) =~= whole);
            }
            lemma_comparable(roots[i], roots[j], whole);
        }
    }
}

// ---------------------------------------------------------------------------
// Laws
// ---------------------------------------------------------------------------

proof fn lemma_covers_concat(a: Seq<PathView>, b: Seq<PathView>, path: PathView)
    ensures
        covers(a + b, path) <==> (covers(a, path) || covers(b, path)),
{
    let s = a + b;
    if covers(s, path) {
        let i = choose|i: int| 0 <= i < s.len() && (#[trigger] s[i]).is_prefix_of(path);
        if i < a.len() {
            assert(a[i] == s[i]);
        } else {
            assert(b[i - a.len()] == s[i]);
        }
    }
    if covers(a, path) {
        let i = choose|i: int| 0 <= i < a.len() && (#[trigger] a[i]).is_prefix_of(path);
        assert(s[i] == a[i]);
    }
    if covers(b, path) {
        let i = choose|i: int| 0 <= i < b.len() && (#[trigger] b[i]).is_prefix_of(path);
        assert(s[a.len() + i] == b[i]);
    }
}

proof fn lemma_covers_one(p: PathView, path: PathView)
    ensures
        covers(seq![p], path) <==> p.is_prefix_of(path),
{
    assert(seq![p][0] == p);
}

proof fn lemma_narrowed_covers(root: PathView, prefix: PathView, path: PathView)
    ensures
        covers(narrowed(root, prefix), path) <==> (root.is_prefix_of(path) && prefix.is_prefix_of(
            path,
        )),
{
    lemma_covers_one(root, path);
    lemma_covers_one(prefix, path);
    if root.is_prefix_of(path) && prefix.is_prefix_of(path) {
        lemma_comparable(root, prefix, path);
    }
    if prefix.is_prefix_of(root) && root.is_prefix_of(path) {
        lemma_prefix_trans(prefix, root, path);
    }
    if root.is_prefix_of(prefix) && prefix.is_prefix_of(path) {
        lemma_prefix_trans(root, prefix, path);
    }
}

proof fn lemma_narrowed_all_covers(root: PathView, prefixes: Seq<PathView>, path: PathView)
    ensures
        covers(narrowed_all(root, prefixes), path) <==> (root.is_prefix_of(path) && covers(
            prefixes,
            path,
        )),
    decreases prefixes.len(),
{
    if prefixes.len() > 0 {
        let rest = prefixes.drop_last();
        lemma_narrowed_all_covers(root, rest, path);
        lemma_narrowed_covers(root, prefixes.last(), path);
        lemma_covers_concat(
            narrowed_all(root, rest),
            narrowed(root, prefixes.last()),
            path,
        );
        assert(rest + seq![prefixes.last()] =~= prefixes);
        lemma_covers_concat(rest, seq![prefixes.last()], path);
        lemma_covers_one(prefixes.last(), path);
    }
}

/// Restricting a handle never widens it: what the restricted handle may use is what both
/// the handle and the prefixes allow.
pub proof fn law_scope_is_intersection(
    roots: Seq<PathView>,
    prefixes: Seq<PathView>,
    path: PathView,
)
    ensures
        covers(selected(roots, prefixes), path) <==> (covers(roots, path) && covers(
            prefixes,
            path,
        )),
    decreases roots.len(),
{
    if roots.len() > 0 {
        let rest = roots.drop_last();
        law_scope_is_intersection(rest, prefixes, path);
        lemma_narrowed_all_covers(roots.last(), prefixes, path);
        lemma_covers_concat(
            selected(rest, prefixes),
            narrowed_all(roots.last(), prefixes),
            path,
        );
        assert(rest + seq![roots.last()] =~= roots);
        lemma_covers_concat(rest, seq![roots.last()], path);
        lemma_covers_one(roots.last(), path);
    }
}

proof fn lemma_rebased_covers(root: PathView, new_root: PathView, path: PathView)
    ensures
        covers(rebased(root, new_root), path) <==> root.is_prefix_of(new_root + path),
{
    let whole = new_root + path;
    let rest = root.skip(new_root.len() as int);
    lemma_covers_one(rest, path);
    lemma_covers_one(Seq::<Seq<char>>::empty(), path);
    assert(new_root.is_prefix_of(whole)) by {
        assert(whole.take(new_root.len() as int) =~= new_root);
    }
    if new_root.is_prefix_of(root) {
        assert(new_root + rest =~= root);
        if root.is_prefix_of(whole) {
            lemma_prefix_below(new_root, rest, path);
        }
        if rest.is_prefix_of(path) {
            assert(whole.take(root.len() as int) =~= new_root + path.take(rest.len() as int));
        }
    } else if root.is_prefix_of(new_root) {
        lemma_prefix_trans(root, new_root, whole);
        assert(path.take(0) =~= Seq::<Seq<char>>::empty());
    } else if root.is_prefix_of(whole) {
        lemma_comparable(root, new_root, whole);
    }
}

/// A handle with a root may use a path exactly when the handle it was made from may use
/// the path below that root.
pub proof fn law_root_is_relative(roots: Seq<PathView>, new_root: PathView, path: PathView)
    ensures
        covers(rooted(roots, new_root), path) <==> covers(roots, new_root + path),
    decreases roots.len(),
{
    if roots.len() > 0 {
        let rest = roots.drop_last();
        law_root_is_relative(rest, new_root, path);
        lemma_rebased_covers(roots.last(), new_root, path);
        lemma_covers_concat(rooted(rest, new_root), rebased(roots.last(), new_root), path);
        assert(rest + seq![roots.last()] =~= roots);
        lemma_covers_concat(rest, seq![roots.last()], new_root + path);
        lemma_covers_one(roots.last(), new_root + path);
    }
}

/// A handle may use a path exactly if one of its roots is at or above it, and finds the path as
/// that root and the rest.
pub proof fn law_allowed_is_below_a_root(
    nodes: OriginNodes,
    path: Path,
    allowed: bool,
    found: Option<(Path, Path)>,
)
    requires
        call_ensures(OriginNodes::allows, (&nodes, &path), allowed),
        call_ensures(OriginNodes::get, (&nodes, &path), found),
    ensures
        allowed <==> exists|i: int| 0 <= i < nodes@.len() && (#[trigger] nodes@[i]).is_prefix_of(
            path@,
        ),
        allowed <==> found is Some,
        found is Some ==> {
            let (root, rest) = found->0;
            nodes@.contains(root@) && path@ == root@ + rest@
        },
{
    if found is Some {
        let (root, rest) = found->0;
        let i = choose|i: int| 0 <= i < nodes@.len() && nodes@[i] == root@;
        assert(path@.take(root@.len() as int) =~= root@);
        assert(nodes@[i].is_prefix_of(path@));
    }
}

/// A handle starts out with everything allowed; one without paths may use nothing.
pub proof fn law_default_allows_everything(
    every: OriginNodes,
    none: OriginNodes,
    path: Path,
    allowed: bool,
    refused: bool,
)
    requires
        call_ensures(OriginNodes::default, (), every),
        call_ensures(OriginNodes::none, (), none),
        call_ensures(OriginNodes::allows, (&every, &path), allowed),
        call_ensures(OriginNodes::allows, (&none, &path), refused),
    ensures
        allowed,
        !refused,
{
    assert(every@[0].is_prefix_of(path@)) by {
        assert(path@.take(0) =~= every@[0]);
    }
}

/// Restricting to prefixes allows exactly what was allowed and is at or below one of them. It
/// fails exactly if no root is related to any of the prefixes.
pub proof fn law_select_narrows(
    nodes: OriginNodes,
    prefixes: PathPrefixes,
    r: Option<OriginNodes>,
    path: Path,
    before: bool,
    after: bool,
)
    requires
        call_ensures(OriginNodes::select, (&nodes, &prefixes), r),
        call_ensures(OriginNodes::allows, (&nodes, &path), before),
        r is Some ==> call_ensures(OriginNodes::allows, (&(r->0), &path), after),
    ensures
        ({
            let within = exists|i: int|
                0 <= i < prefixes@.len() && (#[trigger] prefixes@[i]).is_prefix_of(path@);
            &&& r is Some ==> (after <==> before && within)
            &&& r is None ==> !(before && within)
            &&& r is Some ==> r->0@.len() > 0
        }),
{
    law_scope_is_intersection(nodes@, prefixes@, path@);
    if r is None && covers(selected(nodes@, prefixes@), path@) {
        let i = choose|i: int|
            0 <= i < selected(nodes@, prefixes@).len() && (#[trigger] selected(
                nodes@,
                prefixes@,
            )[i]).is_prefix_of(path@);
    }
}

/// Taking paths relative to a root allows exactly the paths that were allowed below that root. It
/// fails exactly if none is.
pub proof fn law_root_shifts(
    nodes: OriginNodes,
    new_root: Path,
    r: Option<OriginNodes>,
    path: Path,
    joined: Path,
    before: bool,
    after: bool,
)
    requires
        call_ensures(OriginNodes::root, (&nodes, &new_root), r),
        call_ensures(Path::join, (&new_root, &path), joined),
        call_ensures(OriginNodes::allows, (&nodes, &joined), before),
        r is Some ==> call_ensures(OriginNodes::allows, (&(r->0), &path), after),
    ensures
        r is Some ==> (after <==> before),
        r is None ==> !before,
        new_root@.len() == 0 ==> r is Some,
        r is Some && new_root@.len() > 0 ==> r->0@.len() > 0,
{
    law_root_is_relative(nodes@, new_root@, path@);
    if new_root@.len() == 0 {
        assert(joined@ =~= path@);
    }
    if r is None && covers(rooted(nodes@, new_root@), path@) {
        let i = choose|i: int|
            0 <= i < rooted(nodes@, new_root@).len() && (#[trigger] rooted(
                nodes@,
                new_root@,
            )[i]).is_prefix_of(path@);
    }
}

/// A root that is left after restricting or shifting allows something: the handle is not empty
/// because some path was allowed.
pub proof fn law_what_is_left_was_allowed(
    roots: Seq<PathView>,
    prefixes: Seq<PathView>,
    new_root: PathView,
    i: int,
)
    ensures
        0 <= i < selected(roots, prefixes).len() ==> covers(roots, selected(roots, prefixes)[i])
            && covers(prefixes, selected(roots, prefixes)[i]),
        0 <= i < rooted(roots, new_root).len() ==> covers(
            roots,
            new_root + rooted(roots, new_root)[i],
        ),
{
    if 0 <= i < selected(roots, prefixes).len() {
        let path = selected(roots, prefixes)[i];
        assert(path.take(path.len() as int) =~= path);
        assert(covers(selected(roots, prefixes), path));
        law_scope_is_intersection(roots, prefixes, path);
    }
    if 0 <= i < rooted(roots, new_root).len() {
        let path = rooted(roots, new_root)[i];
        assert(path.take(path.len() as int) =~= path);
        assert(covers(rooted(roots, new_root), path));
        law_root_is_relative(roots, new_root, path);
    }
}

/// The absolute paths of a handle are its paths below the root, one for one, in order.
pub proof fn law_absolute_paths_are_below_the_root(
    nodes: OriginNodes,
    root: Path,
    r: Vec<Path>,
    listed: &[Path],
    i: int,
)
    requires
        call_ensures(OriginNodes::absolute, (&nodes, &root), r),
        call_ensures(OriginNodes::as_slice, (&nodes,), listed),
    ensures
        r@.len() == nodes@.len(),
        listed@.len() == nodes@.len(),
        0 <= i < r@.len() ==> r@[i]@ == root@ + nodes@[i] && listed@[i]@ == nodes@[i],
{
    assert(views(r@).len() == r@.len());
    assert(views(listed@).len() == listed@.len());
    if 0 <= i < r@.len() {
        assert(views(r@)[i] == r@[i]@);
        assert(views(listed@)[i] == listed@[i]@);
    }
}

/// A copy of a handle's paths holds the same paths.
pub proof fn law_copied_paths_are_the_same(nodes: OriginNodes, copy: OriginNodes)
    requires
        call_ensures(OriginNodes::clone, (&nodes,), copy),
    ensures
        copy@ == nodes@,
{
}

} // verus!

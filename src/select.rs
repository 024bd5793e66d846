use vstd::prelude::*;

use crate::order::{
    insert_sorted, lemma_sorted_members, lemma_with_member, lists_exactly, sorted_members,
    strictly_sorted, views, with_member,
};
use crate::types::{Failure, PackError, PackType, Platform};

verus! {

/// One line of the packaging manifest: `path` belongs in the `pack` bundle for `platform`.
pub struct Requirement {
    pub platform: Platform,
    pub pack: PackType,
    pub path: Vec<u8>,
}

/// What a path in the source tree refers to.
#[derive(Debug, Clone, Copy, PartialEq, Eq, Structural)]
pub enum EntryKind {
    File,
    Directory,
    Other,
}

/// An entry of the source tree as the file system reported it.
pub struct SourceEntry {
    pub path: Vec<u8>,
    pub kind: EntryKind,
    pub content: Vec<u8>,
    /// Modification time; never part of a bundle.
    pub modified: u64,
}

pub struct EntryView {
    pub path: Seq<u8>,
    pub kind: EntryKind,
    pub content: Seq<u8>,
}

impl View for SourceEntry {
    type V = EntryView;

    open spec fn view(&self) -> EntryView {
        EntryView { path: self.path@, kind: self.kind, content: self.content@ }
    }
}

/// An artifact chosen for a bundle: a regular file with its bytes, or a directory.
#[derive(Debug)]
pub struct Artifact {
    pub path: Vec<u8>,
    pub is_dir: bool,
    pub content: Vec<u8>,
}

pub struct ArtifactView {
    pub path: Seq<u8>,
    pub is_dir: bool,
    pub content: Seq<u8>,
}

impl View for Artifact {
    type V = ArtifactView;

    open spec fn view(&self) -> ArtifactView {
        ArtifactView { path: self.path@, is_dir: self.is_dir, content: self.content@ }
    }
}

pub open spec fn tree_view(t: Seq<SourceEntry>) -> Seq<EntryView> {
    t.map_values(|e: SourceEntry| e@)
}

pub open spec fn artifacts_view(a: Seq<Artifact>) -> Seq<ArtifactView> {
    a.map_values(|x: Artifact| x@)
}

/// No two entries of the tree share a path.
pub open spec fn unique_paths(t: Seq<EntryView>) -> bool {
    forall|i: int, j: int| 0 <= i < t.len() && 0 <= j < t.len() && i != j ==> t[i].path != t[j].path
}

pub open spec fn requires_path(m: Seq<Requirement>, p: Platform, k: PackType, path: Seq<u8>) -> bool {
    exists|i: int| 0 <= i < m.len() && m[i].platform == p && m[i].pack == k && m[i].path@ == path
}

/// The paths the manifest requires for the pair.
pub open spec fn required_paths(m: Seq<Requirement>, p: Platform, k: PackType) -> Set<Seq<u8>> {
    Set::new(|path: Seq<u8>| requires_path(m, p, k, path))
}

/// The first entry of the tree with the given path.
pub open spec fn first_match(t: Seq<EntryView>, path: Seq<u8>) -> Option<EntryView>
    decreases t.len(),
{
    if t.len() == 0 {
        None
    } else if t[0].path == path {
        Some(t[0])
    } else {
        first_match(t.drop_first(), path)
    }
}

/// What a required path resolves to in the tree.
pub open spec fn resolve(t: Seq<EntryView>, path: Seq<u8>) -> Result<ArtifactView, Failure> {
    match first_match(t, path) {
        None => Err(Failure::MissingArtifact(path)),
        Some(e) => match e.kind {
            EntryKind::File => Ok(ArtifactView { path, is_dir: false, content: e.content }),
            EntryKind::Directory => Ok(ArtifactView { path, is_dir: true, content: Seq::empty() }),
            EntryKind::Other => Err(Failure::AmbiguousArtifact(path)),
        },
    }
}

/// Resolves each path in turn; the first path that fails decides the error.
pub open spec fn resolve_all(paths: Seq<Seq<u8>>, t: Seq<EntryView>) -> Result<
    Seq<ArtifactView>,
    Failure,
>
    decreases paths.len(),
{
    if paths.len() == 0 {
        Ok(Seq::empty())
    } else {
        match resolve_all(paths.drop_last(), t) {
            Err(e) => Err(e),
            Ok(done) => match resolve(t, paths.last()) {
                Err(e) => Err(e),
                Ok(a) => Ok(done.push(a)),
            },
        }
    }
}

/// The artifacts of the pair, in increasing path order.
pub open spec fn selection(m: Seq<Requirement>, p: Platform, k: PackType, t: Seq<EntryView>) -> Result<
    Seq<ArtifactView>,
    Failure,
> {
    resolve_all(sorted_members(required_paths(m, p, k)), t)
}

/// An error of `resolve_all` on a prefix stays the error of the whole.
pub proof fn lemma_resolve_all_prefix_error(paths: Seq<Seq<u8>>, n: int, t: Seq<EntryView>)
    requires
        0 <= n <= paths.len(),
        resolve_all(paths.subrange(0, n), t) is Err,
    ensures
        resolve_all(paths, t) == resolve_all(paths.subrange(0, n), t),
    decreases paths.len() - n,
{
    if n < paths.len() {
        let longer = paths.subrange(0, n + 1);
        assert(longer.drop_last() =~= paths.subrange(0, n));
        lemma_resolve_all_prefix_error(paths, n + 1, t);
    } else {
        assert(paths.subrange(0, n) =~= paths);
    }
}

/// `first_match` finds an entry of the tree with the path, and finds none only
/// where there is none.
pub proof fn lemma_first_match(t: Seq<EntryView>, path: Seq<u8>)
    ensures
        match first_match(t, path) {
            None => forall|i: int| 0 <= i < t.len() ==> #[trigger] t[i].path != path,
            Some(e) => e.path == path && t.contains(e),
        },
    decreases t.len(),
{
    if t.len() > 0 {
        lemma_first_match(t.drop_first(), path);
        if t[0].path != path {
            match first_match(t.drop_first(), path) {
                None => {
                    assert forall|i: int| 0 <= i < t.len() implies #[trigger] t[i].path != path by {
                        if i > 0 {
                            assert(t[i] == t.drop_first()[i - 1]);
                        }
                    }
                },
                Some(e) => {
                    let j = choose|j: int| 0 <= j < t.len() - 1 && t.drop_first()[j] == e;
                    assert(t[j + 1] == e);
                },
            }
        } else {
            assert(t[0] == t[0]);
        }
    }
}

/// In a tree with unique paths, a path is found at the one entry that has it.
pub proof fn lemma_first_match_unique(t: Seq<EntryView>, i: int)
    requires
        unique_paths(t),
        0 <= i < t.len(),
    ensures
        first_match(t, t[i].path) == Some(t[i]),
{
    lemma_first_match(t, t[i].path);
    match first_match(t, t[i].path) {
        None => {
            assert(t[i].path != t[i].path);
        },
        Some(e) => {
            let j = choose|j: int| 0 <= j < t.len() && t[j] == e;
            assert(i == j);
        },
    }
}

/// `resolve_all` succeeds exactly when every path resolves, and then lists their artifacts.
pub proof fn lemma_resolve_all(paths: Seq<Seq<u8>>, t: Seq<EntryView>)
    ensures
        resolve_all(paths, t) is Ok <==> forall|j: int|
            0 <= j < paths.len() ==> #[trigger] resolve(t, paths[j]) is Ok,
        resolve_all(paths, t) matches Ok(a) ==> a.len() == paths.len() && forall|j: int|
            0 <= j < paths.len() ==> resolve(t, paths[j]) == Ok::<ArtifactView, Failure>(
                #[trigger] a[j],
            ),
    decreases paths.len(),
{
    if paths.len() > 0 {
        let init = paths.drop_last();
        lemma_resolve_all(init, t);
        assert forall|j: int| 0 <= j < init.len() implies #[trigger] init[j] == paths[j] by {}
        if resolve_all(paths, t) is Ok {
            assert forall|j: int| 0 <= j < paths.len() implies #[trigger] resolve(t, paths[j]) is Ok by {
                if j < init.len() {
                    assert(init[j] == paths[j]);
                }
            }
        } else {
            if resolve_all(init, t) is Err {
                let j = choose|j: int| 0 <= j < init.len() && !(#[trigger] resolve(t, init[j]) is Ok);
                assert(!(resolve(t, paths[j]) is Ok));
            } else {
                assert(!(resolve(t, paths[paths.len() - 1]) is Ok));
            }
        }
    }
}

pub open spec fn required_before(m: Seq<Requirement>, p: Platform, k: PackType, n: int, x: Seq<u8>) -> bool {
    exists|j: int| 0 <= j < n && m[j].platform == p && m[j].pack == k && m[j].path@ == x
}

proof fn lemma_listing_of_prefix(m: Seq<Requirement>, p: Platform, k: PackType, n: int) -> (s: Seq<
    Seq<u8>,
>)
    requires
        0 <= n <= m.len(),
    ensures
        strictly_sorted(s),
        forall|x: Seq<u8>| #[trigger] s.contains(x) <==> required_before(m, p, k, n, x),
    decreases n,
{
    if n == 0 {
        Seq::empty()
    } else {
        let s0 = lemma_listing_of_prefix(m, p, k, n - 1);
        let hit = m[n - 1].platform == p && m[n - 1].pack == k;
        let s = if hit {
            lemma_with_member(s0, m[n - 1].path@);
            with_member(s0, m[n - 1].path@)
        } else {
            s0
        };
        assert forall|x: Seq<u8>| #[trigger] s.contains(x) <==> required_before(m, p, k, n, x) by {
            if required_before(m, p, k, n, x) {
                let j = choose|j: int|
                    0 <= j < n && m[j].platform == p && m[j].pack == k && m[j].path@ == x;
                if j < n - 1 {
                    assert(required_before(m, p, k, n - 1, x));
                }
            }
            if s0.contains(x) {
                let j = choose|j: int|
                    0 <= j < n - 1 && m[j].platform == p && m[j].pack == k && m[j].path@ == x;
                assert(required_before(m, p, k, n, x));
            }
        }
        s
    }
}

/// The required paths of a pair have an increasing listing, which `sorted_members` names.
pub proof fn lemma_sorted_required(m: Seq<Requirement>, p: Platform, k: PackType)
    ensures
        strictly_sorted(sorted_members(required_paths(m, p, k))),
        lists_exactly(sorted_members(required_paths(m, p, k)), required_paths(m, p, k)),
{
    let s = lemma_listing_of_prefix(m, p, k, m.len() as int);
    assert forall|x: Seq<u8>| #[trigger] s.contains(x) <==> required_paths(m, p, k).contains(x) by {
        if required_paths(m, p, k).contains(x) {
            assert(requires_path(m, p, k, x));
            assert(required_before(m, p, k, m.len() as int, x));
        }
    }
    lemma_sorted_members(s, required_paths(m, p, k));
}

/// The paths the manifest requires for the pair, in increasing order.
pub fn required_sorted(manifest: &Vec<Requirement>, platform: Platform, pack: PackType) -> (r: Vec<
    Vec<u8>,
>)
    ensures
        views(r@) == sorted_members(required_paths(manifest@, platform, pack)),
{
    let mut out: Vec<Vec<u8>> = Vec::new();
    let n = manifest.len();
    let mut i: usize = 0;
    while i < n
        invariant
            n == manifest@.len(),
            i <= n,
            strictly_sorted(views(out@)),
            forall|x: Seq<u8>| #[trigger]
                views(out@).contains(x) <==> exists|j: int|
                    0 <= j < i && manifest@[j].platform == platform && manifest@[j].pack == pack
                        && manifest@[j].path@ == x,
        decreases n - i,
    {
        let req = &manifest[i];
        if req.platform == platform && req.pack == pack {
            let p = req.path.clone();
            assert(p@ =~= req.path@);
            insert_sorted(&mut out, p);
        }
        proof {
            assert forall|x: Seq<u8>| #[trigger]
                views(out@).contains(x) <==> exists|j: int|
                    0 <= j < i + 1 && manifest@[j].platform == platform && manifest@[j].pack
                        == pack && manifest@[j].path@ == x by {
                if exists|j: int|
                    0 <= j < i + 1 && manifest@[j].platform == platform && manifest@[j].pack
                        == pack && manifest@[j].path@ == x {
                    let j = choose|j: int|
                        0 <= j < i + 1 && manifest@[j].platform == platform && manifest@[j].pack
                            == pack && manifest@[j].path@ == x;
                    if j < i {
                        assert(exists|j2: int|
                            0 <= j2 < i && manifest@[j2].platform == platform && manifest@[j2].pack
                                == pack && manifest@[j2].path@ == x);
                    }
                }
            }
        }
        i = i + 1;
    }
    proof {
        assert(lists_exactly(views(out@), required_paths(manifest@, platform, pack)));
        lemma_sorted_members(views(out@), required_paths(manifest@, platform, pack));
    }
    out
}

/// Index of the first entry of the tree with the given path.
fn find_entry(tree: &Vec<SourceEntry>, path: &Vec<u8>) -> (r: Option<usize>)
    ensures
        match r {
            None => first_match(tree_view(tree@), path@) is None,
            Some(i) => i < tree@.len() && first_match(tree_view(tree@), path@) == Some(
                tree@[i as int]@,
            ),
        },
{
    let ghost t = tree_view(tree@);
    let n = tree.len();
    let mut i: usize = 0;
    assert(t.subrange(0, n as int) =~= t);
    while i < n
        invariant
            n == tree@.len(),
            t == tree_view(tree@),
            i <= n,
            first_match(t, path@) == first_match(t.subrange(i as int, n as int), path@),
        decreases n - i,
    {
        let ghost rest = t.subrange(i as int, n as int);
        assert(rest.drop_first() =~= t.subrange(i + 1, n as int));
        if same_path(&tree[i].path, path) {
            return Some(i);
        }
        i = i + 1;
    }
    None
}

fn same_path(a: &Vec<u8>, b: &Vec<u8>) -> (r: bool)
    ensures
        r == (a@ == b@),
{
    if a.len() != b.len() {
        return false;
    }
    let n = a.len();
    let mut i: usize = 0;
    while i < n
        invariant
            n == a@.len(),
            n == b@.len(),
            i <= n,
            forall|j: int| 0 <= j < i ==> a@[j] == b@[j],
        decreases n - i,
    {
        if a[i] != b[i] {
            return false;
        }
        i = i + 1;
    }
    assert(a@ =~= b@);
    true
}

/// Resolves one path against the tree.
fn resolve_one(tree: &Vec<SourceEntry>, path: &Vec<u8>) -> (r: Result<Artifact, PackError>)
    ensures
        match r {
            Ok(a) => resolve(tree_view(tree@), path@) == Ok::<ArtifactView, Failure>(a@),
            Err(e) => resolve(tree_view(tree@), path@) == Err::<ArtifactView, Failure>(e@),
        },
{
    let p = path.clone();
    assert(p@ =~= path@);
    match find_entry(tree, path) {
        None => Err(PackError::MissingArtifact(p)),
        Some(i) => {
            let e = &tree[i];
            match e.kind {
                EntryKind::File => {
                    let c = e.content.clone();
                    assert(c@ =~= e.content@);
                    Ok(Artifact { path: p, is_dir: false, content: c })
                },
                EntryKind::Directory => {
                    let c: Vec<u8> = Vec::new();
                    assert(c@ =~= Seq::<u8>::empty());
                    Ok(Artifact { path: p, is_dir: true, content: c })
                },
                EntryKind::Other => Err(PackError::AmbiguousArtifact(p)),
            }
        },
    }
}

/// Selects the artifacts of `(platform, pack)` from the tree, in increasing path order.
/// Fails on the first required path (in that order) that is missing from the tree or
/// names neither a regular file nor a directory.
pub fn select(
    manifest: &Vec<Requirement>,
    platform: Platform,
    pack: PackType,
    tree: &Vec<SourceEntry>,
) -> (r: Result<Vec<Artifact>, PackError>)
    ensures
        match r {
            Ok(a) => selection(manifest@, platform, pack, tree_view(tree@)) == Ok::<
                Seq<ArtifactView>,
                Failure,
            >(artifacts_view(a@)),
            Err(e) => selection(manifest@, platform, pack, tree_view(tree@)) == Err::<
                Seq<ArtifactView>,
                Failure,
            >(e@),
        },
{
    let paths = required_sorted(manifest, platform, pack);
    let ghost ps = views(paths@);
    let ghost t = tree_view(tree@);
    let mut out: Vec<Artifact> = Vec::new();
    let n = paths.len();
    let mut i: usize = 0;
    assert(ps.subrange(0, 0) =~= Seq::<Seq<u8>>::empty());
    assert(artifacts_view(out@) =~= Seq::<ArtifactView>::empty());
    while i < n
        invariant
            n == paths@.len(),
            ps == views(paths@),
            ps == sorted_members(required_paths(manifest@, platform, pack)),
            t == tree_view(tree@),
            i <= n,
            out@.len() == i,
            resolve_all(ps.subrange(0, i as int), t) == Ok::<Seq<ArtifactView>, Failure>(
                artifacts_view(out@),
            ),
        decreases n - i,
    {
        let ghost prefix = ps.subrange(0, i + 1);
        assert(prefix.drop_last() =~= ps.subrange(0, i as int));
        assert(prefix.last() == paths@[i as int]@);
        match resolve_one(tree, &paths[i]) {
            Ok(a) => {
                let ghost before = artifacts_view(out@);
                out.push(a);
                assert(artifacts_view(out@) =~= before.push(out@[i as int]@));
            },
            Err(e) => {
                assert(resolve_all(prefix, t) == Err::<Seq<ArtifactView>, Failure>(e@));
                proof {
                    lemma_resolve_all_prefix_error(ps, i + 1, t);
                }
                return Err(e);
            },
        }
        i = i + 1;
    }
    assert(ps.subrange(0, n as int) =~= ps);
    Ok(out)
}

} // verus!

use vstd::prelude::*;

use crate::bundle::{bundle_bytes, encode_artifact, encode_artifacts};
use crate::digest::hash_text;
use crate::pipeline::{bundle_spec, verify_spec, VerifyOutcome};
use crate::select::{
    first_match, lemma_first_match, lemma_resolve_all, lemma_sorted_required, required_paths, resolve, resolve_all,
    selection, tree_view, unique_paths, lemma_first_match_unique, ArtifactView, EntryKind,
    EntryView, Requirement, SourceEntry,
};
use crate::order::lemma_lt_irreflexive;
use crate::order::sorted_members;
use crate::types::{
    pack_from_text, pack_name, platform_from_text, platform_name, text_matches, PackType,
    Platform,
};

verus! {

/// The canonical name of every platform parses back to that platform.
pub proof fn lemma_platform_round_trip(p: Platform)
    ensures
        platform_from_text(platform_name(p)) == Some(p),
{
    assert(text_matches(platform_name(p), platform_name(p)));
}

/// Platform parsing ignores ASCII case: texts that differ only in the case of
/// their letters parse alike.
pub proof fn lemma_platform_parse_ignores_case(s: Seq<char>, t: Seq<char>)
    requires
        text_matches(s, t),
    ensures
        platform_from_text(s) == platform_from_text(t),
{
    lemma_matching_is_transitive(s, t, platform_name(Platform::Mac));
    lemma_matching_is_transitive(s, t, platform_name(Platform::Linux));
    lemma_matching_is_transitive(s, t, platform_name(Platform::Windows));
}

/// The canonical name of every pack type parses back to that pack type.
pub proof fn lemma_pack_round_trip(k: PackType)
    ensures
        pack_from_text(pack_name(k)) == Some(k),
{
    assert(text_matches(pack_name(k), pack_name(k)));
}

/// Pack type parsing ignores ASCII case.
pub proof fn lemma_pack_parse_ignores_case(s: Seq<char>, t: Seq<char>)
    requires
        text_matches(s, t),
    ensures
        pack_from_text(s) == pack_from_text(t),
{
    lemma_matching_is_transitive(s, t, pack_name(PackType::Frameworks));
    lemma_matching_is_transitive(s, t, pack_name(PackType::Core));
}

pub open spec fn is_lowercase_name(name: Seq<char>) -> bool {
    forall|i: int| 0 <= i < name.len() ==> 97 <= (#[trigger] name[i] as u32) && (name[i] as u32) <= 122
}

proof fn lemma_matching_is_transitive(s: Seq<char>, t: Seq<char>, name: Seq<char>)
    requires
        text_matches(s, t),
        is_lowercase_name(name),
    ensures
        text_matches(s, name) <==> text_matches(t, name),
{
    if text_matches(t, name) {
        assert forall|i: int| 0 <= i < s.len() implies #[trigger]
            crate::types::same_ignoring_ascii_case(s[i], name[i]) by {
            assert(crate::types::same_ignoring_ascii_case(s[i], t[i]));
            assert(crate::types::same_ignoring_ascii_case(t[i], name[i]));
            assert(97 <= (name[i] as u32) && (name[i] as u32) <= 122);
        }
    }
    if text_matches(s, name) {
        assert forall|i: int| 0 <= i < t.len() implies #[trigger]
            crate::types::same_ignoring_ascii_case(t[i], name[i]) by {
            assert(crate::types::same_ignoring_ascii_case(s[i], t[i]));
            assert(crate::types::same_ignoring_ascii_case(s[i], name[i]));
            assert(97 <= (name[i] as u32) && (name[i] as u32) <= 122);
        }
    }
}

/// Packaging depends on the paths, kinds and contents of the tree alone: two runs
/// over the same tree give the same bundle bytes and the same hash, whatever the
/// modification times.
pub proof fn lemma_packaging_deterministic(
    m: Seq<Requirement>,
    p: Platform,
    k: PackType,
    t1: Seq<SourceEntry>,
    t2: Seq<SourceEntry>,
)
    requires
        t1.len() == t2.len(),
        forall|i: int| 0 <= i < t1.len() ==> #[trigger] t1[i]@ == t2[i]@,
    ensures
        bundle_spec(m, p, k, t1) == bundle_spec(m, p, k, t2),
        bundle_spec(m, p, k, t1) matches Ok(b) ==> bundle_spec(m, p, k, t2) matches Ok(b2)
            && hash_text(b) == hash_text(b2),
{
    assert(tree_view(t1) =~= tree_view(t2));
}

/// The order in which the file system lists a tree does not matter: two listings
/// of the same entries, each without repeated paths, give the same bundle.
pub proof fn lemma_listing_order_irrelevant(
    m: Seq<Requirement>,
    p: Platform,
    k: PackType,
    t1: Seq<SourceEntry>,
    t2: Seq<SourceEntry>,
)
    requires
        unique_paths(tree_view(t1)),
        unique_paths(tree_view(t2)),
        forall|e: EntryView| #[trigger] tree_view(t1).contains(e) <==> tree_view(t2).contains(e),
    ensures
        selection(m, p, k, tree_view(t1)) == selection(m, p, k, tree_view(t2)),
        bundle_spec(m, p, k, t1) == bundle_spec(m, p, k, t2),
{
    let v1 = tree_view(t1);
    let v2 = tree_view(t2);
    assert forall|x: Seq<u8>| #[trigger] first_match(v1, x) == first_match(v2, x) by {
        lemma_same_entries_same_match(v1, v2, x);
    }
    lemma_resolve_all_agree(sorted_members(required_paths(m, p, k)), v1, v2);
}

proof fn lemma_same_entries_same_match(v1: Seq<EntryView>, v2: Seq<EntryView>, x: Seq<u8>)
    requires
        unique_paths(v1),
        unique_paths(v2),
        forall|e: EntryView| #[trigger] v1.contains(e) <==> v2.contains(e),
    ensures
        first_match(v1, x) == first_match(v2, x),
{
    lemma_first_match(v1, x);
    lemma_first_match(v2, x);
    match first_match(v1, x) {
        None => {
            if let Some(e2) = first_match(v2, x) {
                assert(v1.contains(e2));
                let i = choose|i: int| 0 <= i < v1.len() && v1[i] == e2;
                assert(v1[i].path != x);
            }
        },
        Some(e1) => {
            assert(v2.contains(e1));
            let i = choose|i: int| 0 <= i < v2.len() && v2[i] == e1;
            match first_match(v2, x) {
                None => {
                    assert(v2[i].path != x);
                },
                Some(e2) => {
                    let j = choose|j: int| 0 <= j < v2.len() && v2[j] == e2;
                    assert(i == j);
                },
            }
        },
    }
}

proof fn lemma_resolve_all_agree(paths: Seq<Seq<u8>>, v1: Seq<EntryView>, v2: Seq<EntryView>)
    requires
        forall|x: Seq<u8>| #[trigger] first_match(v1, x) == first_match(v2, x),
    ensures
        resolve_all(paths, v1) == resolve_all(paths, v2),
    decreases paths.len(),
{
    if paths.len() > 0 {
        lemma_resolve_all_agree(paths.drop_last(), v1, v2);
        assert(first_match(v1, paths.last()) == first_match(v2, paths.last()));
        assert(resolve(v1, paths.last()) == resolve(v2, paths.last()));
    }
}

/// Verifying against the hash that packaging produced, with the tree unchanged,
/// reports a match.
pub proof fn lemma_verify_own_hash(
    m: Seq<Requirement>,
    p: Platform,
    k: PackType,
    t: Seq<SourceEntry>,
    bytes: Seq<u8>,
    r: VerifyOutcome,
)
    requires
        bundle_spec(m, p, k, t) == Ok::<Seq<u8>, crate::types::Failure>(bytes),
        verify_spec(m, p, k, t, hash_text(bytes), r),
    ensures
        r is Match,
{
}

/// Once a required artifact is deleted from the tree, verification reports that
/// the bundle is unavailable, whatever hash was expected.
pub proof fn lemma_verify_after_removal(
    m: Seq<Requirement>,
    p: Platform,
    k: PackType,
    t: Seq<SourceEntry>,
    i: int,
    expected: Seq<char>,
    r: VerifyOutcome,
)
    requires
        unique_paths(tree_view(t)),
        0 <= i < t.len(),
        required_paths(m, p, k).contains(t[i].path@),
        verify_spec(m, p, k, t.remove(i), expected, r),
    ensures
        selection(m, p, k, tree_view(t.remove(i))) is Err,
        r is BundleUnavailable,
{
    let v = tree_view(t);
    let v2 = tree_view(t.remove(i));
    let q = t[i].path@;
    assert(v2 =~= v.remove(i));
    lemma_first_match(v2, q);
    if let Some(e) = first_match(v2, q) {
        let j = choose|j: int| 0 <= j < v2.len() && v2[j] == e;
        if j < i {
            assert(v2[j] == v[j]);
        } else {
            assert(v2[j] == v[j + 1]);
        }
        assert(v[i].path == q);
    }
    assert(resolve(v2, q) is Err);
    let paths = sorted_members(required_paths(m, p, k));
    lemma_sorted_required(m, p, k);
    assert(paths.contains(q));
    let j = choose|j: int| 0 <= j < paths.len() && paths[j] == q;
    lemma_resolve_all(paths, v2);
    assert(!(resolve(v2, paths[j]) is Ok));
}

proof fn lemma_first_match_other(v: Seq<EntryView>, i: int, e: EntryView, x: Seq<u8>)
    requires
        0 <= i < v.len(),
        v[i].path != x,
        e.path != x,
    ensures
        first_match(v.update(i, e), x) == first_match(v, x),
    decreases v.len(),
{
    let w = v.update(i, e);
    if i > 0 {
        assert(w.drop_first() =~= v.drop_first().update(i - 1, e));
        lemma_first_match_other(v.drop_first(), i - 1, e, x);
    } else {
        assert(w.drop_first() =~= v.drop_first());
    }
}

proof fn lemma_append_differs(a: Seq<u8>, b: Seq<u8>, x: Seq<u8>, y: Seq<u8>)
    requires
        a + x == b + y,
        a.len() == b.len() || x.len() == y.len(),
    ensures
        a == b,
        x == y,
{
    let n = (a + x).len() as int;
    assert((a + x).subrange(0, a.len() as int) =~= a);
    assert((b + y).subrange(0, b.len() as int) =~= b);
    assert((a + x).subrange(a.len() as int, n) =~= x);
    assert((b + y).subrange(b.len() as int, n) =~= y);
}

proof fn lemma_encode_artifacts_differ(s1: Seq<ArtifactView>, s2: Seq<ArtifactView>, k: int)
    requires
        s1.len() == s2.len(),
        0 <= k < s1.len(),
        forall|j: int| 0 <= j < s1.len() && j != k ==> s1[j] == s2[j],
        encode_artifact(s1[k]) != encode_artifact(s2[k]),
    ensures
        encode_artifacts(s1) != encode_artifacts(s2),
    decreases s1.len(),
{
    let n = s1.len() - 1;
    if k == n {
        assert(s1.drop_last() =~= s2.drop_last());
        if encode_artifacts(s1) == encode_artifacts(s2) {
            lemma_append_differs(
                encode_artifacts(s1.drop_last()),
                encode_artifacts(s2.drop_last()),
                encode_artifact(s1.last()),
                encode_artifact(s2.last()),
            );
        }
    } else {
        lemma_encode_artifacts_differ(s1.drop_last(), s2.drop_last(), k);
        assert(s1.last() == s2.last());
        if encode_artifacts(s1) == encode_artifacts(s2) {
            lemma_append_differs(
                encode_artifacts(s1.drop_last()),
                encode_artifacts(s2.drop_last()),
                encode_artifact(s1.last()),
                encode_artifact(s2.last()),
            );
        }
    }
}

/// Changing one byte of one required file, and nothing else, changes the bundle
/// byte stream. (That the hash then changes too rests on SHA-256.)
pub proof fn lemma_changed_byte_changes_bundle(
    m: Seq<Requirement>,
    p: Platform,
    k: PackType,
    t: Seq<SourceEntry>,
    i: int,
    e: SourceEntry,
    at: int,
)
    requires
        unique_paths(tree_view(t)),
        0 <= i < t.len(),
        required_paths(m, p, k).contains(t[i].path@),
        t[i].kind == EntryKind::File,
        e.kind == EntryKind::File,
        e.path@ == t[i].path@,
        e.content@.len() == t[i].content@.len(),
        0 <= at < e.content@.len(),
        e.content@[at] != t[i].content@[at],
        forall|j: int| 0 <= j < e.content@.len() && j != at ==> e.content@[j] == t[i].content@[j],
        bundle_spec(m, p, k, t) is Ok,
    ensures
        bundle_spec(m, p, k, t.update(i, e)) is Ok,
        bundle_spec(m, p, k, t.update(i, e)) != bundle_spec(m, p, k, t),
{
    let v = tree_view(t);
    let v2 = tree_view(t.update(i, e));
    let q = t[i].path@;
    assert(v2 =~= v.update(i, e@));
    assert(unique_paths(v2)) by {
        assert forall|a: int, b: int|
            0 <= a < v2.len() && 0 <= b < v2.len() && a != b implies v2[a].path != v2[b].path by {
            assert(v2[a].path == v[a].path);
            assert(v2[b].path == v[b].path);
        }
    }
    let paths = sorted_members(required_paths(m, p, k));
    lemma_sorted_required(m, p, k);
    lemma_resolve_all(paths, v);
    lemma_resolve_all(paths, v2);
    lemma_first_match_unique(v, i);
    lemma_first_match_unique(v2, i);
    assert(v2[i] == e@);
    assert forall|j: int| 0 <= j < paths.len() implies #[trigger] resolve(v2, paths[j]) is Ok && (
    paths[j] != q ==> resolve(v2, paths[j]) == resolve(v, paths[j])) by {
        assert(resolve(v, paths[j]) is Ok);
        if paths[j] != q {
            lemma_first_match_other(v, i, e@, paths[j]);
        }
    }
    assert(paths.contains(q));
    let jq = choose|j: int| 0 <= j < paths.len() && paths[j] == q;
    let a1 = resolve_all(paths, v)->Ok_0;
    let a2 = resolve_all(paths, v2)->Ok_0;
    assert forall|j: int| 0 <= j < a1.len() && j != jq implies a1[j] == a2[j] by {
        if paths[j] == q {
            if j < jq {
                assert(crate::order::path_lt(paths[j], paths[jq]));
            } else {
                assert(crate::order::path_lt(paths[jq], paths[j]));
            }
            lemma_lt_irreflexive(q);
        }
        assert(resolve(v2, paths[j]) == resolve(v, paths[j]));
    }
    let c1 = t[i].content@;
    let c2 = e.content@;
    assert(a1[jq] == ArtifactView { path: q, is_dir: false, content: c1 });
    assert(a2[jq] == ArtifactView { path: q, is_dir: false, content: c2 });
    assert(c1 != c2) by {
        if c1 == c2 {
            assert(c1[at] == c2[at]);
        }
    }
    if encode_artifact(a1[jq]) == encode_artifact(a2[jq]) {
        let head = seq![0u8] + crate::bundle::encode_field(q) + crate::bundle::be_u64(c1.len() as u64);
        assert(encode_artifact(a1[jq]) =~= head + c1);
        assert(encode_artifact(a2[jq]) =~= head + c2);
        lemma_append_differs(head, head, c1, c2);
    }
    lemma_encode_artifacts_differ(a1, a2, jq);
    let hd = seq![crate::bundle::platform_tag(p), crate::bundle::pack_tag(k)];
    if bundle_bytes(p, k, a1) == bundle_bytes(p, k, a2) {
        lemma_append_differs(hd, hd, encode_artifacts(a1), encode_artifacts(a2));
    }
}

/// After one byte of one required file changes, verification against the earlier
/// hash still rebuilds the bundle, and reports a match only if SHA-256 gives two
/// different bundle byte streams the same hash.
pub proof fn lemma_verify_after_change(
    m: Seq<Requirement>,
    p: Platform,
    k: PackType,
    t: Seq<SourceEntry>,
    i: int,
    e: SourceEntry,
    at: int,
    r: VerifyOutcome,
)
    requires
        unique_paths(tree_view(t)),
        0 <= i < t.len(),
        required_paths(m, p, k).contains(t[i].path@),
        t[i].kind == EntryKind::File,
        e.kind == EntryKind::File,
        e.path@ == t[i].path@,
        e.content@.len() == t[i].content@.len(),
        0 <= at < e.content@.len(),
        e.content@[at] != t[i].content@[at],
        forall|j: int| 0 <= j < e.content@.len() && j != at ==> e.content@[j] == t[i].content@[j],
        bundle_spec(m, p, k, t) is Ok,
        verify_spec(m, p, k, t.update(i, e), hash_text(bundle_spec(m, p, k, t)->Ok_0), r),
    ensures
        !(r is BundleUnavailable),
        r is Match ==> bundle_spec(m, p, k, t.update(i, e))->Ok_0 != bundle_spec(m, p, k, t)->Ok_0
            && hash_text(bundle_spec(m, p, k, t.update(i, e))->Ok_0) == hash_text(
            bundle_spec(m, p, k, t)->Ok_0,
        ),
{
    lemma_changed_byte_changes_bundle(m, p, k, t, i, e, at);
}

} // verus!

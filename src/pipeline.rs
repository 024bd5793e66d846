use vstd::prelude::*;

use crate::bundle::{assemble, bundle_bytes};
use crate::digest::{hash_bundle, hash_text};
use crate::select::{
    artifacts_view, select, selection, tree_view, Artifact, ArtifactView, Requirement,
    SourceEntry,
};
use crate::types::{pack_name, platform_name, Failure, HashSum, PackError, PackType, Platform};

verus! {

/// The result of one packaging run.
pub struct Bundle {
    pub platform: Platform,
    pub pack: PackType,
    pub artifacts: Vec<Artifact>,
    pub bytes: Vec<u8>,
    pub hash: HashSum,
}

/// The byte stream a packaging run produces, or why it fails.
pub open spec fn bundle_spec(m: Seq<Requirement>, p: Platform, k: PackType, t: Seq<SourceEntry>) -> Result<
    Seq<u8>,
    Failure,
> {
    match selection(m, p, k, tree_view(t)) {
        Ok(a) => Ok(bundle_bytes(p, k, a)),
        Err(e) => Err(e),
    }
}

/// Selects, assembles and hashes the bundle of `(platform, pack)`.
pub fn package(
    manifest: &Vec<Requirement>,
    platform: Platform,
    pack: PackType,
    tree: &Vec<SourceEntry>,
) -> (r: Result<Bundle, PackError>)
    ensures
        match r {
            Ok(b) => {
                &&& selection(manifest@, platform, pack, tree_view(tree@)) == Ok::<
                    Seq<ArtifactView>,
                    Failure,
                >(artifacts_view(b.artifacts@))
                &&& b.platform == platform
                &&& b.pack == pack
                &&& bundle_spec(manifest@, platform, pack, tree@) == Ok::<Seq<u8>, Failure>(
                    b.bytes@,
                )
                &&& b.hash.0@ == hash_text(b.bytes@)
            },
            Err(e) => {
                &&& selection(manifest@, platform, pack, tree_view(tree@)) == Err::<
                    Seq<ArtifactView>,
                    Failure,
                >(e@)
                &&& bundle_spec(manifest@, platform, pack, tree@) == Err::<Seq<u8>, Failure>(e@)
            },
        },
{
    match select(manifest, platform, pack, tree) {
        Err(e) => Err(e),
        Ok(artifacts) => {
            let bytes = assemble(platform, pack, &artifacts);
            let hash = hash_bundle(&bytes);
            Ok(Bundle { platform, pack, artifacts, bytes, hash })
        },
    }
}

/// Outcome of checking a published hash against the current source tree.
#[derive(Debug)]
pub enum VerifyOutcome {
    Match,
    Mismatch { expected: HashSum, actual: HashSum },
    BundleUnavailable,
}

/// What `verify` reports for a given tree and expected hash text.
pub open spec fn verify_spec(
    m: Seq<Requirement>,
    p: Platform,
    k: PackType,
    t: Seq<SourceEntry>,
    expected: Seq<char>,
    r: VerifyOutcome,
) -> bool {
    match bundle_spec(m, p, k, t) {
        Err(_) => r is BundleUnavailable,
        Ok(bytes) => if hash_text(bytes) == expected {
            r is Match
        } else {
            r matches VerifyOutcome::Mismatch { expected: e, actual: a } && e.0@ == expected
                && a.0@ == hash_text(bytes)
        },
    }
}

/// Rebuilds the bundle of `(platform, pack)` and compares its hash with `expected`.
pub fn verify(
    manifest: &Vec<Requirement>,
    platform: Platform,
    pack: PackType,
    tree: &Vec<SourceEntry>,
    expected: &HashSum,
) -> (r: VerifyOutcome)
    ensures
        verify_spec(manifest@, platform, pack, tree@, expected.0@, r),
{
    match package(manifest, platform, pack, tree) {
        Err(_) => VerifyOutcome::BundleUnavailable,
        Ok(b) => {
            if b.hash.0 == expected.0 {
                VerifyOutcome::Match
            } else {
                VerifyOutcome::Mismatch { expected: HashSum(expected.0.clone()), actual: b.hash }
            }
        },
    }
}

/// File name stem of the bundle of a pair, such as `mac-core`.
pub fn bundle_name(platform: Platform, pack: PackType) -> (r: String)
    ensures
        r@ == platform_name(platform) + seq!['-'] + pack_name(pack),
{
    let mut s = String::from_str(platform.as_str());
    let sep = "-";
    proof {
        reveal_strlit("-");
    }
    s.append(sep);
    s.append(pack.as_str());
    s
}

} // verus!

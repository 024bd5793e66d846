use vstd::prelude::*;

use crate::select::{artifacts_view, Artifact, ArtifactView};
use crate::types::{PackType, Platform};

verus! {

/// Byte that stands for the platform in a bundle header.
pub open spec fn platform_tag(p: Platform) -> u8 {
    match p {
        Platform::Mac => 0,
        Platform::Linux => 1,
        Platform::Windows => 2,
    }
}

/// Byte that stands for the pack type in a bundle header.
pub open spec fn pack_tag(k: PackType) -> u8 {
    match k {
        PackType::Frameworks => 0,
        PackType::Core => 1,
    }
}

/// A 64-bit number, most significant byte first.
pub open spec fn be_u64(n: u64) -> Seq<u8> {
    seq![
        (n >> 56u64) as u8,
        (n >> 48u64) as u8,
        (n >> 40u64) as u8,
        (n >> 32u64) as u8,
        (n >> 24u64) as u8,
        (n >> 16u64) as u8,
        (n >> 8u64) as u8,
        n as u8,
    ]
}

/// A byte string preceded by its length.
pub open spec fn encode_field(b: Seq<u8>) -> Seq<u8> {
    be_u64(b.len() as u64) + b
}

/// One artifact: a kind byte (1 for a directory), then its path, then its content.
/// No timestamp or permission is recorded.
pub open spec fn encode_artifact(a: ArtifactView) -> Seq<u8> {
    seq![if a.is_dir { 1u8 } else { 0u8 }] + encode_field(a.path) + encode_field(a.content)
}

pub open spec fn encode_artifacts(s: Seq<ArtifactView>) -> Seq<u8>
    decreases s.len(),
{
    if s.len() == 0 {
        Seq::empty()
    } else {
        encode_artifacts(s.drop_last()) + encode_artifact(s.last())
    }
}

/// The canonical byte stream of a bundle: the pair's two tag bytes, then each artifact in order.
pub open spec fn bundle_bytes(p: Platform, k: PackType, arts: Seq<ArtifactView>) -> Seq<u8> {
    seq![platform_tag(p), pack_tag(k)] + encode_artifacts(arts)
}

fn push_u64(out: &mut Vec<u8>, n: u64)
    ensures
        final(out)@ == old(out)@ + be_u64(n),
{
    out.push((n >> 56u64) as u8);
    out.push((n >> 48u64) as u8);
    out.push((n >> 40u64) as u8);
    out.push((n >> 32u64) as u8);
    out.push((n >> 24u64) as u8);
    out.push((n >> 16u64) as u8);
    out.push((n >> 8u64) as u8);
    out.push(n as u8);
    assert(final(out)@ =~= old(out)@ + be_u64(n));
}

fn push_field(out: &mut Vec<u8>, b: &Vec<u8>)
    ensures
        final(out)@ == old(out)@ + encode_field(b@),
{
    push_u64(out, b.len() as u64);
    let ghost start = out@;
    let n = b.len();
    let mut i: usize = 0;
    while i < n
        invariant
            n == b@.len(),
            i <= n,
            out@ == start + b@.subrange(0, i as int),
        decreases n - i,
    {
        out.push(b[i]);
        assert(b@.subrange(0, i + 1) =~= b@.subrange(0, i as int).push(b@[i as int]));
        i = i + 1;
    }
    assert(b@.subrange(0, n as int) =~= b@);
    assert(final(out)@ =~= old(out)@ + encode_field(b@));
}

/// Lays the artifacts out as the canonical bundle byte stream.
pub fn assemble(platform: Platform, pack: PackType, artifacts: &Vec<Artifact>) -> (r: Vec<u8>)
    ensures
        r@ == bundle_bytes(platform, pack, artifacts_view(artifacts@)),
{
    let mut out: Vec<u8> = Vec::new();
    let pt: u8 = match platform {
        Platform::Mac => 0,
        Platform::Linux => 1,
        Platform::Windows => 2,
    };
    let kt: u8 = match pack {
        PackType::Frameworks => 0,
        PackType::Core => 1,
    };
    out.push(pt);
    out.push(kt);
    let ghost arts = artifacts_view(artifacts@);
    let n = artifacts.len();
    let mut i: usize = 0;
    assert(arts.subrange(0, 0) =~= Seq::<ArtifactView>::empty());
    assert(out@ =~= seq![platform_tag(platform), pack_tag(pack)] + encode_artifacts(
        arts.subrange(0, 0),
    ));
    while i < n
        invariant
            n == artifacts@.len(),
            arts == artifacts_view(artifacts@),
            i <= n,
            out@ == seq![platform_tag(platform), pack_tag(pack)] + encode_artifacts(
                arts.subrange(0, i as int),
            ),
        decreases n - i,
    {
        let a = &artifacts[i];
        let ghost before = out@;
        out.push(if a.is_dir {
            1u8
        } else {
            0u8
        });
        push_field(&mut out, &a.path);
        push_field(&mut out, &a.content);
        proof {
            let s = arts.subrange(0, i + 1);
            assert(s.drop_last() =~= arts.subrange(0, i as int));
            assert(s.last() == a@);
            assert(out@ =~= before + encode_artifact(a@));
            assert(out@ =~= seq![platform_tag(platform), pack_tag(pack)] + encode_artifacts(s));
        }
        i = i + 1;
    }
    assert(arts.subrange(0, n as int) =~= arts);
    out
}

} // verus!

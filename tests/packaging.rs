use packer::{
    assemble, bundle_name, hash_bundle, hash_from_digest, package, select, verify, Artifact,
    EntryKind, HashSum, PackError, PackType, Platform, Requirement, SourceEntry, VerifyOutcome,
};

fn req(platform: Platform, pack: PackType, path: &str) -> Requirement {
    Requirement { platform, pack, path: path.as_bytes().to_vec() }
}

fn file(path: &str, content: &str, modified: u64) -> SourceEntry {
    SourceEntry {
        path: path.as_bytes().to_vec(),
        kind: EntryKind::File,
        content: content.as_bytes().to_vec(),
        modified,
    }
}

fn mac_core_manifest() -> Vec<Requirement> {
    vec![
        req(Platform::Mac, PackType::Core, "lib/core.so"),
        req(Platform::Mac, PackType::Core, "bin/app"),
        req(Platform::Linux, PackType::Core, "lib/core.so"),
        req(Platform::Mac, PackType::Frameworks, "fw/ui"),
    ]
}

fn mac_core_tree() -> Vec<SourceEntry> {
    vec![
        file("lib/core.so", "CORE", 10),
        file("fw/ui", "UI", 11),
        file("bin/app", "APP", 12),
    ]
}

const MAC_CORE_HASH: &str = "a8e3018b37b5db09aa08790255ea7edfae14b71f34efe30796144a32fc0a1dab";

#[test]
fn platform_names_parse_back() {
    for p in Platform::all() {
        assert_eq!(Platform::parse(p.as_str()), Ok(p));
    }
    assert_eq!(Platform::Mac.as_str(), "mac");
    assert_eq!(Platform::Linux.as_str(), "linux");
    assert_eq!(Platform::Windows.as_str(), "windows");
}

#[test]
fn platform_parse_ignores_case() {
    assert_eq!(Platform::parse("Linux"), Ok(Platform::Linux));
    assert_eq!(Platform::parse("WINDOWS"), Ok(Platform::Windows));
    assert_eq!(Platform::parse("mAc"), Ok(Platform::Mac));
}

#[test]
fn platform_parse_rejects_unknown() {
    assert_eq!(Platform::parse("macos"), Err(PackError::UnknownPlatform));
    assert_eq!(Platform::parse(""), Err(PackError::UnknownPlatform));
    assert_eq!(Platform::parse("linu"), Err(PackError::UnknownPlatform));
}

#[test]
fn malformed_platform_produces_no_bundle() {
    let r = Platform::parse("macos").map(|p| package(&mac_core_manifest(), p, PackType::Core, &mac_core_tree()));
    assert!(matches!(r, Err(PackError::UnknownPlatform)));
}

#[test]
fn pack_type_names() {
    assert_eq!(PackType::Frameworks.as_str(), "frameworks");
    assert_eq!(PackType::Core.as_str(), "core");
    assert_eq!(PackType::Core.to_string(), "core");
    assert_eq!(PackType::parse("frameworks"), Ok(PackType::Frameworks));
    assert_eq!(PackType::parse("CORE"), Ok(PackType::Core));
    assert_eq!(PackType::parse("Frameworks"), Ok(PackType::Frameworks));
    assert_eq!(PackType::parse("framework"), Err(PackError::UnknownPackType));
}

#[test]
fn platforms_are_ordered() {
    assert!(Platform::Mac < Platform::Linux);
    assert!(Platform::Linux < Platform::Windows);
    assert!(PackType::Frameworks < PackType::Core);
}

#[test]
fn mac_core_selects_sorted_paths() {
    let arts = select(&mac_core_manifest(), Platform::Mac, PackType::Core, &mac_core_tree()).unwrap();
    let paths: Vec<Vec<u8>> = arts.iter().map(|a| a.path.clone()).collect();
    assert_eq!(paths, vec![b"bin/app".to_vec(), b"lib/core.so".to_vec()]);
    assert_eq!(arts[0].content, b"APP".to_vec());
    assert_eq!(arts[1].content, b"CORE".to_vec());
    assert!(!arts[0].is_dir);
}

#[test]
fn mac_core_bundle_and_hash() {
    let b = package(&mac_core_manifest(), Platform::Mac, PackType::Core, &mac_core_tree()).unwrap();
    let mut expected = vec![0u8, 1];
    expected.push(0);
    expected.extend_from_slice(&7u64.to_be_bytes());
    expected.extend_from_slice(b"bin/app");
    expected.extend_from_slice(&3u64.to_be_bytes());
    expected.extend_from_slice(b"APP");
    expected.push(0);
    expected.extend_from_slice(&11u64.to_be_bytes());
    expected.extend_from_slice(b"lib/core.so");
    expected.extend_from_slice(&4u64.to_be_bytes());
    expected.extend_from_slice(b"CORE");
    assert_eq!(b.bytes, expected);
    assert_eq!(b.hash, HashSum(MAC_CORE_HASH.to_string()));
    assert_eq!(b.platform, Platform::Mac);
    assert_eq!(b.pack, PackType::Core);
}

#[test]
fn changed_byte_changes_hash() {
    let h1 = package(&mac_core_manifest(), Platform::Mac, PackType::Core, &mac_core_tree()).unwrap().hash;
    let mut tree = mac_core_tree();
    tree[0].content = b"CORF".to_vec();
    let h2 = package(&mac_core_manifest(), Platform::Mac, PackType::Core, &tree).unwrap().hash;
    assert_ne!(h1, h2);
    assert_eq!(h2.0, "8373ce8a2fcc0b7df94314283e64777d379905b0e9babcff84f1bf2f5492e33b");
}

#[test]
fn same_tree_same_bundle_whatever_the_times() {
    let a = package(&mac_core_manifest(), Platform::Mac, PackType::Core, &mac_core_tree()).unwrap();
    let mut tree = mac_core_tree();
    for e in tree.iter_mut() {
        e.modified += 1000;
    }
    let b = package(&mac_core_manifest(), Platform::Mac, PackType::Core, &tree).unwrap();
    assert_eq!(a.bytes, b.bytes);
    assert_eq!(a.hash, b.hash);
}

#[test]
fn listing_order_does_not_matter() {
    let a = package(&mac_core_manifest(), Platform::Mac, PackType::Core, &mac_core_tree()).unwrap();
    let mut tree = mac_core_tree();
    tree.reverse();
    let b = package(&mac_core_manifest(), Platform::Mac, PackType::Core, &tree).unwrap();
    assert_eq!(a.bytes, b.bytes);
    assert_eq!(a.hash, b.hash);
}

#[test]
fn empty_selection_is_a_valid_bundle() {
    let manifest = mac_core_manifest();
    let arts = select(&manifest, Platform::Windows, PackType::Frameworks, &mac_core_tree()).unwrap();
    assert!(arts.is_empty());
    let b = package(&manifest, Platform::Windows, PackType::Frameworks, &mac_core_tree()).unwrap();
    assert_eq!(b.bytes, vec![2u8, 0]);
    assert_eq!(b.hash.0, "99be5efb88ca2013bd8e4eb035fd42d5245468fe9afa70d8ba9c1c419a48c4e8");
}

#[test]
fn missing_artifact_is_reported_with_its_path() {
    let tree = vec![file("bin/app", "APP", 1)];
    let r = select(&mac_core_manifest(), Platform::Mac, PackType::Core, &tree);
    assert_eq!(r.unwrap_err(), PackError::MissingArtifact(b"lib/core.so".to_vec()));
}

#[test]
fn first_failing_path_in_order_decides() {
    let tree = vec![file("unrelated", "x", 1)];
    let r = select(&mac_core_manifest(), Platform::Mac, PackType::Core, &tree);
    assert_eq!(r.unwrap_err(), PackError::MissingArtifact(b"bin/app".to_vec()));
}

#[test]
fn other_entry_kind_is_ambiguous() {
    let mut tree = mac_core_tree();
    tree[2].kind = EntryKind::Other;
    let r = package(&mac_core_manifest(), Platform::Mac, PackType::Core, &tree);
    assert_eq!(r.err(), Some(PackError::AmbiguousArtifact(b"bin/app".to_vec())));
}

#[test]
fn directory_is_included_without_content() {
    let manifest = vec![req(Platform::Linux, PackType::Frameworks, "fw")];
    let tree = vec![SourceEntry {
        path: b"fw".to_vec(),
        kind: EntryKind::Directory,
        content: b"ignored".to_vec(),
        modified: 5,
    }];
    let arts = select(&manifest, Platform::Linux, PackType::Frameworks, &tree).unwrap();
    assert_eq!(arts.len(), 1);
    assert!(arts[0].is_dir);
    assert!(arts[0].content.is_empty());
    let bytes = assemble(Platform::Linux, PackType::Frameworks, &arts);
    let mut expected = vec![1u8, 0, 1];
    expected.extend_from_slice(&2u64.to_be_bytes());
    expected.extend_from_slice(b"fw");
    expected.extend_from_slice(&0u64.to_be_bytes());
    assert_eq!(bytes, expected);
}

#[test]
fn repeated_requirements_count_once() {
    let mut manifest = mac_core_manifest();
    manifest.push(req(Platform::Mac, PackType::Core, "bin/app"));
    let b = package(&manifest, Platform::Mac, PackType::Core, &mac_core_tree()).unwrap();
    assert_eq!(b.hash.0, MAC_CORE_HASH);
}

#[test]
fn prefix_path_sorts_first() {
    let manifest = vec![
        req(Platform::Mac, PackType::Core, "ab"),
        req(Platform::Mac, PackType::Core, "a"),
        req(Platform::Mac, PackType::Core, "B"),
    ];
    let tree = vec![file("ab", "1", 0), file("a", "2", 0), file("B", "3", 0)];
    let arts = select(&manifest, Platform::Mac, PackType::Core, &tree).unwrap();
    let paths: Vec<Vec<u8>> = arts.iter().map(|a| a.path.clone()).collect();
    assert_eq!(paths, vec![b"B".to_vec(), b"a".to_vec(), b"ab".to_vec()]);
}

#[test]
fn verify_matches_own_hash() {
    let b = package(&mac_core_manifest(), Platform::Mac, PackType::Core, &mac_core_tree()).unwrap();
    let r = verify(&mac_core_manifest(), Platform::Mac, PackType::Core, &mac_core_tree(), &b.hash);
    assert!(matches!(r, VerifyOutcome::Match));
}

#[test]
fn verify_reports_mismatch_after_change() {
    let expected = HashSum(MAC_CORE_HASH.to_string());
    let mut tree = mac_core_tree();
    tree[2].content = b"APQ".to_vec();
    let r = verify(&mac_core_manifest(), Platform::Mac, PackType::Core, &tree, &expected);
    match r {
        VerifyOutcome::Mismatch { expected: e, actual } => {
            assert_eq!(e.0, MAC_CORE_HASH);
            assert_ne!(actual.0, MAC_CORE_HASH);
            assert_eq!(actual.0.len(), 64);
        }
        other => panic!("unexpected outcome {:?}", other),
    }
}

#[test]
fn verify_reports_unavailable_after_deletion() {
    let expected = HashSum(MAC_CORE_HASH.to_string());
    let mut tree = mac_core_tree();
    tree.remove(0);
    let r = verify(&mac_core_manifest(), Platform::Mac, PackType::Core, &tree, &expected);
    assert!(matches!(r, VerifyOutcome::BundleUnavailable));
}

#[test]
fn digest_renders_as_lowercase_hex() {
    assert_eq!(hash_from_digest(&vec![0x00, 0xff, 0x1a, 0xB7]).0, "00ff1ab7");
    assert_eq!(hash_from_digest(&vec![]).0, "");
}

#[test]
fn hash_bundle_is_sha256() {
    assert_eq!(
        hash_bundle(&b"abc".to_vec()).0,
        "ba7816bf8f01cfea414140de5dae2223b00361a396177a9cb410ff61f20015ad"
    );
}

#[test]
fn bundle_names() {
    assert_eq!(bundle_name(Platform::Mac, PackType::Core), "mac-core");
    assert_eq!(bundle_name(Platform::Windows, PackType::Frameworks), "windows-frameworks");
}

#[test]
fn artifacts_assemble_in_given_order() {
    let arts = vec![Artifact { path: b"x".to_vec(), is_dir: false, content: vec![7] }];
    let bytes = assemble(Platform::Mac, PackType::Frameworks, &arts);
    let mut expected = vec![0u8, 0, 0];
    expected.extend_from_slice(&1u64.to_be_bytes());
    expected.push(b'x');
    expected.extend_from_slice(&1u64.to_be_bytes());
    expected.push(7);
    assert_eq!(bytes, expected);
}

use vstd::prelude::*;

verus! {

/// Target operating systems, in their fixed order.
#[derive(Debug, Clone, Copy, PartialEq, Eq, Structural, PartialOrd, Ord, Hash)]
pub enum Platform {
    Mac,
    Linux,
    Windows,
}

/// Bundle categories.
#[derive(Debug, Clone, Copy, PartialEq, Eq, Structural, PartialOrd, Ord, Hash)]
pub enum PackType {
    Frameworks,
    Core,
}

/// A content digest as lowercase hexadecimal text.
#[derive(Debug, PartialEq, Eq)]
pub struct HashSum(pub String);

/// Failures of a packaging run. Paths are relative paths as bytes.
#[derive(Debug, Clone, PartialEq, Eq)]
pub enum PackError {
    UnknownPlatform,
    UnknownPackType,
    MissingArtifact(Vec<u8>),
    AmbiguousArtifact(Vec<u8>),
    IoFailure(Vec<u8>),
}

/// The mathematical form of a `PackError`.
pub enum Failure {
    UnknownPlatform,
    UnknownPackType,
    MissingArtifact(Seq<u8>),
    AmbiguousArtifact(Seq<u8>),
    IoFailure(Seq<u8>),
}

impl View for PackError {
    type V = Failure;

    open spec fn view(&self) -> Failure {
        match self {
            PackError::UnknownPlatform => Failure::UnknownPlatform,
            PackError::UnknownPackType => Failure::UnknownPackType,
            PackError::MissingArtifact(p) => Failure::MissingArtifact(p@),
            PackError::AmbiguousArtifact(p) => Failure::AmbiguousArtifact(p@),
            PackError::IoFailure(p) => Failure::IoFailure(p@),
        }
    }
}

pub open spec fn is_ascii_upper(c: char) -> bool {
    65 <= (c as u32) && (c as u32) <= 90
}

/// Two characters are equal once ASCII letters are folded to lower case.
pub open spec fn same_ignoring_ascii_case(a: char, b: char) -> bool {
    (a as u32) == (b as u32) || (is_ascii_upper(a) && (a as u32) + 32 == (b as u32)) || (is_ascii_upper(b) && (b
        as u32) + 32 == (a as u32))
}

pub open spec fn text_matches(s: Seq<char>, name: Seq<char>) -> bool {
    &&& s.len() == name.len()
    &&& forall|i: int| 0 <= i < s.len() ==> #[trigger] same_ignoring_ascii_case(s[i], name[i])
}

/// Canonical lowercase name of a platform.
pub open spec fn platform_name(p: Platform) -> Seq<char> {
    match p {
        Platform::Mac => seq!['m', 'a', 'c'],
        Platform::Linux => seq!['l', 'i', 'n', 'u', 'x'],
        Platform::Windows => seq!['w', 'i', 'n', 'd', 'o', 'w', 's'],
    }
}

/// Canonical lowercase name of a pack type.
pub open spec fn pack_name(k: PackType) -> Seq<char> {
    match k {
        PackType::Frameworks => seq!['f', 'r', 'a', 'm', 'e', 'w', 'o', 'r', 'k', 's'],
        PackType::Core => seq!['c', 'o', 'r', 'e'],
    }
}

pub open spec fn platform_from_text(s: Seq<char>) -> Option<Platform> {
    if text_matches(s, platform_name(Platform::Mac)) {
        Some(Platform::Mac)
    } else if text_matches(s, platform_name(Platform::Linux)) {
        Some(Platform::Linux)
    } else if text_matches(s, platform_name(Platform::Windows)) {
        Some(Platform::Windows)
    } else {
        None
    }
}

pub open spec fn pack_from_text(s: Seq<char>) -> Option<PackType> {
    if text_matches(s, pack_name(PackType::Frameworks)) {
        Some(PackType::Frameworks)
    } else if text_matches(s, pack_name(PackType::Core)) {
        Some(PackType::Core)
    } else {
        None
    }
}

fn char_matches(a: char, b: char) -> (r: bool)
    ensures
        r == same_ignoring_ascii_case(a, b),
{
    let x = a as u32;
    let y = b as u32;
    x == y || (65 <= x && x <= 90 && x + 32 == y) || (65 <= y && y <= 90 && y + 32 == x)
}

/// Whether `s` equals `name` up to ASCII case.
fn matches_ignoring_case(s: &str, name: &str) -> (r: bool)
    ensures
        r == text_matches(s@, name@),
{
    let n = s.unicode_len();
    if n != name.unicode_len() {
        return false;
    }
    let mut i: usize = 0;
    while i < n
        invariant
            n == s@.len(),
            n == name@.len(),
            i <= n,
            forall|j: int| 0 <= j < i ==> #[trigger] same_ignoring_ascii_case(s@[j], name@[j]),
        decreases n - i,
    {
        if !char_matches(s.get_char(i), name.get_char(i)) {
            return false;
        }
        i = i + 1;
    }
    true
}

impl Platform {
    /// Canonical lowercase name, as used in file names and manifests.
    pub fn as_str(&self) -> (r: &'static str)
        ensures
            r@ == platform_name(*self),
    {
        match self {
            Platform::Mac => {
                proof {
                    reveal_strlit("mac");
                }
                "mac"
            },
            Platform::Linux => {
                proof {
                    reveal_strlit("linux");
                }
                "linux"
            },
            Platform::Windows => {
                proof {
                    reveal_strlit("windows");
                }
                "windows"
            },
        }
    }

    /// Parses a platform name, ignoring ASCII case.
    pub fn parse(text: &str) -> (r: Result<Platform, PackError>)
        ensures
            platform_from_text(text@) matches Some(p) ==> r == Ok::<Platform, PackError>(p),
            platform_from_text(text@) is None ==> r matches Err(PackError::UnknownPlatform),
    {
        if matches_ignoring_case(text, Platform::Mac.as_str()) {
            Ok(Platform::Mac)
        } else if matches_ignoring_case(text, Platform::Linux.as_str()) {
            Ok(Platform::Linux)
        } else if matches_ignoring_case(text, Platform::Windows.as_str()) {
            Ok(Platform::Windows)
        } else {
            Err(PackError::UnknownPlatform)
        }
    }

    /// Every platform, in order.
    pub fn all() -> (r: Vec<Platform>)
        ensures
            r@ == seq![Platform::Mac, Platform::Linux, Platform::Windows],
    {
        vec![Platform::Mac, Platform::Linux, Platform::Windows]
    }
}

impl PackType {
    /// Canonical lowercase name, as used in file names and manifests.
    pub fn as_str(&self) -> (r: &'static str)
        ensures
            r@ == pack_name(*self),
    {
        match self {
            PackType::Frameworks => {
                proof {
                    reveal_strlit("frameworks");
                }
                "frameworks"
            },
            PackType::Core => {
                proof {
                    reveal_strlit("core");
                }
                "core"
            },
        }
    }

    /// The canonical name as an owned string.
    pub fn to_string(&self) -> (r: String)
        ensures
            r@ == pack_name(*self),
    {
        String::from_str(self.as_str())
    }

    /// Parses a pack type name, ignoring ASCII case.
    pub fn parse(text: &str) -> (r: Result<PackType, PackError>)
        ensures
            pack_from_text(text@) matches Some(k) ==> r == Ok::<PackType, PackError>(k),
            pack_from_text(text@) is None ==> r matches Err(PackError::UnknownPackType),
    {
        if matches_ignoring_case(text, PackType::Frameworks.as_str()) {
            Ok(PackType::Frameworks)
        } else if matches_ignoring_case(text, PackType::Core.as_str()) {
            Ok(PackType::Core)
        } else {
            Err(PackError::UnknownPackType)
        }
    }
}

} // verus!

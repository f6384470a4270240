//! Self-update support: platform and architecture detection, semantic
//! version parsing and comparison, release-asset selection, retry backoff,
//! and the update error taxonomy.  Network and filesystem work lives with
//! the caller; everything here is pure logic on plain values.

use crate::text::{
    contains_str, digits_val, is_digit, is_space, is_space_char, lemma_trim_end_at,
    lemma_trim_start_at, push_char, spec_dec, spec_trim, str_eq, trim_end, trim_start,
    usize_to_string,
};
use vstd::prelude::*;
use vstd::string::StrSliceExecFns;
use vstd::string::StringExecFns;

verus! {

/// Comprehensive error type for update operations.  Errors that wrap an
/// outside failure carry its rendered message.
#[derive(Debug, Clone)]
pub enum UpdateError {
    PlatformDetection(String),
    ApiError { status: u16, message: String },
    VersionParse(String),
    AssetNotFound(String),
    Download { reason: String, retryable: bool },
    Verification { reason: String },
    Replacement { reason: String, recovered: bool },
    PermissionDenied(String),
    LockFileExists,
    ConfigurationError(String),
    IoError(String),
    SerializationError(String),
    HttpError(String),
}

/// Whether retrying the failed operation can help.
pub open spec fn spec_retryable(e: UpdateError) -> bool {
    match e {
        UpdateError::Download { retryable, .. } => retryable,
        UpdateError::ApiError { .. } => true,
        UpdateError::HttpError(_) => true,
        _ => false,
    }
}

/// The user-facing message for an error.
pub open spec fn spec_user_message(e: UpdateError) -> Seq<char> {
    match e {
        UpdateError::PlatformDetection(msg) => "Could not detect your platform: "@ + msg@,
        UpdateError::ApiError { status, message } => "GitHub API error ("@ + spec_dec(
            status as int,
        ) + "): "@ + message@,
        UpdateError::VersionParse(msg) => "Invalid version format: "@ + msg@,
        UpdateError::AssetNotFound(msg) => "No compatible binary found: "@ + msg@,
        UpdateError::Download { reason, .. } => "Download failed: "@ + reason@,
        UpdateError::Verification { reason } => "Binary verification failed: "@ + reason@,
        UpdateError::Replacement { reason, recovered } => if recovered {
            "Update failed but rolled back: "@ + reason@
        } else {
            "Update failed: "@ + reason@
        },
        UpdateError::PermissionDenied(msg) => "Permission denied: "@ + msg@,
        UpdateError::LockFileExists => "An update is already in progress"@,
        UpdateError::ConfigurationError(msg) => "Configuration error: "@ + msg@,
        UpdateError::IoError(m) => "File system error: "@ + m@,
        UpdateError::SerializationError(m) => "Data format error: "@ + m@,
        UpdateError::HttpError(m) => "Network error: "@ + m@,
    }
}

/// The recovery instructions for an error, where any apply.
pub open spec fn spec_recovery(e: UpdateError) -> Option<Seq<char>> {
    match e {
        UpdateError::PermissionDenied(_) => Some(
            "Try running the application with elevated privileges or check file permissions"@,
        ),
        UpdateError::Download { retryable, .. } => if retryable {
            Some("Check your internet connection and try again"@)
        } else {
            None
        },
        UpdateError::Replacement { recovered, .. } => if !recovered {
            Some("A backup of your previous binary may be available in the backup directory"@)
        } else {
            None
        },
        _ => None,
    }
}

impl UpdateError {
    /// Check if this error is retryable.
    pub fn is_retryable(&self) -> (r: bool)
        ensures
            r == spec_retryable(*self),
    {
        match self {
            UpdateError::Download { retryable, .. } => *retryable,
            UpdateError::ApiError { .. } => true,
            UpdateError::HttpError(_) => true,
            _ => false,
        }
    }

    /// Get a user-friendly error message.
    pub fn user_message(&self) -> (r: String)
        ensures
            r@ == spec_user_message(*self),
    {
        match self {
            UpdateError::PlatformDetection(msg) => String::from_str(
                "Could not detect your platform: ",
            ).concat(msg.as_str()),
            UpdateError::ApiError { status, message } => String::from_str(
                "GitHub API error (",
            ).concat(usize_to_string(*status as usize).as_str()).concat("): ").concat(
                message.as_str(),
            ),
            UpdateError::VersionParse(msg) => String::from_str("Invalid version format: ").concat(
                msg.as_str(),
            ),
            UpdateError::AssetNotFound(msg) => String::from_str(
                "No compatible binary found: ",
            ).concat(msg.as_str()),
            UpdateError::Download { reason, .. } => String::from_str("Download failed: ").concat(
                reason.as_str(),
            ),
            UpdateError::Verification { reason } => String::from_str(
                "Binary verification failed: ",
            ).concat(reason.as_str()),
            UpdateError::Replacement { reason, recovered } => if *recovered {
                String::from_str("Update failed but rolled back: ").concat(reason.as_str())
            } else {
                String::from_str("Update failed: ").concat(reason.as_str())
            },
            UpdateError::PermissionDenied(msg) => String::from_str("Permission denied: ").concat(
                msg.as_str(),
            ),
            UpdateError::LockFileExists => String::from_str("An update is already in progress"),
            UpdateError::ConfigurationError(msg) => String::from_str(
                "Configuration error: ",
            ).concat(msg.as_str()),
            UpdateError::IoError(m) => String::from_str("File system error: ").concat(m.as_str()),
            UpdateError::SerializationError(m) => String::from_str("Data format error: ").concat(
                m.as_str(),
            ),
            UpdateError::HttpError(m) => String::from_str("Network error: ").concat(m.as_str()),
        }
    }

    /// Get recovery instructions if applicable.
    pub fn recovery_instructions(&self) -> (r: Option<String>)
        ensures
            match r {
                Some(s) => spec_recovery(*self) matches Some(v) && s@ == v,
                None => spec_recovery(*self) is None,
            },
    {
        match self {
            UpdateError::PermissionDenied(_) => Some(
                String::from_str(
                    "Try running the application with elevated privileges or check file permissions",
                ),
            ),
            UpdateError::Download { retryable, .. } => if *retryable {
                Some(String::from_str("Check your internet connection and try again"))
            } else {
                None
            },
            UpdateError::Replacement { recovered, .. } => if !*recovered {
                Some(
                    String::from_str(
                        "A backup of your previous binary may be available in the backup directory",
                    ),
                )
            } else {
                None
            },
            _ => None,
        }
    }
}

/// Operating system types.
#[derive(Debug, Clone, Copy, PartialEq, Eq, Hash, Structural)]
pub enum OperatingSystem {
    Linux,
    MacOS,
    Windows,
}

/// CPU architecture types.
#[derive(Debug, Clone, Copy, PartialEq, Eq, Hash, Structural)]
pub enum Architecture {
    X86_64,
    Aarch64,
}

/// Platform information containing OS and architecture.
#[derive(Debug, Clone, Copy, PartialEq, Eq, Structural)]
pub struct PlatformInfo {
    pub os: OperatingSystem,
    pub arch: Architecture,
}

/// The operating system a platform name stands for, if any.
pub open spec fn os_of(s: Seq<char>) -> Option<OperatingSystem> {
    if s == "linux"@ {
        Some(OperatingSystem::Linux)
    } else if s == "macos"@ {
        Some(OperatingSystem::MacOS)
    } else if s == "windows"@ {
        Some(OperatingSystem::Windows)
    } else {
        None
    }
}

/// The architecture an architecture name stands for, if any.
pub open spec fn arch_of(s: Seq<char>) -> Option<Architecture> {
    if s == "x86_64"@ {
        Some(Architecture::X86_64)
    } else if s == "aarch64"@ {
        Some(Architecture::Aarch64)
    } else {
        None
    }
}

/// Platform detector for identifying the current OS and architecture.
/// The caller passes the platform names the build reports (the values of
/// `std::env::consts::OS` and `std::env::consts::ARCH`).
pub struct PlatformDetector;

impl PlatformDetector {
    /// Map the given OS and architecture names to a `PlatformInfo`, or an
    /// `UpdateError::PlatformDetection` when either is unsupported.
    pub fn detect(os: &str, arch: &str) -> (r: Result<PlatformInfo, UpdateError>)
        ensures
            r is Ok <==> os_of(os@) is Some && arch_of(arch@) is Some,
            r matches Ok(p) ==> Some(p.os) == os_of(os@) && Some(p.arch) == arch_of(arch@),
            r matches Err(e) ==> e is PlatformDetection,
    {
        let os_v = if str_eq(os, "linux") {
            Some(OperatingSystem::Linux)
        } else if str_eq(os, "macos") {
            Some(OperatingSystem::MacOS)
        } else if str_eq(os, "windows") {
            Some(OperatingSystem::Windows)
        } else {
            None
        };
        let os_v = match os_v {
            Some(v) => v,
            None => {
                return Err(
                    UpdateError::PlatformDetection(
                        String::from_str("Unsupported operating system: ").concat(os),
                    ),
                );
            },
        };
        let arch_v = if str_eq(arch, "x86_64") {
            Some(Architecture::X86_64)
        } else if str_eq(arch, "aarch64") {
            Some(Architecture::Aarch64)
        } else {
            None
        };
        match arch_v {
            Some(a) => Ok(PlatformInfo { os: os_v, arch: a }),
            None => Err(
                UpdateError::PlatformDetection(
                    String::from_str("Unsupported architecture: ").concat(arch),
                ),
            ),
        }
    }
}

/// The asset-name fragment that names a platform.
pub open spec fn spec_os_pattern(os: OperatingSystem) -> Seq<char> {
    match os {
        OperatingSystem::Linux => "linux"@,
        OperatingSystem::MacOS => "macos"@,
        OperatingSystem::Windows => "windows"@,
    }
}

/// The asset-name fragment that names an architecture.
pub open spec fn spec_arch_pattern(arch: Architecture) -> Seq<char> {
    match arch {
        Architecture::X86_64 => "x86_64"@,
        Architecture::Aarch64 => "aarch64"@,
    }
}

/// The full asset-name pattern for a platform: `<os>-<arch>`.
pub open spec fn spec_asset_pattern(p: PlatformInfo) -> Seq<char> {
    spec_os_pattern(p.os) + "-"@ + spec_arch_pattern(p.arch)
}

impl PlatformInfo {
    /// The asset name pattern for this platform, used to match release
    /// assets for this platform and architecture combination.
    pub fn asset_pattern(&self) -> (r: String)
        ensures
            r@ == spec_asset_pattern(*self),
    {
        let os_str = match self.os {
            OperatingSystem::Linux => "linux",
            OperatingSystem::MacOS => "macos",
            OperatingSystem::Windows => "windows",
        };
        let arch_str = match self.arch {
            Architecture::X86_64 => "x86_64",
            Architecture::Aarch64 => "aarch64",
        };
        String::from_str(os_str).concat("-").concat(arch_str)
    }
}

/// Semantic version representation (major.minor.patch).
#[derive(Debug, Clone, Copy, PartialEq, Eq, PartialOrd, Ord, Hash, Structural)]
pub struct SemanticVersion {
    pub major: u32,
    pub minor: u32,
    pub patch: u32,
}

impl SemanticVersion {
    /// Create a new semantic version.
    pub fn new(major: u32, minor: u32, patch: u32) -> (r: Self)
        ensures
            r.major == major && r.minor == minor && r.patch == patch,
    {
        SemanticVersion { major, minor, patch }
    }

    /// Render the version as `major.minor.patch`.
    pub fn to_string(&self) -> (r: String)
        ensures
            r@ == spec_dec(self.major as int) + "."@ + spec_dec(self.minor as int) + "."@
                + spec_dec(self.patch as int),
    {
        usize_to_string(self.major as usize).concat(".").concat(
            usize_to_string(self.minor as usize).as_str(),
        ).concat(".").concat(usize_to_string(self.patch as usize).as_str())
    }
}

/// `a` comes strictly after `b` in major, then minor, then patch order.
pub open spec fn spec_newer(a: SemanticVersion, b: SemanticVersion) -> bool {
    if a.major != b.major {
        a.major > b.major
    } else if a.minor != b.minor {
        a.minor > b.minor
    } else {
        a.patch > b.patch
    }
}

/// Version comparator for semantic versions.
pub struct VersionComparator;

impl VersionComparator {
    /// Whether the remote version is newer than the local one, comparing
    /// lexicographically by major, then minor, then patch.
    pub fn is_newer(remote: &SemanticVersion, local: &SemanticVersion) -> (r: bool)
        ensures
            r == spec_newer(*remote, *local),
    {
        if remote.major != local.major {
            remote.major > local.major
        } else if remote.minor != local.minor {
            remote.minor > local.minor
        } else {
            remote.patch > local.patch
        }
    }
}

/// Release asset information from a release listing.  The creation time is
/// carried as seconds since the Unix epoch.
#[derive(Debug, Clone)]
pub struct ReleaseAsset {
    pub name: String,
    pub download_url: String,
    pub size: u64,
    pub created_at: i64,
}

impl ReleaseAsset {
    /// A field-for-field copy of the asset.
    pub fn duplicate(&self) -> (r: ReleaseAsset)
        ensures
            r.name@ == self.name@,
            r.download_url@ == self.download_url@,
            r.size == self.size,
            r.created_at == self.created_at,
    {
        ReleaseAsset {
            name: self.name.clone(),
            download_url: self.download_url.clone(),
            size: self.size,
            created_at: self.created_at,
        }
    }
}

/// Release information from a release listing.  The publication time is
/// carried as seconds since the Unix epoch.
#[derive(Debug, Clone)]
pub struct ReleaseInfo {
    pub version: String,
    pub tag_name: String,
    pub published_at: i64,
    pub assets: Vec<ReleaseAsset>,
    pub body: String,
}

/// Result of an update operation.
#[derive(Debug, Clone)]
pub enum UpdateResult {
    Updated { new_version: String },
    UpToDate,
    Skipped { reason: String },
}

/// Messages sent from the user back to the update flow.
#[derive(Debug, Clone)]
pub enum UserResponse {
    /// User confirmed the action.
    Confirmed,
    /// User declined the action.
    Declined,
    /// User requested retry after error.
    Retry,
    /// User dismissed the message.
    Dismissed,
}

/// Configuration for update behavior.  Directories are carried as plain
/// path strings; the caller resolves them against the filesystem.
#[derive(Debug, Clone)]
pub struct UpdateConfiguration {
    pub enabled: bool,
    pub check_interval_hours: u32,
    pub interactive_mode: bool,
    pub github_repo_owner: String,
    pub github_repo_name: String,
    pub temp_directory: String,
    pub backup_directory: String,
}

impl Default for UpdateConfiguration {
    /// Checking on, every 24 hours, interactive, with empty directory paths
    /// for the caller to resolve.
    fn default() -> (r: Self)
        ensures
            r.enabled == true,
            r.check_interval_hours == 24,
            r.interactive_mode == true,
            r.github_repo_owner@ == "your-org"@,
            r.github_repo_name@ == "transcript-explorer"@,
            r.temp_directory@ == Seq::<char>::empty(),
            r.backup_directory@ == Seq::<char>::empty(),
    {
        UpdateConfiguration {
            enabled: true,
            check_interval_hours: 24,
            interactive_mode: true,
            github_repo_owner: String::from_str("your-org"),
            github_repo_name: String::from_str("transcript-explorer"),
            temp_directory: String::new(),
            backup_directory: String::new(),
        }
    }
}

/// Index of the first asset whose name contains the pattern.
pub open spec fn first_match(assets: Seq<ReleaseAsset>, pat: Seq<char>) -> Option<int>
    decreases assets.len(),
{
    if assets.len() == 0 {
        None
    } else if crate::text::spec_contains(assets[0].name@, pat) {
        Some(0)
    } else {
        match first_match(assets.drop_first(), pat) {
            Some(i) => Some(i + 1),
            None => None,
        }
    }
}

proof fn lemma_first_match_at(assets: Seq<ReleaseAsset>, pat: Seq<char>, i: int)
    requires
        0 <= i < assets.len(),
        forall|k: int| 0 <= k < i ==> !crate::text::spec_contains(#[trigger] assets[k].name@, pat),
        crate::text::spec_contains(assets[i].name@, pat),
    ensures
        first_match(assets, pat) == Some(i),
    decreases i,
{
    if i > 0 {
        assert(!crate::text::spec_contains(assets[0].name@, pat));
        assert(assets.drop_first()[i - 1] == assets[i]);
        assert forall|k: int| 0 <= k < i - 1 implies !crate::text::spec_contains(
            #[trigger] assets.drop_first()[k].name@,
            pat,
        ) by {
            assert(assets.drop_first()[k] == assets[k + 1]);
        }
        lemma_first_match_at(assets.drop_first(), pat, i - 1);
    }
}

proof fn lemma_first_match_none(assets: Seq<ReleaseAsset>, pat: Seq<char>)
    requires
        forall|k: int| 0 <= k < assets.len() ==> !crate::text::spec_contains(
            #[trigger] assets[k].name@,
            pat,
        ),
    ensures
        first_match(assets, pat) is None,
    decreases assets.len(),
{
    if assets.len() > 0 {
        assert forall|k: int| 0 <= k < assets.drop_first().len() implies !crate::text::spec_contains(
            #[trigger] assets.drop_first()[k].name@,
            pat,
        ) by {
            assert(assets.drop_first()[k] == assets[k + 1]);
        }
        lemma_first_match_none(assets.drop_first(), pat);
    }
}

/// Asset selector for matching platform/architecture to release assets.
pub struct AssetSelector;

impl AssetSelector {
    /// Select the first asset whose name contains the platform's pattern,
    /// scanning in listing order; an empty listing and a listing with no
    /// match each yield `AssetNotFound`.
    pub fn select_asset(platform: &PlatformInfo, assets: &[ReleaseAsset]) -> (r: Result<
        ReleaseAsset,
        UpdateError,
    >)
        ensures
            assets@.len() == 0 ==> (r matches Err(e) && (e matches UpdateError::AssetNotFound(m)
                && m@ == "No assets available in release"@)),
            assets@.len() > 0 && first_match(assets@, spec_asset_pattern(*platform)) is None
                ==> (r matches Err(e) && (e matches UpdateError::AssetNotFound(m) && m@
                == "No asset found matching pattern: "@ + spec_asset_pattern(*platform))),
            first_match(assets@, spec_asset_pattern(*platform)) matches Some(i) ==> r matches Ok(a)
                && a.name@ == assets@[i].name@ && a.download_url@ == assets@[i].download_url@
                && a.size == assets@[i].size && a.created_at == assets@[i].created_at,
    {
        if assets.len() == 0 {
            return Err(
                UpdateError::AssetNotFound(String::from_str("No assets available in release")),
            );
        }
        let pattern = platform.asset_pattern();
        let n = assets.len();
        let mut i: usize = 0;
        while i < n
            invariant
                i <= n,
                n == assets@.len(),
                pattern@ == spec_asset_pattern(*platform),
                forall|k: int| 0 <= k < i ==> !crate::text::spec_contains(
                    #[trigger] assets@[k].name@,
                    pattern@,
                ),
            decreases n - i,
        {
            let a = &assets[i];
            if contains_str(a.name.as_str(), pattern.as_str()) {
                proof {
                    lemma_first_match_at(assets@, pattern@, i as int);
                }
                return Ok(a.duplicate());
            }
            i += 1;
        }
        proof {
            lemma_first_match_none(assets@, pattern@);
        }
        Err(
            UpdateError::AssetNotFound(
                String::from_str("No asset found matching pattern: ").concat(pattern.as_str()),
            ),
        )
    }
}

/// The version named by a release tag: the tag with one leading `v`
/// stripped.
pub open spec fn spec_tag_version(tag: Seq<char>) -> Seq<char> {
    if tag.len() > 0 && tag[0] == 'v' {
        tag.drop_first()
    } else {
        tag
    }
}

/// Extract the version from a release tag name (`v1.3.2` names `1.3.2`).
pub fn extract_version(tag: &str) -> (r: String)
    ensures
        r@ == spec_tag_version(tag@),
{
    let len = tag.unicode_len();
    if len > 0 && tag.get_char(0) == 'v' {
        proof {
            assert(tag@.subrange(1, len as int) =~= tag@.drop_first());
        }
        String::from_str(tag.substring_char(1, len))
    } else {
        String::from_str(tag)
    }
}

/// Whether a failed download attempt is retried and after what delay:
/// a retryable failure on the first or second of the three attempts is
/// retried, with the delay doubling from 100 ms.
pub fn retry_decision(attempt: u32, retryable: bool) -> (r: Option<u64>)
    ensures
        r matches Some(d) ==> retryable && attempt < 2 && d == (if attempt == 0 {
            100u64
        } else {
            200u64
        }),
        r is None <==> (!retryable || attempt >= 2),
{
    if retryable && attempt < 2 {
        if attempt == 0 {
            Some(100)
        } else {
            Some(200)
        }
    } else {
        None
    }
}

// ── Version-string parsing ───────────────────────────────────────────────

/// `s` with one leading `v` or `V` removed.
pub open spec fn spec_strip_v(s: Seq<char>) -> Seq<char> {
    if s.len() > 0 && (s[0] == 'v' || s[0] == 'V') {
        s.drop_first()
    } else {
        s
    }
}

/// The version string after trimming and prefix stripping: what the parser
/// actually splits.
pub open spec fn spec_version_body(s: Seq<char>) -> Seq<char> {
    spec_strip_v(spec_trim(s))
}

/// `s` split at every occurrence of `c`; always at least one segment, and
/// adjacent separators yield empty segments.
pub open spec fn spec_split(s: Seq<char>, c: char) -> Seq<Seq<char>>
    decreases s.len(),
{
    if s.len() == 0 {
        seq![s]
    } else if s[0] == c {
        seq![Seq::<char>::empty()] + spec_split(s.drop_first(), c)
    } else {
        let r = spec_split(s.drop_first(), c);
        seq![seq![s[0]] + r[0]] + r.drop_first()
    }
}

proof fn lemma_split_nonempty(s: Seq<char>, c: char)
    ensures
        spec_split(s, c).len() >= 1,
    decreases s.len(),
{
    if s.len() > 0 {
        lemma_split_nonempty(s.drop_first(), c);
    }
}

/// `p` with one leading `+` removed: `str::parse::<u32>` accepts an
/// optional plus sign.
pub open spec fn strip_plus(p: Seq<char>) -> Seq<char> {
    if p.len() > 0 && p[0] == '+' {
        p.drop_first()
    } else {
        p
    }
}

/// Whether `p` parses as a `u32`: an optional `+`, then at least one
/// decimal digit, with the value in range.
pub open spec fn valid_part(p: Seq<char>) -> bool {
    &&& strip_plus(p).len() > 0
    &&& forall|i: int| 0 <= i < strip_plus(p).len() ==> is_digit(#[trigger] strip_plus(p)[i])
    &&& digits_val(strip_plus(p)) <= u32::MAX
}

/// The numeric value `p` parses to.
pub open spec fn part_val(p: Seq<char>) -> int {
    digits_val(strip_plus(p))
}

proof fn lemma_digits_val_nonneg(d: Seq<char>)
    requires
        forall|i: int| 0 <= i < d.len() ==> is_digit(#[trigger] d[i]),
    ensures
        digits_val(d) >= 0,
    decreases d.len(),
{
    if d.len() > 0 {
        assert forall|i: int| 0 <= i < d.drop_last().len() implies is_digit(
            #[trigger] d.drop_last()[i],
        ) by {
            assert(d.drop_last()[i] == d[i]);
        }
        lemma_digits_val_nonneg(d.drop_last());
        assert(is_digit(d.last()));
    }
}

proof fn lemma_digits_val_prefix(d: Seq<char>, j: int)
    requires
        0 <= j <= d.len(),
        forall|i: int| 0 <= i < d.len() ==> is_digit(#[trigger] d[i]),
    ensures
        digits_val(d) >= digits_val(d.take(j)),
    decreases d.len() - j,
{
    if j == d.len() {
        assert(d.take(j) =~= d);
    } else {
        lemma_digits_val_prefix(d, j + 1);
        assert(d.take(j + 1).drop_last() =~= d.take(j));
        assert(d.take(j + 1).last() == d[j]);
        assert forall|i: int| 0 <= i < d.take(j).len() implies is_digit(
            #[trigger] d.take(j)[i],
        ) by {
            assert(d.take(j)[i] == d[i]);
        }
        lemma_digits_val_nonneg(d.take(j));
        assert(is_digit(d[j]));
        assert(digits_val(d.take(j + 1)) == digits_val(d.take(j)) * 10 + (d[j] as int
            - '0' as int));
    }
}

/// Parse one dot-separated component as a `u32`, accepting an optional
/// leading plus sign; `None` on an empty component, a non-digit, or
/// overflow.
fn parse_u32_part(p: &str) -> (r: Option<u32>)
    ensures
        r matches Some(v) ==> valid_part(p@) && v as int == part_val(p@),
        r is None ==> !valid_part(p@),
{
    let len = p.unicode_len();
    let start: usize = if len > 0 && p.get_char(0) == '+' {
        1
    } else {
        0
    };
    let ghost d = strip_plus(p@);
    proof {
        assert(d =~= p@.skip(start as int));
    }
    if len == start {
        proof {
            assert(d.len() == 0);
        }
        return None;
    }
    let mut acc: u64 = 0;
    let mut i: usize = start;
    while i < len
        invariant
            start <= i <= len,
            len as nat == p@.len(),
            d == p@.skip(start as int),
            d == strip_plus(p@),
            forall|k: int| 0 <= k < i - start ==> is_digit(#[trigger] d[k]),
            acc as int == digits_val(d.take(i - start)),
            acc <= u32::MAX,
        decreases len - i,
    {
        let c = p.get_char(i);
        if !(c >= '0' && c <= '9') {
            proof {
                assert(d[i - start] == p@[i as int]);
                assert(strip_plus(p@)[i - start] == d[i - start]);
                assert(!is_digit(strip_plus(p@)[i - start]));
            }
            return None;
        }
        proof {
            assert(d[i - start] == p@[i as int]);
            assert(d.take(i + 1 - start).drop_last() =~= d.take(i - start));
            assert(d.take(i + 1 - start).last() == d[i - start]);
        }
        let digit = (c as u32) - 48;
        let next: u64 = acc * 10 + (digit as u64);
        if next > u32::MAX as u64 {
            proof {
                assert(digits_val(d.take(i + 1 - start)) > u32::MAX);
                if valid_part(p@) {
                    assert forall|k: int| 0 <= k < d.len() implies is_digit(#[trigger] d[k]) by {
                        assert(is_digit(strip_plus(p@)[k]));
                    }
                    lemma_digits_val_prefix(d, i + 1 - start);
                    assert(digits_val(d) >= digits_val(d.take(i + 1 - start)));
                    assert(false);
                }
            }
            return None;
        }
        acc = next;
        i += 1;
    }
    proof {
        assert(d.take(len - start) =~= d);
    }
    Some(acc as u32)
}

/// Split `s` at every dot.
fn split_dots(s: &str) -> (r: Vec<String>)
    ensures
        r@.map_values(|v: String| v@) == spec_split(s@, '.'),
{
    let len = s.unicode_len();
    let mut parts: Vec<String> = Vec::new();
    let mut cur = String::new();
    let mut i: usize = 0;
    proof {
        assert(s@.skip(0) =~= s@);
        let segs = spec_split(s@, '.');
        lemma_split_nonempty(s@, '.');
        assert(cur@ + segs[0] =~= segs[0]);
        assert(seq![segs[0]] + segs.drop_first() =~= segs);
        assert(parts@.map_values(|v: String| v@) + segs =~= segs);
    }
    while i < len
        invariant
            i <= len,
            len as nat == s@.len(),
            spec_split(s@, '.') =~= parts@.map_values(|v: String| v@) + (seq![cur@ + spec_split(
                s@.skip(i as int),
                '.',
            )[0]] + spec_split(s@.skip(i as int), '.').drop_first()),
        decreases len - i,
    {
        let c = s.get_char(i);
        proof {
            assert(s@.skip(i as int)[0] == s@[i as int]);
            assert(s@.skip(i as int).drop_first() =~= s@.skip(i + 1));
            lemma_split_nonempty(s@.skip(i + 1), '.');
        }
        let ghost tail_segs = spec_split(s@.skip(i + 1), '.');
        let ghost here_segs = spec_split(s@.skip(i as int), '.');
        if c == '.' {
            proof {
                assert(here_segs == seq![Seq::<char>::empty()] + tail_segs);
                assert(cur@ + here_segs[0] =~= cur@);
                assert(here_segs.drop_first() =~= tail_segs);
                assert(Seq::<char>::empty() + tail_segs[0] =~= tail_segs[0]);
                assert(seq![tail_segs[0]] + tail_segs.drop_first() =~= tail_segs);
                let ghost pv = parts@.map_values(|v: String| v@);
                assert(pv + (seq![cur@] + tail_segs) =~= (pv + seq![cur@]) + (seq![tail_segs[0]]
                    + tail_segs.drop_first()));
            }
            let ghost prior = parts@;
            let ghost cur_view = cur@;
            parts.push(cur);
            cur = String::new();
            proof {
                assert(parts@.map_values(|v: String| v@) =~= prior.map_values(|v: String| v@)
                    + seq![cur_view]);
            }
        } else {
            proof {
                assert(here_segs == seq![seq![s@[i as int]] + tail_segs[0]]
                    + tail_segs.drop_first());
                assert(cur@ + (seq![s@[i as int]] + tail_segs[0]) =~= (cur@ + seq![s@[i as int]])
                    + tail_segs[0]);
                assert(here_segs.drop_first() =~= tail_segs.drop_first());
            }
            push_char(&mut cur, c);
        }
        i += 1;
    }
    proof {
        assert(s@.skip(len as int) =~= Seq::<char>::empty());
        let empty_segs = spec_split(Seq::<char>::empty(), '.');
        assert(empty_segs == seq![Seq::<char>::empty()]);
        assert(cur@ + empty_segs[0] =~= cur@);
        assert(empty_segs.drop_first() =~= Seq::<Seq<char>>::empty());
        assert(seq![cur@] + Seq::<Seq<char>>::empty() =~= seq![cur@]);
    }
    let ghost prior = parts@;
    let ghost cur_view = cur@;
    parts.push(cur);
    proof {
        assert(parts@.map_values(|v: String| v@) =~= prior.map_values(|v: String| v@)
            + seq![cur_view]);
        assert(prior.map_values(|v: String| v@) + seq![cur_view] =~= spec_split(s@, '.'));
    }
    parts
}

impl SemanticVersion {
    /// Parse a version string in `major.minor.patch` format, with optional
    /// surrounding whitespace and an optional `v` or `V` prefix.  A string
    /// that does not split into exactly three dot-separated components, or
    /// a component that is not an in-range decimal number, yields
    /// `UpdateError::VersionParse` naming the failing piece.
    pub fn parse(version_str: &str) -> (r: Result<SemanticVersion, UpdateError>)
        ensures
            ({
                let parts = spec_split(spec_version_body(version_str@), '.');
                &&& (parts.len() != 3 ==> (r matches Err(e) && (e
                    matches UpdateError::VersionParse(m) && m@
                    == "Expected 3 version components (major.minor.patch), got "@ + spec_dec(
                    parts.len() as int,
                ))))
                &&& (parts.len() == 3 && !valid_part(parts[0]) ==> (r matches Err(e) && (e
                    matches UpdateError::VersionParse(m) && m@ == "Invalid major version: "@
                    + parts[0])))
                &&& (parts.len() == 3 && valid_part(parts[0]) && !valid_part(parts[1]) ==> (r
                    matches Err(e) && (e matches UpdateError::VersionParse(m) && m@
                    == "Invalid minor version: "@ + parts[1])))
                &&& (parts.len() == 3 && valid_part(parts[0]) && valid_part(parts[1])
                    && !valid_part(parts[2]) ==> (r matches Err(e) && (e
                    matches UpdateError::VersionParse(m) && m@ == "Invalid patch version: "@
                    + parts[2])))
                &&& (parts.len() == 3 && valid_part(parts[0]) && valid_part(parts[1])
                    && valid_part(parts[2]) ==> (r matches Ok(v) && v.major as int == part_val(
                    parts[0],
                ) && v.minor as int == part_val(parts[1]) && v.patch as int == part_val(parts[2])))
            }),
    {
        let len = version_str.unicode_len();
        let mut a: usize = 0;
        while a < len && is_space_char(version_str.get_char(a))
            invariant
                a <= len,
                len as nat == version_str@.len(),
                forall|j: int| 0 <= j < a ==> is_space(#[trigger] version_str@[j]),
            decreases len - a,
        {
            a += 1;
        }
        let mut b: usize = len;
        while b > a && is_space_char(version_str.get_char(b - 1))
            invariant
                a <= b <= len,
                len as nat == version_str@.len(),
                forall|j: int| b <= j < len ==> is_space(#[trigger] version_str@[j]),
            decreases b,
        {
            b -= 1;
        }
        let trimmed = version_str.substring_char(a, b);
        proof {
            lemma_trim_start_at(version_str@, a as int);
            let sk = version_str@.skip(a as int);
            assert forall|j: int| b - a <= j < sk.len() implies is_space(#[trigger] sk[j]) by {
                assert(sk[j] == version_str@[j + a]);
            }
            if b > a {
                assert(sk[b - a - 1] == version_str@[b - 1]);
                assert(!is_space(version_str@[b - 1]));
            }
            lemma_trim_end_at(sk, b - a);
            assert(sk.take(b - a) =~= version_str@.subrange(a as int, b as int));
            assert(spec_trim(version_str@) == version_str@.subrange(a as int, b as int));
        }
        let tlen = trimmed.unicode_len();
        let c0 = if tlen > 0 { trimmed.get_char(0) } else { ' ' };
        let body = if tlen > 0 && (c0 == 'v' || c0 == 'V') {
            proof {
                assert(trimmed@.subrange(1, tlen as int) =~= trimmed@.drop_first());
            }
            trimmed.substring_char(1, tlen)
        } else {
            trimmed
        };
        proof {
            assert(body@ == spec_version_body(version_str@));
        }
        let parts = split_dots(body);
        let ghost spec_parts = spec_split(spec_version_body(version_str@), '.');
        proof {
            assert(parts@.map_values(|v: String| v@) == spec_parts);
            assert(parts@.len() == spec_parts.len());
        }
        if parts.len() != 3 {
            return Err(
                UpdateError::VersionParse(
                    String::from_str("Expected 3 version components (major.minor.patch), got ")
                        .concat(usize_to_string(parts.len()).as_str()),
                ),
            );
        }
        proof {
            assert(parts@[0]@ == spec_parts[0]);
            assert(parts@[1]@ == spec_parts[1]);
            assert(parts@[2]@ == spec_parts[2]);
        }
        let major = match parse_u32_part(parts[0].as_str()) {
            Some(v) => v,
            None => {
                return Err(
                    UpdateError::VersionParse(
                        String::from_str("Invalid major version: ").concat(parts[0].as_str()),
                    ),
                );
            },
        };
        let minor = match parse_u32_part(parts[1].as_str()) {
            Some(v) => v,
            None => {
                return Err(
                    UpdateError::VersionParse(
                        String::from_str("Invalid minor version: ").concat(parts[1].as_str()),
                    ),
                );
            },
        };
        let patch = match parse_u32_part(parts[2].as_str()) {
            Some(v) => v,
            None => {
                return Err(
                    UpdateError::VersionParse(
                        String::from_str("Invalid patch version: ").concat(parts[2].as_str()),
                    ),
                );
            },
        };
        Ok(SemanticVersion { major, minor, patch })
    }
}

impl core::str::FromStr for SemanticVersion {
    type Err = UpdateError;

    fn from_str(s: &str) -> Result<Self, Self::Err> {
        SemanticVersion::parse(s)
    }
}

} // verus!

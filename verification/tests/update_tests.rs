//! Tests for platform detection, version parsing and comparison, asset
//! selection, and the update error taxonomy.

use transcript_explorer::update::{
    extract_version, retry_decision, Architecture, AssetSelector, OperatingSystem,
    PlatformDetector, PlatformInfo, ReleaseAsset, SemanticVersion, UpdateConfiguration,
    UpdateError, VersionComparator,
};

fn asset(name: &str, url: &str) -> ReleaseAsset {
    ReleaseAsset {
        name: name.to_string(),
        download_url: url.to_string(),
        size: 1024000,
        created_at: 0,
    }
}

#[test]
fn test_platform_info_creation() {
    let platform = PlatformInfo { os: OperatingSystem::Linux, arch: Architecture::X86_64 };
    assert_eq!(platform.os, OperatingSystem::Linux);
    assert_eq!(platform.arch, Architecture::X86_64);
}

#[test]
fn test_update_error_is_retryable() {
    let download_error = UpdateError::Download { reason: "timeout".to_string(), retryable: true };
    assert!(download_error.is_retryable());

    let verification_error = UpdateError::Verification { reason: "size mismatch".to_string() };
    assert!(!verification_error.is_retryable());
}

#[test]
fn test_update_error_user_message() {
    let error = UpdateError::AssetNotFound("linux-x86_64".to_string());
    let msg = error.user_message();
    assert!(msg.contains("No compatible binary found"));
}

#[test]
fn test_update_error_recovery_instructions() {
    let error = UpdateError::PermissionDenied("binary file".to_string());
    let instructions = error.recovery_instructions();
    assert!(instructions.is_some());
    assert!(instructions.unwrap().contains("elevated privileges"));
}

#[test]
fn test_update_configuration_default() {
    let config = UpdateConfiguration::default();
    assert!(config.enabled);
    assert_eq!(config.check_interval_hours, 24);
    assert!(config.interactive_mode);
}

#[test]
fn test_platform_detector_detect() {
    let platform = PlatformDetector::detect("linux", "x86_64");
    assert!(platform.is_ok());
    let platform = platform.unwrap();
    assert!(matches!(
        platform.os,
        OperatingSystem::Linux | OperatingSystem::MacOS | OperatingSystem::Windows
    ));
    assert!(matches!(platform.arch, Architecture::X86_64 | Architecture::Aarch64));
}

#[test]
fn test_platform_info_asset_pattern() {
    let platform = PlatformInfo { os: OperatingSystem::Linux, arch: Architecture::X86_64 };
    assert_eq!(platform.asset_pattern(), "linux-x86_64");

    let platform = PlatformInfo { os: OperatingSystem::MacOS, arch: Architecture::Aarch64 };
    assert_eq!(platform.asset_pattern(), "macos-aarch64");

    let platform = PlatformInfo { os: OperatingSystem::Windows, arch: Architecture::X86_64 };
    assert_eq!(platform.asset_pattern(), "windows-x86_64");
}

#[test]
fn test_platform_detection_consistency() {
    let platform1 = PlatformDetector::detect("macos", "aarch64").expect("First detection failed");
    let platform2 = PlatformDetector::detect("macos", "aarch64").expect("Second detection failed");
    let platform3 = PlatformDetector::detect("macos", "aarch64").expect("Third detection failed");

    assert_eq!(platform1, platform2);
    assert_eq!(platform2, platform3);
}

#[test]
fn test_platform_detector_rejects_unknown() {
    let os = PlatformDetector::detect("plan9", "x86_64");
    assert!(matches!(os, Err(UpdateError::PlatformDetection(_))));
    let arch = PlatformDetector::detect("linux", "riscv64");
    assert!(matches!(arch, Err(UpdateError::PlatformDetection(_))));
}

#[test]
fn test_semantic_version_parse_valid() {
    let version = SemanticVersion::parse("1.2.3").expect("Failed to parse valid version");
    assert_eq!(version.major, 1);
    assert_eq!(version.minor, 2);
    assert_eq!(version.patch, 3);
}

#[test]
fn test_semantic_version_parse_with_v_prefix() {
    let version = SemanticVersion::parse("v1.2.3").expect("Failed to parse version with v prefix");
    assert_eq!(version.major, 1);
    assert_eq!(version.minor, 2);
    assert_eq!(version.patch, 3);
}

#[test]
fn test_semantic_version_parse_with_uppercase_v() {
    let version = SemanticVersion::parse("V1.2.3").expect("Failed to parse version with V prefix");
    assert_eq!(version.major, 1);
    assert_eq!(version.minor, 2);
    assert_eq!(version.patch, 3);
}

#[test]
fn test_semantic_version_parse_with_whitespace() {
    let version =
        SemanticVersion::parse("  v1.2.3  ").expect("Failed to parse version with whitespace");
    assert_eq!(version.major, 1);
    assert_eq!(version.minor, 2);
    assert_eq!(version.patch, 3);
}

#[test]
fn test_semantic_version_parse_zero_version() {
    let version = SemanticVersion::parse("0.0.0").expect("Failed to parse 0.0.0");
    assert_eq!(version.major, 0);
    assert_eq!(version.minor, 0);
    assert_eq!(version.patch, 0);
}

#[test]
fn test_semantic_version_parse_large_numbers() {
    let version = SemanticVersion::parse("999.999.999").expect("Failed to parse large version");
    assert_eq!(version.major, 999);
    assert_eq!(version.minor, 999);
    assert_eq!(version.patch, 999);
}

#[test]
fn test_semantic_version_parse_invalid_too_few_parts() {
    let result = SemanticVersion::parse("1.2");
    assert!(result.is_err());
    match result {
        Err(UpdateError::VersionParse(msg)) => assert!(msg.contains("3 version components")),
        _ => panic!("Expected VersionParse error"),
    }
}

#[test]
fn test_semantic_version_parse_invalid_too_many_parts() {
    let result = SemanticVersion::parse("1.2.3.4");
    assert!(result.is_err());
    match result {
        Err(UpdateError::VersionParse(msg)) => assert!(msg.contains("3 version components")),
        _ => panic!("Expected VersionParse error"),
    }
}

#[test]
fn test_semantic_version_parse_invalid_non_numeric() {
    let result = SemanticVersion::parse("1.2.abc");
    assert!(result.is_err());
    match result {
        Err(UpdateError::VersionParse(msg)) => assert!(msg.contains("Invalid patch version")),
        _ => panic!("Expected VersionParse error"),
    }
}

#[test]
fn test_semantic_version_parse_invalid_empty_string() {
    let result = SemanticVersion::parse("");
    assert!(result.is_err());
}

#[test]
fn test_semantic_version_parse_overflow() {
    let result = SemanticVersion::parse("4294967296.0.0");
    match result {
        Err(UpdateError::VersionParse(msg)) => assert!(msg.contains("Invalid major version")),
        _ => panic!("Expected VersionParse error"),
    }
}

#[test]
fn test_semantic_version_display() {
    let version = SemanticVersion::new(1, 2, 3);
    assert_eq!(version.to_string(), "1.2.3");
}

#[test]
fn test_semantic_version_from_str() {
    let version: SemanticVersion = "1.2.3".parse().expect("Failed to parse from str");
    assert_eq!(version.major, 1);
    assert_eq!(version.minor, 2);
    assert_eq!(version.patch, 3);
}

#[test]
fn test_version_comparator_is_newer_major() {
    let remote = SemanticVersion::new(2, 0, 0);
    let local = SemanticVersion::new(1, 9, 9);
    assert!(VersionComparator::is_newer(&remote, &local));
}

#[test]
fn test_version_comparator_is_newer_minor() {
    let remote = SemanticVersion::new(1, 3, 0);
    let local = SemanticVersion::new(1, 2, 9);
    assert!(VersionComparator::is_newer(&remote, &local));
}

#[test]
fn test_version_comparator_is_newer_patch() {
    let remote = SemanticVersion::new(1, 2, 3);
    let local = SemanticVersion::new(1, 2, 2);
    assert!(VersionComparator::is_newer(&remote, &local));
}

#[test]
fn test_version_comparator_is_not_newer_equal() {
    let remote = SemanticVersion::new(1, 2, 3);
    let local = SemanticVersion::new(1, 2, 3);
    assert!(!VersionComparator::is_newer(&remote, &local));
}

#[test]
fn test_version_comparator_is_not_newer_older() {
    let remote = SemanticVersion::new(1, 2, 2);
    let local = SemanticVersion::new(1, 2, 3);
    assert!(!VersionComparator::is_newer(&remote, &local));
}

#[test]
fn test_version_comparator_transitivity() {
    let a = SemanticVersion::new(1, 0, 0);
    let b = SemanticVersion::new(1, 1, 0);
    let c = SemanticVersion::new(1, 2, 0);

    assert!(!VersionComparator::is_newer(&a, &b));
    assert!(!VersionComparator::is_newer(&b, &c));
    assert!(!VersionComparator::is_newer(&a, &c));
}

#[test]
fn test_version_comparator_current_version() {
    let current = SemanticVersion::parse("1.3.2").expect("Failed to parse current version");
    let newer = SemanticVersion::parse("1.3.3").expect("Failed to parse newer version");
    let older = SemanticVersion::parse("1.3.1").expect("Failed to parse older version");

    assert!(VersionComparator::is_newer(&newer, &current));
    assert!(!VersionComparator::is_newer(&older, &current));
    assert!(!VersionComparator::is_newer(&current, &current));
}

#[test]
fn test_semantic_version_parsing_idempotence() {
    let version_str = "1.2.3";
    let v1 = SemanticVersion::parse(version_str).expect("First parse failed");
    let v2 = SemanticVersion::parse(version_str).expect("Second parse failed");
    let v3 = SemanticVersion::parse(version_str).expect("Third parse failed");

    assert_eq!(v1, v2);
    assert_eq!(v2, v3);
}

#[test]
fn test_asset_selector_exact_match_linux_x86_64() {
    let platform = PlatformInfo { os: OperatingSystem::Linux, arch: Architecture::X86_64 };

    let assets = vec![
        asset("transcript-explorer-linux-x86_64", "https://example.com/linux-x86_64"),
        asset("transcript-explorer-macos-x86_64", "https://example.com/macos-x86_64"),
    ];

    let result = AssetSelector::select_asset(&platform, &assets);
    assert!(result.is_ok());
    let selected = result.unwrap();
    assert_eq!(selected.name, "transcript-explorer-linux-x86_64");
}

#[test]
fn test_asset_selector_exact_match_macos_aarch64() {
    let platform = PlatformInfo { os: OperatingSystem::MacOS, arch: Architecture::Aarch64 };

    let assets = vec![
        asset("transcript-explorer-linux-x86_64", "https://example.com/linux-x86_64"),
        asset("transcript-explorer-macos-aarch64", "https://example.com/macos-aarch64"),
    ];

    let result = AssetSelector::select_asset(&platform, &assets);
    assert!(result.is_ok());
    let selected = result.unwrap();
    assert_eq!(selected.name, "transcript-explorer-macos-aarch64");
}

#[test]
fn test_asset_selector_exact_match_windows_x86_64() {
    let platform = PlatformInfo { os: OperatingSystem::Windows, arch: Architecture::X86_64 };

    let assets = vec![
        asset("transcript-explorer-windows-x86_64.exe", "https://example.com/windows-x86_64.exe"),
        asset("transcript-explorer-linux-x86_64", "https://example.com/linux-x86_64"),
    ];

    let result = AssetSelector::select_asset(&platform, &assets);
    assert!(result.is_ok());
    let selected = result.unwrap();
    assert_eq!(selected.name, "transcript-explorer-windows-x86_64.exe");
}

#[test]
fn test_asset_selector_no_matching_asset() {
    let platform = PlatformInfo { os: OperatingSystem::Linux, arch: Architecture::X86_64 };

    let assets = vec![
        asset("transcript-explorer-macos-x86_64", "https://example.com/macos-x86_64"),
        asset("transcript-explorer-windows-x86_64.exe", "https://example.com/windows-x86_64.exe"),
    ];

    let result = AssetSelector::select_asset(&platform, &assets);
    assert!(result.is_err());
    match result {
        Err(UpdateError::AssetNotFound(msg)) => {
            assert!(msg.contains("linux-x86_64"));
        }
        _ => panic!("Expected AssetNotFound error"),
    }
}

#[test]
fn test_asset_selector_empty_assets() {
    let platform = PlatformInfo { os: OperatingSystem::Linux, arch: Architecture::X86_64 };

    let assets = vec![];

    let result = AssetSelector::select_asset(&platform, &assets);
    assert!(result.is_err());
    match result {
        Err(UpdateError::AssetNotFound(msg)) => {
            assert!(msg.contains("No assets available"));
        }
        _ => panic!("Expected AssetNotFound error"),
    }
}

#[test]
fn test_asset_selector_multiple_assets_selects_first_match() {
    let platform = PlatformInfo { os: OperatingSystem::Linux, arch: Architecture::X86_64 };

    let assets = vec![
        asset("transcript-explorer-linux-x86_64-v1", "https://example.com/linux-x86_64-v1"),
        asset("transcript-explorer-linux-x86_64-v2", "https://example.com/linux-x86_64-v2"),
    ];

    let result = AssetSelector::select_asset(&platform, &assets);
    assert!(result.is_ok());
    let selected = result.unwrap();
    assert_eq!(selected.name, "transcript-explorer-linux-x86_64-v1");
}

#[test]
fn test_extract_version_from_tag() {
    assert_eq!(extract_version("v1.3.2"), "1.3.2");
    assert_eq!(extract_version("1.3.2"), "1.3.2");
    assert_eq!(extract_version(""), "");
}

#[test]
fn test_retry_decision_backoff() {
    assert_eq!(retry_decision(0, true), Some(100));
    assert_eq!(retry_decision(1, true), Some(200));
    assert_eq!(retry_decision(2, true), None);
    assert_eq!(retry_decision(0, false), None);
}

#[test]
fn test_user_message_includes_status_code() {
    let error = UpdateError::ApiError { status: 404, message: "missing".to_string() };
    assert_eq!(error.user_message(), "GitHub API error (404): missing");
}

use axe::cli::Source as SourceArg;
use axe::github::{select_asset, GithubAsset, GithubRelease, ResolveError};

fn asset(name: &str) -> GithubAsset {
    GithubAsset {
        name: name.to_string(),
        browser_download_url: format!("https://example.com/dl/{}", name),
    }
}

fn release(tag: &str, prerelease: bool, names: &[&str]) -> GithubRelease {
    GithubRelease {
        tag_name: tag.to_string(),
        assets: names.iter().map(|n| asset(n)).collect(),
        prerelease,
    }
}

#[test]
fn arch_alias_picks_arm64_for_aarch64() {
    let releases = vec![release("v1.0", false, &["app-x86_64.AppImage", "app-arm64.AppImage"])];
    let meta = select_asset(&releases, false, "aarch64").unwrap();
    assert_eq!(meta.asset.name, "app-arm64.AppImage");
    assert_eq!(meta.version, "v1.0");
}

#[test]
fn arch_alias_picks_arm64_regardless_of_order() {
    let releases = vec![release("v1.0", false, &["app-arm64.AppImage", "app-x86_64.AppImage"])];
    let meta = select_asset(&releases, false, "aarch64").unwrap();
    assert_eq!(meta.asset.name, "app-arm64.AppImage");
}

#[test]
fn arch_alias_priority_order_is_kept() {
    let releases = vec![release("v2", false, &["tool-amd64.AppImage", "tool-x86_64.AppImage"])];
    let meta = select_asset(&releases, false, "x86_64").unwrap();
    assert_eq!(meta.asset.name, "tool-x86_64.AppImage");
}

#[test]
fn single_asset_fallback_serves_default_arch() {
    let releases = vec![release("v3", false, &["plain.AppImage", "notes.txt"])];
    let meta = select_asset(&releases, false, "x86_64").unwrap();
    assert_eq!(meta.asset.name, "plain.AppImage");
}

#[test]
fn single_asset_fallback_refused_for_other_arch() {
    let releases = vec![release("v3", false, &["plain.AppImage"])];
    let err = select_asset(&releases, false, "aarch64").unwrap_err();
    assert_eq!(err, ResolveError::NoMatch);
}

#[test]
fn empty_release_list_is_its_own_error() {
    let releases: Vec<GithubRelease> = Vec::new();
    let err = select_asset(&releases, false, "x86_64").unwrap_err();
    assert_eq!(err, ResolveError::NoReleases);
}

#[test]
fn prerelease_skipped_unless_asked_for() {
    let releases = vec![
        release("v2.0-rc1", true, &["app-x86_64.AppImage"]),
        release("v1.9", false, &["app-x86_64.AppImage"]),
    ];
    let stable = select_asset(&releases, false, "x86_64").unwrap();
    assert_eq!(stable.version, "v1.9");
    let cutting_edge = select_asset(&releases, true, "x86_64").unwrap();
    assert_eq!(cutting_edge.version, "v2.0-rc1");
}

#[test]
fn release_without_package_assets_is_skipped() {
    let releases = vec![
        release("v5", false, &["source.tar.gz", "README.md"]),
        release("v4", false, &["app-x86_64.AppImage"]),
    ];
    let meta = select_asset(&releases, false, "x86_64").unwrap();
    assert_eq!(meta.version, "v4");
}

#[test]
fn package_suffix_matched_case_insensitively() {
    let releases = vec![release("v6", false, &["App-X86_64.APPIMAGE"])];
    let meta = select_asset(&releases, false, "x86_64").unwrap();
    assert_eq!(meta.asset.name, "App-X86_64.APPIMAGE");
}

#[test]
fn unknown_arch_matches_itself_only() {
    let releases = vec![release("v7", false, &["app-riscv64.AppImage", "app-x86_64.AppImage"])];
    let meta = select_asset(&releases, false, "riscv64").unwrap();
    assert_eq!(meta.asset.name, "app-riscv64.AppImage");
    let err = select_asset(&releases, false, "mips").unwrap_err();
    assert_eq!(err, ResolveError::NoMatch);
}

#[test]
fn parse_shorthand_source() {
    match SourceArg::parse("foo/bar").unwrap() {
        SourceArg::Github { owner, repo } => {
            assert_eq!(owner, "foo");
            assert_eq!(repo, "bar");
        }
        other => panic!("expected a repository source, got {:?}", other),
    }
}

#[test]
fn parse_shorthand_trims_spaces() {
    match SourceArg::parse(" foo / bar ").unwrap() {
        SourceArg::Github { owner, repo } => {
            assert_eq!(owner, "foo");
            assert_eq!(repo, "bar");
        }
        other => panic!("expected a repository source, got {:?}", other),
    }
}

#[test]
fn parse_repository_url_normalizes() {
    match SourceArg::parse("https://github.com/foo/bar/").unwrap() {
        SourceArg::Github { owner, repo } => {
            assert_eq!(owner, "foo");
            assert_eq!(repo, "bar");
        }
        other => panic!("expected a repository source, got {:?}", other),
    }
}

#[test]
fn parse_http_repository_url_normalizes() {
    match SourceArg::parse("http://github.com/baz/qux").unwrap() {
        SourceArg::Github { owner, repo } => {
            assert_eq!(owner, "baz");
            assert_eq!(repo, "qux");
        }
        other => panic!("expected a repository source, got {:?}", other),
    }
}

#[test]
fn parse_plain_url_stays_a_url() {
    match SourceArg::parse("https://example.com/tool.AppImage").unwrap() {
        SourceArg::Url(u) => assert_eq!(u, "https://example.com/tool.AppImage"),
        other => panic!("expected a URL source, got {:?}", other),
    }
}

#[test]
fn parse_deep_repository_url_stays_a_url() {
    match SourceArg::parse("https://github.com/foo/bar/releases/latest").unwrap() {
        SourceArg::Url(u) => assert_eq!(u, "https://github.com/foo/bar/releases/latest"),
        other => panic!("expected a URL source, got {:?}", other),
    }
}

#[test]
fn parse_rejects_bare_word() {
    assert!(SourceArg::parse("foobar").is_err());
}

#[test]
fn parse_rejects_blank_repo_part() {
    assert!(SourceArg::parse("foo/ ").is_err());
    assert!(SourceArg::parse("/bar").is_err());
}

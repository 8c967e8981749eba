use axe::codec::{parse_lockfile, render_lockfile};
use axe::github::{select_asset, GithubAsset, GithubRelease};
use axe::config::{AxePaths, Config};
use axe::hashing::{sha256_hex, to_hex};
use axe::lockfile::{LockError, Lockfile, PackageEntry, Source};
use axe::ops::{
    affirmative_default_no, affirmative_default_yes, confirm_name, dest_path,
    find_matching_source, missing_indices, plan_add, plan_name, should_remove_old, status_label,
    suggested_name_for_url, update_needed, AddDecision, NamePlan,
};

fn entry(name: &str, version: &str, url: &str, source: Source) -> PackageEntry {
    PackageEntry {
        name: name.to_string(),
        version: version.to_string(),
        url: url.to_string(),
        hash: "deadbeef".to_string(),
        path: format!("/data/bin/{}", name),
        source,
    }
}

fn github(owner: &str, repo: &str) -> Source {
    Source::Github {
        owner: owner.to_string(),
        repo: repo.to_string(),
        prerelease: false,
    }
}

#[test]
fn lookup_is_case_insensitive_and_keys_keep_casing() {
    let mut lf = Lockfile::new();
    lf.insert(entry("MyTool", "v1", "https://x/MyTool.AppImage", github("foo", "bar")));
    lf.insert(entry("other", "v2", "https://x/other.AppImage", Source::Direct));
    let i = lf.find_index_ci("mytool").unwrap();
    assert_eq!(lf.packages[i].name, "MyTool");
    let j = lf.find_index_ci("OTHER").unwrap();
    assert_eq!(lf.packages[j].name, "other");
    assert!(lf.find_index("mytool").is_none());
    assert!(lf.find_index("MyTool").is_some());
}

#[test]
fn remove_resolves_name_case_insensitively() {
    let mut lf = Lockfile::new();
    lf.insert(entry("Alpha", "v1", "https://x/a.AppImage", github("a", "a")));
    lf.insert(entry("Beta", "v1", "https://x/b.AppImage", github("b", "b")));
    let removed = lf.remove_ci("ALPHA").unwrap();
    assert_eq!(removed.name, "Alpha");
    assert_eq!(lf.len(), 1);
    assert_eq!(lf.packages[0].name, "Beta");
    assert_eq!(lf.remove_ci("alpha").unwrap_err(), LockError::NotFound);
}

#[test]
fn rename_changes_name_only() {
    let mut lf = Lockfile::new();
    lf.insert(entry("tool", "v1", "https://x/tool.AppImage", github("o", "r")));
    lf.rename("TOOL", "sharp-tool").unwrap();
    assert_eq!(lf.packages[0].name, "sharp-tool");
    assert_eq!(lf.packages[0].version, "v1");
    assert_eq!(lf.packages[0].path, "/data/bin/tool");
    assert_eq!(lf.packages[0].hash, "deadbeef");
}

#[test]
fn rename_collision_fails_without_mutation() {
    let mut lf = Lockfile::new();
    lf.insert(entry("one", "v1", "https://x/one.AppImage", github("o", "one")));
    lf.insert(entry("two", "v2", "https://x/two.AppImage", github("o", "two")));
    let err = lf.rename("one", "two").unwrap_err();
    assert_eq!(err, LockError::NameTaken);
    assert_eq!(lf.packages[0].name, "one");
    assert_eq!(lf.packages[0].version, "v1");
    assert_eq!(lf.packages[1].name, "two");
    assert_eq!(lf.packages[1].version, "v2");
}

#[test]
fn rename_of_missing_name_fails() {
    let mut lf = Lockfile::new();
    lf.insert(entry("one", "v1", "https://x/one.AppImage", Source::Direct));
    assert_eq!(lf.rename("ghost", "spirit").unwrap_err(), LockError::NotFound);
    assert_eq!(lf.packages[0].name, "one");
}

#[test]
fn insert_replaces_entry_of_same_name() {
    let mut lf = Lockfile::new();
    lf.insert(entry("tool", "v1", "https://x/tool-1.AppImage", github("o", "r")));
    lf.insert(entry("tool", "v2", "https://x/tool-2.AppImage", github("o", "r")));
    assert_eq!(lf.len(), 1);
    assert_eq!(lf.packages[0].version, "v2");
}

#[test]
fn roundtrip_keeps_every_field() {
    let mut lf = Lockfile::new();
    lf.insert(PackageEntry {
        name: "MyTool".to_string(),
        version: "v1.2.3".to_string(),
        url: "https://example.com/dl/MyTool-x86_64.AppImage".to_string(),
        hash: "ab12".to_string(),
        path: "/data/bin/MyTool-x86_64.AppImage".to_string(),
        source: Source::Github {
            owner: "Foo".to_string(),
            repo: "Bar".to_string(),
            prerelease: true,
        },
    });
    lf.insert(PackageEntry {
        name: "direct one".to_string(),
        version: "unknown".to_string(),
        url: "https://example.com/direct.AppImage".to_string(),
        hash: "".to_string(),
        path: "/data/bin/direct.AppImage".to_string(),
        source: Source::Direct,
    });
    let text = render_lockfile(&lf);
    let back = parse_lockfile(&text).unwrap();
    assert_eq!(back.len(), 2);
    let a = &back.packages[0];
    assert_eq!(a.name, "MyTool");
    assert_eq!(a.version, "v1.2.3");
    assert_eq!(a.url, "https://example.com/dl/MyTool-x86_64.AppImage");
    assert_eq!(a.hash, "ab12");
    assert_eq!(a.path, "/data/bin/MyTool-x86_64.AppImage");
    match &a.source {
        Source::Github { owner, repo, prerelease } => {
            assert_eq!(owner, "Foo");
            assert_eq!(repo, "Bar");
            assert!(*prerelease);
        }
        Source::Direct => panic!("expected a repository source"),
    }
    let b = &back.packages[1];
    assert_eq!(b.name, "direct one");
    assert_eq!(b.version, "unknown");
    assert_eq!(b.hash, "");
    assert!(matches!(b.source, Source::Direct));
    let again = render_lockfile(&back);
    assert_eq!(text, again);
}

#[test]
fn roundtrip_keeps_newlines_and_backslashes() {
    let mut lf = Lockfile::new();
    lf.insert(PackageEntry {
        name: "we\nird\\name".to_string(),
        version: "v\\1\n2".to_string(),
        url: "https://x/a\nb".to_string(),
        hash: "\n".to_string(),
        path: "/data/bin/a\\b".to_string(),
        source: Source::Github {
            owner: "o\nwner".to_string(),
            repo: "re\\po".to_string(),
            prerelease: false,
        },
    });
    let text = render_lockfile(&lf);
    let back = parse_lockfile(&text).unwrap();
    assert_eq!(back.len(), 1);
    let e = &back.packages[0];
    assert_eq!(e.name, "we\nird\\name");
    assert_eq!(e.version, "v\\1\n2");
    assert_eq!(e.url, "https://x/a\nb");
    assert_eq!(e.hash, "\n");
    assert_eq!(e.path, "/data/bin/a\\b");
    match &e.source {
        Source::Github { owner, repo, prerelease } => {
            assert_eq!(owner, "o\nwner");
            assert_eq!(repo, "re\\po");
            assert!(!*prerelease);
        }
        Source::Direct => panic!("expected a repository source"),
    }
}

#[test]
fn parse_rejects_malformed_escape() {
    assert!(parse_lockfile("a\\x\nv\nu\nh\np\ndirect\n").is_none());
    assert!(parse_lockfile("a\\\nv\nu\nh\np\ndirect\n").is_none());
}

#[test]
fn roundtrip_of_empty_lockfile() {
    let lf = Lockfile::new();
    let text = render_lockfile(&lf);
    assert_eq!(text, "");
    let back = parse_lockfile(&text).unwrap();
    assert_eq!(back.len(), 0);
}

#[test]
fn parse_rejects_garbage() {
    assert!(parse_lockfile("no trailing newline").is_none());
    assert!(parse_lockfile("a\nb\nc\n").is_none());
}

#[test]
fn parse_rejects_repeated_name() {
    let mut lf = Lockfile::new();
    lf.insert(entry("dup", "v1", "https://x/dup.AppImage", Source::Direct));
    let one = render_lockfile(&lf);
    let twice = format!("{}{}", one, one);
    assert!(parse_lockfile(&twice).is_none());
}

#[test]
fn repeated_add_is_a_no_op() {
    let mut lf = Lockfile::new();
    let e = entry("tool", "v1", "https://x/tool.AppImage", github("o", "r"));
    assert_eq!(plan_add(&lf, "tool", "v1"), AddDecision::Proceed);
    lf.insert(e);
    let before = render_lockfile(&lf);
    assert_eq!(plan_add(&lf, "tool", "v1"), AddDecision::AlreadyInstalled);
    let after = render_lockfile(&lf);
    assert_eq!(before, after);
    assert_eq!(plan_add(&lf, "tool", "v2"), AddDecision::Proceed);
}

#[test]
fn update_noop_when_versions_equal() {
    let e = entry("tool", "v1.4", "https://x/tool.AppImage", github("o", "r"));
    assert!(!update_needed(&e, "v1.4"));
    assert!(update_needed(&e, "v1.5"));
}

#[test]
fn matching_source_found_under_existing_name() {
    let mut lf = Lockfile::new();
    lf.insert(entry("mytool", "v1", "https://x/mytool.AppImage", github("Foo", "Bar")));
    let found = find_matching_source(&lf, &github("foo", "BAR"), "");
    assert_eq!(found.unwrap(), "mytool");
    let direct = find_matching_source(&lf, &Source::Direct, "https://x/mytool.AppImage");
    assert!(direct.is_none());
}

#[test]
fn matching_direct_source_compares_urls() {
    let mut lf = Lockfile::new();
    lf.insert(entry("d", "unknown", "https://x/d.AppImage", Source::Direct));
    let hit = find_matching_source(&lf, &Source::Direct, "https://x/d.AppImage");
    assert_eq!(hit.unwrap(), "d");
    let miss = find_matching_source(&lf, &Source::Direct, "https://x/other.AppImage");
    assert!(miss.is_none());
}

#[test]
fn name_precedence_is_override_then_existing_then_suggested() {
    let decided = plan_name(
        Some("given".to_string()),
        Some("stored".to_string()),
        false,
        "sugg".to_string(),
    );
    assert!(matches!(decided, NamePlan::Decided(n) if n == "given"));
    let existing = plan_name(None, Some("stored".to_string()), true, "sugg".to_string());
    assert!(matches!(existing, NamePlan::Decided(n) if n == "stored"));
    let auto = plan_name(None, None, true, "sugg".to_string());
    assert!(matches!(auto, NamePlan::Decided(n) if n == "sugg"));
    let ask = plan_name(None, None, false, "sugg".to_string());
    assert!(matches!(ask, NamePlan::Prompt(s) if s == "sugg"));
}

#[test]
fn confirmed_name_defaults_when_blank() {
    assert_eq!(confirm_name("sugg".to_string(), "  \n"), "sugg");
    assert_eq!(confirm_name("sugg".to_string(), " custom \n"), "custom");
}

#[test]
fn suggested_name_strips_segment_and_suffix() {
    assert_eq!(suggested_name_for_url("https://example.com/dl/Tool.AppImage"), "Tool");
    assert_eq!(suggested_name_for_url("https://example.com/dl/tool.appimage"), "tool");
    assert_eq!(suggested_name_for_url("plain"), "plain");
    assert_eq!(suggested_name_for_url("https://x/a.AppImage.AppImage"), "a");
}

#[test]
fn dest_path_joins_bin_dir_and_file_name() {
    assert_eq!(
        dest_path("/data/bin", "https://example.com/dl/app.AppImage"),
        "/data/bin/app.AppImage"
    );
}

#[test]
fn old_artifact_removed_only_when_path_changed() {
    assert!(should_remove_old("/b/old.AppImage", "/b/new.AppImage", true));
    assert!(!should_remove_old("/b/same.AppImage", "/b/same.AppImage", true));
    assert!(!should_remove_old("/b/old.AppImage", "/b/new.AppImage", false));
}

#[test]
fn missing_indices_lists_absent_artifacts() {
    let mut lf = Lockfile::new();
    lf.insert(entry("a", "v1", "https://x/a.AppImage", Source::Direct));
    lf.insert(entry("b", "v1", "https://x/b.AppImage", Source::Direct));
    lf.insert(entry("c", "v1", "https://x/c.AppImage", Source::Direct));
    let missing = missing_indices(&lf, &vec![true, false, false]);
    assert_eq!(missing, vec![1, 2]);
    let none = missing_indices(&lf, &vec![true, true, true]);
    assert!(none.is_empty());
}

#[test]
fn status_labels() {
    assert_eq!(status_label(true), "Installed");
    assert_eq!(status_label(false), "Missing");
}

#[test]
fn prompt_answers() {
    assert!(affirmative_default_yes(""));
    assert!(affirmative_default_yes("  \n"));
    assert!(affirmative_default_yes("Y"));
    assert!(affirmative_default_yes("yes\n"));
    assert!(!affirmative_default_yes("n"));
    assert!(!affirmative_default_no(""));
    assert!(affirmative_default_no(" YES "));
    assert!(!affirmative_default_no("no"));
}

#[test]
fn digest_of_known_bytes() {
    assert_eq!(
        sha256_hex(b"abc"),
        "ba7816bf8f01cfea414140de5dae2223b00361a396177a9cb410ff61f20015ad"
    );
    assert_eq!(
        sha256_hex(b""),
        "e3b0c44298fc1c149afbf4c8996fb92427ae41e4649b934ca495991b7852b855"
    );
}

#[test]
fn hex_rendering_of_bytes() {
    assert_eq!(to_hex(&[0x00, 0xff, 0x1a]), "00ff1a");
    assert_eq!(to_hex(&[]), "");
}

#[test]
fn arch_string_follows_detection() {
    assert_eq!(axe::config::arch_from_flags(true, false), "x86_64");
    assert_eq!(axe::config::arch_from_flags(false, true), "aarch64");
    assert_eq!(axe::config::arch_from_flags(false, false), "x86_64");
}

#[test]
fn default_config_detects_a_supported_arch() {
    let c = Config::default();
    assert!(c.arch == "x86_64" || c.arch == "aarch64");
    assert!(c.github_api_key.is_none());
}

#[test]
fn well_known_paths_hang_off_config_dir() {
    let p = AxePaths {
        config_dir: "/home/u/.config/axe".to_string(),
        data_dir: "/home/u/.local/share/axe".to_string(),
        bin_dir: "/home/u/.local/share/axe/bin".to_string(),
    };
    assert_eq!(p.lockfile_path(), "/home/u/.config/axe/axe.lock");
    assert_eq!(p.config_path(), "/home/u/.config/axe/axe.toml");
}

#[test]
fn platform_paths_put_binaries_under_data() {
    match AxePaths::new() {
        Ok(p) => assert_eq!(p.bin_dir, format!("{}/bin", p.data_dir)),
        Err(e) => assert!(!e.is_empty()),
    }
}

#[test]
fn end_to_end_add_produces_full_entry() {
    let releases = vec![GithubRelease {
        tag_name: "v2.1.0".to_string(),
        assets: vec![GithubAsset {
            name: "bar-x86_64.AppImage".to_string(),
            browser_download_url: "https://example.com/dl/bar-x86_64.AppImage".to_string(),
        }],
        prerelease: false,
    }];
    let meta = select_asset(&releases, false, "x86_64").unwrap();
    let dest = dest_path("/data/bin", &meta.asset.browser_download_url);
    let hash = sha256_hex(b"artifact bytes");
    assert_eq!(hash.len(), 64);
    assert!(hash.chars().all(|c| c.is_ascii_digit() || ('a'..='f').contains(&c)));
    let mut lf = Lockfile::new();
    lf.insert(PackageEntry {
        name: "bartool".to_string(),
        version: meta.version.clone(),
        url: meta.asset.browser_download_url.clone(),
        hash,
        path: dest,
        source: github("foo", "bar"),
    });
    let text = render_lockfile(&lf);
    let back = parse_lockfile(&text).unwrap();
    let e = &back.packages[0];
    assert_eq!(e.name, "bartool");
    assert_eq!(e.version, "v2.1.0");
    assert_eq!(e.path, "/data/bin/bar-x86_64.AppImage");
    match &e.source {
        Source::Github { owner, repo, prerelease } => {
            assert_eq!(owner, "foo");
            assert_eq!(repo, "bar");
            assert!(!*prerelease);
        }
        Source::Direct => panic!("expected a repository source"),
    }
}

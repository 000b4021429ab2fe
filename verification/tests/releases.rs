use osu_map_manager::app_update::{
    current_version_text, download_step, is_newer_version, is_plain_exe, is_release_exe,
    latest_release_url, parse_version_parts, select_release_asset, GithubAsset, GithubRelease,
    MAX_RELEASE_DOWNLOAD_BYTES, RELEASE_ASSET_ZIP,
};

#[test]
fn newer_patch_counts_as_update() {
    assert!(is_newer_version("v0.2.0", "v0.1.0"));
    assert!(is_newer_version("v0.1.1", "0.1.0"));
    assert!(!is_newer_version("v0.1.0", "v0.1.0"));
    assert!(!is_newer_version("v0.1.0", "v0.2.0"));
}

#[test]
fn prefers_the_expected_zip_asset() {
    let release = GithubRelease {
        tag_name: "v0.7.0".to_owned(),
        body: Some("notes".to_owned()),
        assets: vec![
            GithubAsset {
                name: "checksums.txt".to_owned(),
                browser_download_url: "https://example.com/c".to_owned(),
            },
            GithubAsset {
                name: RELEASE_ASSET_ZIP.to_owned(),
                browser_download_url: "https://example.com/z".to_owned(),
            },
        ],
    };
    let picked = select_release_asset(&release).expect("asset");
    assert_eq!(picked.asset_url, "https://example.com/z");
    assert_eq!(picked.tag, "v0.7.0");
}

#[test]
fn falls_back_to_any_zip_or_exe() {
    let release = GithubRelease {
        tag_name: "v0.7.0".to_owned(),
        body: None,
        assets: vec![GithubAsset {
            name: "app.exe".to_owned(),
            browser_download_url: "https://example.com/e".to_owned(),
        }],
    };
    let picked = select_release_asset(&release).expect("asset");
    assert_eq!(picked.asset_name, "app.exe");
}

#[test]
fn no_releases_or_assets_yields_none() {
    let release = GithubRelease {
        tag_name: String::new(),
        body: None,
        assets: vec![],
    };
    assert!(select_release_asset(&release).is_none());
}

#[test]
fn version_tags_have_parts() {
    assert_eq!(parse_version_parts(" V1.20.3-rc1 "), Some(vec![1, 20, 3]));
    assert_eq!(parse_version_parts("1.x"), None);
    assert_eq!(parse_version_parts("-rc"), None);
    assert_eq!(parse_version_parts("v"), None);
    assert!(is_newer_version("1.0.1", "1.0"));
    assert!(!is_newer_version("1.0", "1.0.1"));
    assert!(is_newer_version("nightly", "1.0"));
    assert!(!is_newer_version("vnightly", "nightly"));
    assert!(is_newer_version("v0.1.0-hotfix", "v0.1.0"));
    assert!(is_newer_version("v0.1.0", "v0.1.0-hotfix"));
    assert!(!is_newer_version("v0.1.0-hotfix", "0.1.0-hotfix"));
    assert!(is_newer_version("0.1.0+2", "0.2.0"));
    assert_eq!(current_version_text(), "v0.1.0");
    assert_eq!(
        latest_release_url(),
        "https://api.github.com/repos/feelvm/osu-map-manager/releases/latest"
    );
}

#[test]
fn downloads_have_a_limit() {
    assert_eq!(download_step(10, 5), Some(15));
    assert_eq!(download_step(MAX_RELEASE_DOWNLOAD_BYTES, 0), Some(MAX_RELEASE_DOWNLOAD_BYTES));
    assert_eq!(download_step(MAX_RELEASE_DOWNLOAD_BYTES, 1), None);
    assert_eq!(download_step(0, u64::MAX), None);
    assert!(is_plain_exe("app.exe"));
    assert!(!is_plain_exe("app.zip"));
    assert!(is_release_exe("OSU-map-manager.EXE"));
}

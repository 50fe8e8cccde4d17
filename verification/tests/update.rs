use animstudio::update::{parse_version, CURRENT_VERSION};

#[test]
fn versions_compare_sanely() {
    assert!(parse_version("v0.2.0") > parse_version("0.1.0"));
    assert!(parse_version("1.0.0") > parse_version("v0.9.9"));
    assert_eq!(parse_version("v1.2.3"), (1, 2, 3));
    assert_eq!(parse_version("1.2.3-beta.1"), (1, 2, 3));
    // Garbage can never look newer.
    assert_eq!(parse_version("garbage"), (0, 0, 0));
    assert!(parse_version("garbage") <= parse_version(CURRENT_VERSION));
}

#[test]
fn version_tags_tolerate_noise() {
    assert_eq!(parse_version("  V2.10\n"), (2, 10, 0));
    assert_eq!(parse_version("vv3"), (3, 0, 0));
    assert_eq!(parse_version("1.x.5"), (1, 0, 5));
    assert_eq!(parse_version("4294967296.1.1"), (0, 1, 1));
    assert_eq!(parse_version(""), (0, 0, 0));
    assert_eq!(parse_version("1.2.3.4"), (1, 2, 3));
}

use animstudio::update::{release_event, ReleaseAsset, UpdateEvent};

fn asset(name: &str, url: &str, size: u64) -> ReleaseAsset {
    ReleaseAsset { name: name.to_string(), url: url.to_string(), size }
}

#[test]
fn releases_are_judged_against_the_running_build() {
    assert_eq!(
        release_event(String::new(), "0.1.0", None),
        UpdateEvent::Note("update check: no releases yet".to_string())
    );
    assert_eq!(release_event("v0.1.0".to_string(), "0.1.0", None), UpdateEvent::UpToDate("v0.1.0".to_string()));
    assert_eq!(release_event("v0.0.9".to_string(), "0.1.0", None), UpdateEvent::UpToDate("v0.0.9".to_string()));
    assert_eq!(
        release_event("v0.2.0".to_string(), "0.1.0", None),
        UpdateEvent::Note("release v0.2.0 has no assets".to_string())
    );
    let assets = vec![
        asset("AnimStudio-setup.exe", "https://x/setup", 10),
        asset("animstudio-0.2.0.zip", "https://x/zip", 10),
        asset("AnimStudio-0.2.0.exe", "http://x/plain", 10),
        asset("AnimStudio-0.2.0.exe", "https://x/empty", 0),
        asset("AnimStudio-0.2.0.EXE", "https://x/good", 42),
        asset("animstudio.exe", "https://x/later", 7),
    ];
    assert_eq!(
        release_event("v0.2.0".to_string(), "0.1.0", Some(assets)),
        UpdateEvent::Ready { tag: "v0.2.0".to_string(), url: "https://x/good".to_string(), size: 42 }
    );
    assert_eq!(
        release_event("v0.2.0".to_string(), "0.1.0", Some(vec![asset("readme.txt", "https://x", 1)])),
        UpdateEvent::Note("release v0.2.0 carries no animstudio exe".to_string())
    );
}

#[test]
fn a_tag_that_does_not_start_with_a_number_reads_as_zero() {
    assert_eq!(parse_version("x.5.1"), (0, 0, 0));
    assert_eq!(parse_version("v"), (0, 0, 0));
    assert_eq!(parse_version(".5.1"), (0, 0, 0));
    assert_eq!(parse_version("vx1.2"), (0, 0, 0));
    assert_eq!(parse_version("1x.5"), (1, 5, 0));
}

use animstudio::update::release_from_body;

#[test]
fn a_release_body_is_read_and_judged() {
    match release_from_body("{", CURRENT_VERSION) {
        UpdateEvent::Note(n) => assert!(n.starts_with("update check: ")),
        other => panic!("{:?}", other),
    }
    assert_eq!(
        release_from_body("{\"assets\":[]}", CURRENT_VERSION),
        UpdateEvent::Note("update check: no releases yet".to_string())
    );
    assert_eq!(
        release_from_body("{\"tag_name\":\"v0.0.9\"}", CURRENT_VERSION),
        UpdateEvent::UpToDate("v0.0.9".to_string())
    );
    assert_eq!(
        release_from_body("{\"tag_name\":\"v9.0.0\"}", CURRENT_VERSION),
        UpdateEvent::Note("release v9.0.0 has no assets".to_string())
    );
    let body = "{\"tag_name\":\"v9.0.0\",\"assets\":[{\"name\":\"animstudio-setup.exe\",\"browser_download_url\":\"https://x/s.exe\",\"size\":5},{\"name\":\"AnimStudio.exe\",\"browser_download_url\":\"https://x/a.exe\",\"size\":7}]}";
    assert_eq!(
        release_from_body(body, CURRENT_VERSION),
        UpdateEvent::Ready { tag: "v9.0.0".to_string(), url: "https://x/a.exe".to_string(), size: 7 }
    );
    let sizeless = "{\"tag_name\":\"v9.0.0\",\"assets\":[{\"name\":\"animstudio.exe\",\"browser_download_url\":\"https://x/a.exe\"}]}";
    assert_eq!(
        release_from_body(sizeless, CURRENT_VERSION),
        UpdateEvent::Note("release v9.0.0 carries no animstudio exe".to_string())
    );
}

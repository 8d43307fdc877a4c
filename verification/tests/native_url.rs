use proflow::document::{
    LocalRelativePath, RelativeFilePath, Url, UrlStorage, PLATFORM_MACOS, PLATFORM_UNKNOWN,
    ROOT_SHOW,
};
use proflow::native_url::{
    decode_file_url_or_path, decode_file_url_or_path_lossy, decoded_basename,
    decoded_basename_lossy, file_url, library_relative_path, percent_decode_lossy,
    percent_decode_strict, preferred_source, presentation_document_url,
    propresenter_root_from_library_path, NativeFileLocator, NativeFileResolution,
};

fn storage_url(value: &str) -> Url {
    Url {
        platform: PLATFORM_UNKNOWN,
        storage: Some(UrlStorage::AbsoluteString(value.to_string())),
        relative_file_path: None,
    }
}

#[test]
fn library_suffix_requires_a_path_component_boundary() {
    assert_eq!(
        library_relative_path("file:///show/Libraries/Default/Song%20One.pro").as_deref(),
        Some("Libraries/Default/Song One.pro")
    );
    assert_eq!(
        library_relative_path("file:///show/NotLibraries/Default/Song.pro"),
        None
    );

    let non_library = presentation_document_url("/exports/Song.pro");
    assert!(non_library.relative_file_path.is_none());
}

#[test]
fn locator_rebases_exact_theme_suffix_to_the_active_show() {
    let show_root = "/tmp/session/active-show";
    let active = "/tmp/session/active-show/Themes/VPC Theme/Theme".to_string();
    let native =
        storage_url("file:///Users/other/Documents/ProPresenter/Themes/VPC%20Theme/Theme");

    let locator = NativeFileLocator::from_url(&native).expect("locator");

    assert_eq!(
        locator.resolve(Some(show_root), &vec![active.clone()]),
        NativeFileResolution::Available(active)
    );
    assert!(library_relative_path("file:///show/NotThemes/VPC/Theme").is_none());
}

#[test]
fn remote_theme_url_is_never_rebased_to_a_local_show_file() {
    let show_root = "/tmp/session/active-show";
    let local_collision = "/tmp/session/active-show/Themes/Remote/Theme".to_string();
    let native = storage_url("https://example.com/Themes/Remote/Theme");

    let locator = NativeFileLocator::from_url(&native).expect("diagnostic locator");

    assert!(!locator.has_local_candidate());
    assert_eq!(
        locator.resolve(Some(show_root), &vec![local_collision]),
        NativeFileResolution::Unresolved
    );
    assert_eq!(
        library_relative_path("https://example.com/Libraries/Default/Song.pro"),
        None
    );
}

#[test]
fn strict_and_lossy_escape_policies_are_explicit() {
    assert_eq!(
        percent_decode_strict("Song%20One.pro").as_deref(),
        Some("Song One.pro")
    );
    assert_eq!(percent_decode_strict("bad%2"), None);
    assert_eq!(percent_decode_lossy("bad%2"), "bad%2");
}

#[test]
fn locator_prefers_the_active_show_file_over_existing_absolute_storage() {
    let show_root = "/tmp/session/show";
    let active = "/tmp/session/show/Media/background.png".to_string();
    let stale = "/tmp/session/stale/background.png".to_string();
    let native = Url {
        platform: PLATFORM_UNKNOWN,
        storage: Some(UrlStorage::AbsoluteString(file_url(&stale))),
        relative_file_path: Some(RelativeFilePath::Local(LocalRelativePath {
            root: ROOT_SHOW,
            path: "Media/background.png".to_string(),
        })),
    };

    let locator = NativeFileLocator::from_url(&native).expect("locator");

    assert_eq!(
        locator.resolve(Some(show_root), &vec![active.clone(), stale.clone()]),
        NativeFileResolution::Available(active)
    );
    assert_eq!(locator.stored_absolute_path(), Some(stale));
}

#[test]
fn show_relative_locator_cannot_escape_the_show_root() {
    let native = Url {
        platform: PLATFORM_UNKNOWN,
        storage: Some(UrlStorage::AbsoluteString(
            "https://example.com/background.png".to_string(),
        )),
        relative_file_path: Some(RelativeFilePath::Local(LocalRelativePath {
            root: ROOT_SHOW,
            path: "../outside.png".to_string(),
        })),
    };

    let locator = NativeFileLocator::from_url(&native).expect("diagnostic locator");

    assert!(!locator.has_local_candidate());
    assert_eq!(
        locator.resolve(Some("/show"), &Vec::new()),
        NativeFileResolution::Unresolved
    );
}

#[test]
fn file_url_round_trips_absolute_paths() {
    let path = "/Users/jimmy/Media/Home. lyrics slide background.png";
    let url = file_url(path);
    assert_eq!(
        url,
        "file:///Users/jimmy/Media/Home.%20lyrics%20slide%20background.png"
    );
    assert_eq!(decode_file_url_or_path(&url).as_deref(), Some(path));
    assert_eq!(file_url(&url), url);
    assert_eq!(
        decode_file_url_or_path("file://localhost/a%20b").as_deref(),
        Some("/a b")
    );
    assert_eq!(decode_file_url_or_path_lossy("file:///a%zz"), "/a%zz");
}

#[test]
fn basenames_and_show_roots_follow_component_boundaries() {
    assert_eq!(
        decoded_basename("file:///Users/a/Song%20One.pro/").as_deref(),
        Some("Song One.pro")
    );
    assert_eq!(decoded_basename("file:///bad%2").as_deref(), None);
    assert_eq!(decoded_basename_lossy("C:\\media\\bad%2").as_deref(), Some("bad%2"));
    assert_eq!(
        propresenter_root_from_library_path("file:///Users/a/ProPresenter/Libraries/Default/S.pro")
            .as_deref(),
        Some("//Users/a/ProPresenter")
    );
    assert_eq!(propresenter_root_from_library_path("Libraries/Default/S.pro"), None);
    assert_eq!(propresenter_root_from_library_path("/a/b/S.pro"), None);
}

#[test]
fn presentation_url_carries_both_locators() {
    let url = presentation_document_url("/Users/a/Libraries/Default/My Song.pro");
    assert_eq!(url.platform, PLATFORM_MACOS);
    assert_eq!(
        url.storage,
        Some(UrlStorage::AbsoluteString(
            "file:///Users/a/Libraries/Default/My%20Song.pro".to_string()
        ))
    );
    assert_eq!(
        url.relative_file_path,
        Some(RelativeFilePath::Local(LocalRelativePath {
            root: ROOT_SHOW,
            path: "Libraries/Default/My Song.pro".to_string(),
        }))
    );
    assert_eq!(preferred_source(&url), Some("file:///Users/a/Libraries/Default/My%20Song.pro"));
    let blank = Url {
        platform: PLATFORM_UNKNOWN,
        storage: Some(UrlStorage::AbsoluteString("   ".to_string())),
        relative_file_path: Some(RelativeFilePath::Local(LocalRelativePath {
            root: ROOT_SHOW,
            path: "Media/a.png".to_string(),
        })),
    };
    assert_eq!(preferred_source(&blank), Some("Media/a.png"));
}

#[test]
fn locator_reports_missing_preferred_candidate() {
    let native = Url {
        platform: PLATFORM_UNKNOWN,
        storage: Some(UrlStorage::AbsoluteString("file:///stale/a.png".to_string())),
        relative_file_path: Some(RelativeFilePath::Local(LocalRelativePath {
            root: ROOT_SHOW,
            path: "Media/a.png".to_string(),
        })),
    };
    let locator = NativeFileLocator::from_url(&native).expect("locator");
    assert_eq!(locator.basename(), Some("a.png"));
    assert_eq!(
        locator.local_candidates(Some("/show/")),
        vec!["/show/Media/a.png".to_string(), "/stale/a.png".to_string()]
    );
    assert_eq!(
        locator.resolve(Some("/show"), &Vec::new()),
        NativeFileResolution::Missing("/show/Media/a.png".to_string())
    );
    assert_eq!(
        locator.resolve(None, &vec!["/stale//a.png".to_string()]),
        NativeFileResolution::Available("/stale/a.png".to_string())
    );
}

#[test]
fn file_url_round_trips_relative_paths_with_escaped_bytes() {
    for path in ["Media/Back ground 100%.mp4", "relative/Ä ö #?.jpg", "local/host.pro"] {
        assert_eq!(decode_file_url_or_path(&file_url(path)), Some(path.to_string()));
    }
}

#[test]
fn lossy_decoding_agrees_with_strict_where_strict_succeeds() {
    for value in ["plain", "a%20b", "%C3%A4", "100%25"] {
        let strict = percent_decode_strict(value).expect("strict decodes");
        assert_eq!(percent_decode_lossy(value), strict);
    }
    assert_eq!(percent_decode_lossy("bad%2"), "bad%2");
}

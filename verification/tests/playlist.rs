use proflow::document::{
    ApplicationInfo, MusicKeyScale, PlaylistChildren, PlaylistDocument, PlaylistItemType,
    UrlStorage, Version, CONTENT_DESTINATION_GLOBAL, PLATFORM_WIN32,
};
use proflow::package::presentation_items;
use proflow::playlist::{
    build_playlist, build_playlist_set, document_path_for_presentation_path, embedded_filenames,
    media_archive_path, reject_presentation_media_path, reserve_archive_path,
    reviewed_media_archive_paths, validate_archive_path, validate_embedded_source_consistency,
    validate_playlist_matches_entries, NamedPlaylist, PlaylistEntry, PlaylistEntryError,
    PlaylistError, PlaylistExportIntent, PlaylistExportMode, PlaylistItemContractField,
    PlaylistMediaAsset, PlaylistMetadata, PlaylistMetadataError, PlaylistSet, PlaylistSetError,
    SelectedArrangement, SelectedArrangementError,
};

const WINDOWS: i32 = 2;
const PVP: i32 = 2;

fn version(major: u32, minor: u32, build: &str) -> Version {
    Version { major_version: major, minor_version: minor, patch_version: 0, build: build.to_string() }
}

fn document_with(platform: i32, application: i32) -> PlaylistDocument {
    PlaylistDocument {
        application_info: Some(ApplicationInfo {
            platform,
            platform_version: Some(version(26, 6, "")),
            application,
            application_version: Some(version(21, 3, "352518178")),
        }),
        document_type: 0,
        root_node: None,
        live_video_playlist: None,
        downloads_playlist: None,
    }
}

fn test_metadata() -> PlaylistMetadata {
    PlaylistMetadata::from_document(&document_with(1, 1)).expect("native metadata")
}

fn presentation_bytes(name: &str) -> Vec<u8> {
    name.as_bytes().to_vec()
}

fn linked_entry(name: &str, path: &str) -> PlaylistEntry {
    PlaylistEntry::linked(name, path).expect("valid linked playlist entry")
}

fn embedded_entry(name: &str, path: &str) -> PlaylistEntry {
    PlaylistEntry::embedded(name, path, presentation_bytes(name), None)
        .expect("valid embedded playlist entry")
}

fn uuid_value(text: &str) -> u128 {
    uuid::Uuid::parse_str(text).expect("uuid").as_u128()
}

fn child_names(document: &PlaylistDocument) -> Vec<String> {
    let root = document.root_node.as_ref().expect("root playlist");
    match &root.children_type {
        Some(PlaylistChildren::Playlists(children)) => {
            children.iter().map(|child| child.name.clone()).collect()
        }
        _ => panic!("expected playlists in root"),
    }
}

#[test]
fn builds_empty_playlist_with_native_two_level_shape() {
    let document = build_playlist("Test Playlist", &[], &test_metadata());
    let root = document.root_node.as_ref().expect("root playlist");
    assert_eq!(root.name, "PLAYLIST");
    assert_eq!(child_names(&document), vec!["Test Playlist".to_string()]);
}

#[test]
fn playlist_set_rejects_missing_structure() {
    assert_eq!(
        NamedPlaylist::new("  ", Vec::new()).expect_err("empty name"),
        PlaylistSetError::EmptyName
    );
    assert_eq!(PlaylistSet::new(Vec::new()).expect_err("empty set"), PlaylistSetError::Empty);
    assert_eq!(
        NamedPlaylist::new(" padded ", Vec::new()).expect_err("padded name"),
        PlaylistSetError::InvalidName
    );
}

#[test]
fn playlist_set_owns_child_and_package_order() {
    let shared_path = "/Libraries/Default/Shared Song.pro";
    let shared_bytes = presentation_bytes("Shared Song");
    let shared_entry = |name: &str| {
        PlaylistEntry::embedded(name, shared_path, shared_bytes.clone(), None)
            .expect("valid shared entry")
    };
    let set = PlaylistSet::new(vec![
        NamedPlaylist::new("Sunday Morning", vec![shared_entry("Shared Song")])
            .expect("named playlist"),
        NamedPlaylist::new("Sunday Evening", vec![shared_entry("Shared Song (Reprise)")])
            .expect("named playlist"),
    ])
    .expect("playlist set");

    assert_eq!(set.presentation_count(), 2);
    assert_eq!(
        set.children()
            .iter()
            .map(|(name, entries)| (name.to_string(), entries.len()))
            .collect::<Vec<_>>(),
        vec![("Sunday Morning".to_string(), 1), ("Sunday Evening".to_string(), 1)]
    );

    let document = build_playlist_set(&set, &test_metadata());
    assert_eq!(
        child_names(&document),
        vec!["Sunday Morning".to_string(), "Sunday Evening".to_string()]
    );
    assert_eq!(presentation_items(&document).len(), 2);
    assert_eq!(
        embedded_filenames(set.entries()).expect("names"),
        vec![Some("Shared Song.pro".to_string()), None]
    );
}

#[test]
fn playlist_metadata_requires_propresenter_on_macos() {
    let default_info = PlaylistDocument {
        application_info: Some(ApplicationInfo {
            platform: 0,
            platform_version: None,
            application: 0,
            application_version: None,
        }),
        document_type: 0,
        root_node: None,
        live_video_playlist: None,
        downloads_playlist: None,
    };
    assert!(matches!(
        PlaylistMetadata::from_document(&default_info),
        Err(PlaylistMetadataError::UnsupportedPlatform { platform: 0 })
    ));
    assert!(matches!(
        PlaylistMetadata::from_document(&document_with(WINDOWS, 1)),
        Err(PlaylistMetadataError::UnsupportedPlatform { platform }) if platform == WINDOWS
    ));
    assert!(matches!(
        PlaylistMetadata::from_document(&document_with(1, PVP)),
        Err(PlaylistMetadataError::UnsupportedApplication { application }) if application == PVP
    ));
    assert!(PlaylistMetadata::from_document(&document_with(1, 1)).is_ok());
    assert!(matches!(
        PlaylistMetadata::from_document(&PlaylistDocument {
            application_info: None,
            document_type: 0,
            root_node: None,
            live_video_playlist: None,
            downloads_playlist: None,
        }),
        Err(PlaylistMetadataError::MissingApplicationInfo)
    ));
}

#[test]
fn builds_playlist_items_in_entry_order() {
    let entries = vec![
        linked_entry("Amazing Grace", "/path/to/amazing_grace.pro"),
        linked_entry("How Great Thou Art", "/path/to/how_great.pro")
            .with_selected_arrangement(
                Some(
                    SelectedArrangement::new(uuid::Uuid::new_v4().as_u128(), "Default")
                        .expect("valid arrangement"),
                ),
                Ok(false),
            )
            .expect("linked arrangements cannot be verified without source bytes"),
    ];

    let document = build_playlist("Sunday Service", &entries, &test_metadata());
    let items = presentation_items(&document);
    assert_eq!(items.len(), 2);
    assert_eq!(items[0].name, "Amazing Grace");
    assert_eq!(items[1].name, "How Great Thou Art");
}

#[test]
fn embedded_entry_keeps_known_source_document_path() {
    let entries = vec![embedded_entry(
        "Call to Worship",
        "/Users/jimmy/Documents/ProPresenter/Libraries/Default/Call to Worship.pro",
    )];
    let document = build_playlist("Service", &entries, &test_metadata());
    let items = presentation_items(&document);
    assert_eq!(items.len(), 1);
    assert_eq!(
        items[0].absolute_string.as_deref(),
        Some("file:///Users/jimmy/Documents/ProPresenter/Libraries/Default/Call%20to%20Worship.pro")
    );
    assert_eq!(
        items[0].local_relative_path.as_deref(),
        Some("Libraries/Default/Call to Worship.pro")
    );
}

#[test]
fn embedded_entry_converts_to_linked_without_changing_playlist_item_contract() {
    let arrangement_uuid = uuid::Uuid::new_v4().as_u128();
    let selected_arrangement =
        SelectedArrangement::new(arrangement_uuid, "Default").expect("valid arrangement");
    let music_key = MusicKeyScale { music_key: 3, music_scale: 0 };
    let embedded = PlaylistEntry::embedded(
        "Song Display Name",
        "/Users/jimmy/Documents/ProPresenter/Libraries/Default/Source Song.pro",
        presentation_bytes("Native Source Name"),
        None,
    )
    .expect("valid arranged presentation")
    .with_selected_arrangement(Some(selected_arrangement.clone()), Ok(true))
    .expect("arrangement resolves")
    .with_user_music_key(Some(music_key));
    let linked = embedded.clone().into_linked();

    assert!(embedded.embedded_data().is_some());
    assert!(linked.embedded_data().is_none());
    assert_eq!(linked.name(), embedded.name());
    assert_eq!(linked.presentation_path(), embedded.presentation_path());
    assert_eq!(linked.selected_arrangement(), Some(&selected_arrangement));
    assert_eq!(linked.user_music_key(), Some(music_key));

    let embedded_document = build_playlist("Service", &[embedded], &test_metadata());
    let linked_document = build_playlist("Service", &[linked], &test_metadata());
    assert_eq!(embedded_document.application_info, linked_document.application_info);
    let mut embedded_item =
        presentation_items(&embedded_document).into_iter().next().expect("embedded playlist item");
    let mut linked_item =
        presentation_items(&linked_document).into_iter().next().expect("linked playlist item");
    embedded_item.item_uuid = None;
    linked_item.item_uuid = None;
    assert_eq!(linked_item, embedded_item);
}

#[test]
fn selected_arrangement_round_trips_uuid_and_exact_name() {
    let arrangement = uuid::Uuid::new_v4();
    let entries = vec![PlaylistEntry::embedded(
        "Song",
        "/Libraries/Default/Song.pro",
        presentation_bytes("Song"),
        None,
    )
    .expect("valid arranged presentation")
    .with_selected_arrangement(
        Some(SelectedArrangement::new(arrangement.as_u128(), "Default").expect("valid arrangement")),
        Ok(true),
    )
    .expect("arrangement resolves")];
    let document = build_playlist("Service", &entries, &test_metadata());
    let items = presentation_items(&document);
    assert_eq!(items[0].arrangement_uuid.as_deref(), Some(arrangement.to_string().as_str()));
    assert_eq!(items[0].arrangement_name, "Default");
}

#[test]
fn embedded_selected_arrangement_must_resolve_uniquely() {
    let arrangement_uuid = uuid_value("6f14f866-67aa-4c54-b46f-693e55420f96");
    let entry = embedded_entry("Song", "/Libraries/Default/Song.pro");
    assert!(matches!(
        entry.clone().with_selected_arrangement(
            Some(SelectedArrangement::new(arrangement_uuid, "Alternate").expect("valid selection")),
            Ok(false),
        ),
        Err(PlaylistEntryError::EmbeddedArrangementUnavailable { arrangement_name, .. })
            if arrangement_name == "Alternate"
    ));
    assert!(matches!(
        entry.clone().with_selected_arrangement(
            Some(SelectedArrangement::new(arrangement_uuid, "Default").expect("valid selection")),
            Ok(false),
        ),
        Err(PlaylistEntryError::EmbeddedArrangementUnavailable { arrangement_uuid: rejected, .. })
            if rejected == arrangement_uuid
    ));
    assert!(matches!(
        entry.with_selected_arrangement(
            Some(SelectedArrangement::new(arrangement_uuid, "Default").expect("valid selection")),
            Err("not a presentation".to_string()),
        ),
        Err(PlaylistEntryError::InvalidEmbeddedPresentation { reason, .. }) if reason == "not a presentation"
    ));
}

#[test]
fn selected_arrangement_rejects_an_empty_name() {
    let id = uuid::Uuid::new_v4().as_u128();
    assert_eq!(SelectedArrangement::new(id, "  "), Err(SelectedArrangementError::EmptyName));
    assert_eq!(
        SelectedArrangement::new(id, " Default "),
        Err(SelectedArrangementError::InvalidName)
    );
    assert_eq!(
        SelectedArrangement::new(id, "Tab\tName"),
        Err(SelectedArrangementError::InvalidName)
    );
}

#[test]
fn malformed_embedded_presentation_is_a_typed_error() {
    let result = PlaylistEntry::embedded(
        "Broken",
        "/Libraries/Default/Broken.pro",
        vec![1, 2, 3],
        Some("not a presentation".to_string()),
    );
    assert!(matches!(result, Err(PlaylistEntryError::InvalidEmbeddedPresentation { .. })));
}

#[test]
fn blank_entry_path_is_rejected_instead_of_guessing_a_library_path() {
    let result = PlaylistEntry::embedded("Generated", "", presentation_bytes("Generated"), None);
    assert!(matches!(
        result,
        Err(PlaylistEntryError::InvalidPresentationPath(path)) if path.is_empty()
    ));
}

#[test]
fn entry_names_and_paths_must_be_exact() {
    assert!(matches!(
        PlaylistEntry::linked(" Song", "/Libraries/Default/Song.pro"),
        Err(PlaylistEntryError::InvalidName)
    ));
    assert!(matches!(
        PlaylistEntry::linked("Song", "/Libraries/Default/Song.txt"),
        Err(PlaylistEntryError::InvalidPresentationPath(path)) if path == "/Libraries/Default/Song.txt"
    ));
    let entry = linked_entry("Song", "/Libraries/Default/Song%20One.pro");
    assert_eq!(entry.embedded_filename(), "Song One.pro");
}

#[test]
fn source_path_owns_the_archive_filename() {
    let entries = vec![
        embedded_entry("Display Alias", "/Libraries/Default/Actual File.pro"),
        linked_entry("Linked", "/Libraries/Default/Linked.pro"),
    ];
    assert_eq!(
        embedded_filenames(&entries).expect("names"),
        vec![Some("Actual File.pro".to_string()), None]
    );
    let document = build_playlist("Service", &entries, &test_metadata());
    let items = presentation_items(&document);
    assert_eq!(items[0].name, "Display Alias");
    assert_eq!(items[0].local_relative_path.as_deref(), Some("Libraries/Default/Actual File.pro"));
}

#[test]
fn distinct_sources_cannot_share_an_embedded_basename() {
    let entries = vec![
        embedded_entry("One", "/Libraries/A/Song.pro"),
        embedded_entry("Two", "/Libraries/B/song.PRO"),
    ];
    assert!(matches!(
        embedded_filenames(&entries),
        Err(PlaylistError::DuplicateEmbeddedPresentationBasename {
            basename,
            first_presentation_path,
            conflicting_presentation_path,
        }) if basename == "Song.pro"
            && first_presentation_path == "/Libraries/A/Song.pro"
            && conflicting_presentation_path == "/Libraries/B/song.PRO"
    ));
}

#[test]
fn repeated_source_entries_reject_conflicting_embedded_bytes() {
    let source_path = "/Libraries/Default/Shared Source.pro";
    let entries = vec![
        embedded_entry("First", source_path),
        embedded_entry("Second", source_path),
    ];
    assert!(matches!(
        validate_embedded_source_consistency(&entries),
        Err(PlaylistError::ConflictingEmbeddedSource { first_index: 0, conflicting_index: 1, .. })
    ));
    let same = vec![
        PlaylistEntry::embedded("Opening", source_path, vec![7], None).expect("valid opening"),
        PlaylistEntry::embedded("Closing", source_path, vec![7], None).expect("valid closing"),
    ];
    assert!(validate_embedded_source_consistency(&same).is_ok());
    assert_eq!(embedded_filenames(&same).expect("names"), vec![Some("Shared Source.pro".to_string()), None]);
}

#[test]
fn built_documents_validate_against_their_entries() {
    let entries = vec![
        embedded_entry("Original", "/Libraries/Default/Original.pro"),
        linked_entry("Other", "/Elsewhere/Other.pro"),
    ];
    let document = build_playlist("Test", &entries, &test_metadata());
    let names = embedded_filenames(&entries).expect("names");
    assert!(validate_playlist_matches_entries(&document, &entries, &names).is_ok());
}

#[test]
fn rejects_document_and_archive_entry_mismatch() {
    let data = presentation_bytes("Original");
    let original_entries = vec![PlaylistEntry::embedded(
        "Original",
        "/Libraries/Default/Original.pro",
        data.clone(),
        None,
    )
    .expect("valid original")];
    let document = build_playlist("Test", &original_entries, &test_metadata());
    let different_entries = vec![PlaylistEntry::embedded(
        "Different",
        "/Libraries/Default/Original.pro",
        data,
        None,
    )
    .expect("valid different entry")];
    let names = embedded_filenames(&different_entries).expect("names");
    assert!(matches!(
        validate_playlist_matches_entries(&document, &different_entries, &names),
        Err(PlaylistError::PackageItemMismatch { field: PlaylistItemContractField::Name, index: 0, .. })
    ));
    assert!(matches!(
        validate_playlist_matches_entries(&document, &[], &[]),
        Err(PlaylistError::PackageMismatch(message))
            if message == "document contains 1 presentation items but 0 package entries were supplied"
    ));
}

fn assert_rejects_presentation_contract_mutation(
    mutate: impl FnOnce(&mut proflow::document::PlaylistPresentationItem),
    expected_field: PlaylistItemContractField,
) {
    let entries = vec![embedded_entry("Original", "/Libraries/Default/Original.pro")];
    let mut document = build_playlist("Test", &entries, &test_metadata());
    let root = document.root_node.as_mut().expect("root playlist");
    let Some(PlaylistChildren::Playlists(children)) = &mut root.children_type else {
        panic!("root playlist children");
    };
    let Some(PlaylistChildren::Items(items)) = &mut children[0].children_type else {
        panic!("presentation items");
    };
    let Some(PlaylistItemType::Presentation(presentation)) = &mut items[0].item_type else {
        panic!("presentation item");
    };
    mutate(presentation);

    let names = embedded_filenames(&entries).expect("names");
    assert!(matches!(
        validate_playlist_matches_entries(&document, &entries, &names),
        Err(PlaylistError::PackageItemMismatch { field, .. }) if field == expected_field
    ));
}

#[test]
fn rejects_playlist_item_with_wrong_document_platform() {
    assert_rejects_presentation_contract_mutation(
        |presentation| {
            presentation.document_path.as_mut().expect("document path").platform = PLATFORM_WIN32;
        },
        PlaylistItemContractField::DocumentPlatform,
    );
}

#[test]
fn rejects_playlist_item_with_wrong_absolute_file_url() {
    assert_rejects_presentation_contract_mutation(
        |presentation| {
            presentation.document_path.as_mut().expect("document path").storage = Some(
                UrlStorage::AbsoluteString("file:///Libraries/Default/Different.pro".to_string()),
            );
        },
        PlaylistItemContractField::AbsoluteFileUrl,
    );
}

#[test]
fn rejects_playlist_item_with_non_global_content_destination() {
    assert_rejects_presentation_contract_mutation(
        |presentation| {
            presentation.content_destination = CONTENT_DESTINATION_GLOBAL + 1;
        },
        PlaylistItemContractField::ContentDestination,
    );
}

#[test]
fn embedded_member_must_be_the_linked_file() {
    let entries = vec![embedded_entry("Song", "/Libraries/Default/Song.pro")];
    let document = build_playlist("Test", &entries, &test_metadata());
    let wrong = vec![Some("Other.pro".to_string())];
    assert!(matches!(
        validate_playlist_matches_entries(&document, &entries, &wrong),
        Err(PlaylistError::PackageMismatch(message))
            if message == "presentation item 0 (\"Song\") links to \"Song.pro\" but embeds \"Other.pro\""
    ));
    let case_only = vec![Some("SONG.pro".to_string())];
    assert!(validate_playlist_matches_entries(&document, &entries, &case_only).is_ok());
}

#[test]
fn document_paths_follow_the_libraries_component_or_the_file_name() {
    let (url, relative) = document_path_for_presentation_path("/tmp/Service Song.pro");
    assert_eq!(url, "file:///tmp/Service%20Song.pro");
    match relative {
        Some(proflow::document::RelativeFilePath::Local(local)) => {
            assert_eq!(local.path, "Service Song.pro");
            assert_eq!(local.root, proflow::document::ROOT_SHOW);
        }
        _ => panic!("expected a local relative path"),
    }
    let (url, _) = document_path_for_presentation_path("file:///already/encoded.pro");
    assert_eq!(url, "file:///already/encoded.pro");
}

#[test]
fn rejects_unsafe_and_reserved_archive_paths() {
    for archive_path in ["../asset.jpg", "/untrusted/asset.jpg"] {
        let assets = vec![PlaylistMediaAsset {
            source_path: "/media/asset.jpg".to_string(),
            archive_path: Some(archive_path.to_string()),
        }];
        assert!(matches!(
            reviewed_media_archive_paths(&assets, &["/media/asset.jpg".to_string()]),
            Err(PlaylistError::InvalidArchivePath(_))
        ));
    }

    let reserved = vec![PlaylistMediaAsset {
        source_path: "/media/asset.jpg".to_string(),
        archive_path: Some("data".to_string()),
    }];
    assert!(matches!(
        reviewed_media_archive_paths(&reserved, &["/media/asset.jpg".to_string()]),
        Err(PlaylistError::DuplicateArchiveEntry(path)) if path == "data"
    ));

    let duplicate = vec![
        PlaylistMediaAsset {
            source_path: "/media/asset.jpg".to_string(),
            archive_path: Some("media/shared.jpg".to_string()),
        },
        PlaylistMediaAsset {
            source_path: "/media/asset.jpg".to_string(),
            archive_path: Some("media/shared.jpg".to_string()),
        },
    ];
    let canonical = vec!["/media/asset.jpg".to_string(), "/media/asset.jpg".to_string()];
    assert!(matches!(
        reviewed_media_archive_paths(&duplicate, &canonical),
        Err(PlaylistError::DuplicateArchiveEntry(path)) if path == "media/shared.jpg"
    ));
}

#[test]
fn archive_path_validation_normalizes_and_refuses_unsafe_forms() {
    assert_eq!(validate_archive_path("media\\a.jpg", true).expect("ok"), "media/a.jpg");
    assert!(matches!(validate_archive_path("media/a.jpg", false), Err(PlaylistError::InvalidArchivePath(_))));
    assert!(matches!(validate_archive_path("C:/a.jpg", true), Err(PlaylistError::InvalidArchivePath(_))));
    assert!(matches!(validate_archive_path("a/./b", true), Err(PlaylistError::InvalidArchivePath(_))));
    assert!(matches!(validate_archive_path("", true), Err(PlaylistError::InvalidArchivePath(_))));
    assert!(matches!(validate_archive_path("a/", true), Err(PlaylistError::InvalidArchivePath(_))));
    assert_eq!(validate_archive_path("Song.pro", false).expect("ok"), "Song.pro");
    assert!(matches!(
        reject_presentation_media_path("media/Song.PRO"),
        Err(PlaylistError::InvalidArchivePath(path)) if path == "media/Song.PRO"
    ));
    assert!(reject_presentation_media_path("media/song.mp4").is_ok());
    let mut reserved = vec!["data".to_string()];
    assert!(reserve_archive_path(&mut reserved, "Media/A.jpg").is_ok());
    assert!(matches!(
        reserve_archive_path(&mut reserved, "media/a.JPG"),
        Err(PlaylistError::DuplicateArchiveEntry(path)) if path == "media/a.JPG"
    ));
}

#[test]
fn media_archive_path_uses_the_canonical_source_unless_a_path_is_requested() {
    let plain = PlaylistMediaAsset::new("/media/a.jpg");
    assert_eq!(media_archive_path(&plain, "/real/media/a.jpg").expect("ok"), "/real/media/a.jpg");
    let blank = PlaylistMediaAsset {
        source_path: "/media/a.jpg".to_string(),
        archive_path: Some("  ".to_string()),
    };
    assert_eq!(media_archive_path(&blank, "C:\\media\\a.jpg").expect("ok"), "C:/media/a.jpg");
    let control = PlaylistMediaAsset::new("/media/a\u{7}.jpg");
    assert!(matches!(
        media_archive_path(&control, "/media/a\u{7}.jpg"),
        Err(PlaylistError::InvalidMediaAsset(path)) if path == "/media/a\u{7}.jpg"
    ));
    let requested = PlaylistMediaAsset {
        source_path: "/media/a.jpg".to_string(),
        archive_path: Some("media\\a.jpg".to_string()),
    };
    assert_eq!(media_archive_path(&requested, "/media/a.jpg").expect("ok"), "media/a.jpg");
}

#[test]
fn export_intents_report_their_mode_and_media() {
    assert_eq!(PlaylistExportIntent::library_links().mode(), PlaylistExportMode::LibraryLinks);
    assert!(PlaylistExportIntent::library_links().media_assets().is_empty());
    let portable = PlaylistExportIntent::portable_import(vec![PlaylistMediaAsset::new("/a.jpg")]);
    assert_eq!(portable.mode(), PlaylistExportMode::PortableImport);
    assert_eq!(portable.media_assets().len(), 1);
    assert_eq!(PlaylistExportIntent::default().mode(), PlaylistExportMode::PortableImport);
    assert_eq!(PlaylistExportMode::default(), PlaylistExportMode::PortableImport);
    assert_eq!(PlaylistExportMode::LibraryLinks.serialized_name(), "library_local");
    assert_eq!(
        PlaylistExportMode::from_serialized_name("portable_import"),
        Some(PlaylistExportMode::PortableImport)
    );
    assert_eq!(
        PlaylistExportMode::from_serialized_name("library_links"),
        Some(PlaylistExportMode::LibraryLinks)
    );
    assert_eq!(PlaylistExportMode::from_serialized_name("other"), None);
}

#[test]
fn single_playlist_sets_hold_one_child_over_all_entries() {
    let set = PlaylistSet::single(
        "Service",
        vec![linked_entry("A", "/x/A.pro"), linked_entry("B", "/x/B.pro")],
    )
    .expect("set");
    let children = set.children();
    assert_eq!(children.len(), 1);
    assert_eq!(children[0].0, "Service");
    assert_eq!(children[0].1.len(), 2);
    assert!(matches!(PlaylistSet::single("\u{1}", Vec::new()), Err(PlaylistSetError::InvalidName)));
}

#[test]
fn contract_field_labels_match_the_operator_vocabulary() {
    assert_eq!(PlaylistItemContractField::AbsoluteFileUrl.label(), "absolute file URL");
    assert_eq!(PlaylistItemContractField::ArrangementUuid.label(), "arrangement UUID");
    assert_eq!(SelectedArrangementError::EmptyName.message(), "selected arrangement name cannot be empty");
    assert_eq!(PlaylistSetError::Empty.message(), "playlist set must contain at least one playlist");
}

fn is_random_uuid_text(text: &str) -> bool {
    let chars: Vec<char> = text.chars().collect();
    chars.len() == 36
        && [8, 13, 18, 23].iter().all(|&i| chars[i] == '-')
        && chars.iter().enumerate().all(|(i, c)| [8, 13, 18, 23].contains(&i) || matches!(c, '0'..='9' | 'a'..='f'))
        && chars[14] == '4'
        && matches!(chars[19], '8' | '9' | 'a' | 'b')
}

#[test]
fn built_playlists_carry_fresh_version_four_identities() {
    let document = build_playlist("Service", &[linked_entry("Song", "/Libraries/Default/Song.pro")], &test_metadata());
    let root = document.root_node.as_ref().expect("root playlist");
    assert!(is_random_uuid_text(root.uuid.as_deref().expect("root identity")));
    match &root.children_type {
        Some(PlaylistChildren::Playlists(children)) => {
            let child = &children[0];
            assert!(is_random_uuid_text(child.uuid.as_deref().expect("child identity")));
            match &child.children_type {
                Some(PlaylistChildren::Items(items)) => {
                    assert!(is_random_uuid_text(items[0].uuid.as_deref().expect("item identity")));
                }
                _ => panic!("expected items"),
            }
        }
        _ => panic!("expected playlists in root"),
    }
}

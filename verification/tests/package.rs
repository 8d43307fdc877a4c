use proflow::package::{
    compare_playlist_items_aligned, normalize_absolute_path_value, PlaylistItemSummary,
};

fn playlist_item(name: &str, local_relative_path: &str) -> PlaylistItemSummary {
    PlaylistItemSummary {
        item_uuid: None,
        name: name.to_string(),
        item_tags: Vec::new(),
        is_hidden: false,
        document_platform: None,
        absolute_string: None,
        storage_relative_path: None,
        local_relative_path: Some(local_relative_path.to_string()),
        local_root: Some(0),
        external_relative_path: None,
        arrangement_uuid: None,
        content_destination: 0,
        user_music_key: None,
        arrangement_name: String::new(),
    }
}

#[test]
fn absolute_path_normalization_ignores_windows_and_macos_machine_roots() {
    let windows = r"C:\Users\Operator\ProPresenter\Libraries\Default\Song.pro";
    let macos = "file:///Users/operator/ProPresenter/Libraries/Default/Song.pro";

    assert_eq!(
        normalize_absolute_path_value(windows),
        "Libraries/Default/Song.pro"
    );
    assert_eq!(
        normalize_absolute_path_value(macos),
        "Libraries/Default/Song.pro"
    );
}

#[test]
fn absolute_path_without_library_marker_keeps_the_file_name() {
    assert_eq!(normalize_absolute_path_value("/tmp/Some%20Song.pro"), "Some Song.pro");
    assert_eq!(normalize_absolute_path_value("Song.pro"), "Song.pro");
    assert_eq!(normalize_absolute_path_value("dir/"), "");
}

#[test]
fn aligned_item_compare_does_not_cascade_after_missing_item() {
    let expected = vec![
        playlist_item("Prelude", "Libraries/Default/Prelude.pro"),
        playlist_item("Sermon", "Libraries/Default/5-10-26-SERMON.pro"),
        playlist_item("Prayer", "Libraries/Default/Prayer.pro"),
    ];
    let actual = vec![
        playlist_item("Prelude", "Libraries/Default/Prelude.pro"),
        playlist_item("Prayer", "Libraries/Default/Prayer.pro"),
    ];

    let diffs = compare_playlist_items_aligned(&expected, &actual);

    assert_eq!(diffs.len(), 1);
    assert_eq!(diffs[0].kind, "missing_item_aligned");
    assert_eq!(diffs[0].expected_name.as_deref(), Some("Sermon"));
}

#[test]
fn aligned_item_compare_reports_real_reorders() {
    let expected = vec![
        playlist_item("Prelude", "Libraries/Default/Prelude.pro"),
        playlist_item("Prayer", "Libraries/Default/Prayer.pro"),
    ];
    let actual = vec![
        playlist_item("Prayer", "Libraries/Default/Prayer.pro"),
        playlist_item("Prelude", "Libraries/Default/Prelude.pro"),
    ];

    let diffs = compare_playlist_items_aligned(&expected, &actual);

    assert!(diffs.iter().any(|diff| diff.kind == "moved_item_aligned"
        && diff.expected_name.as_deref() == Some("Prelude")));
    assert!(diffs
        .iter()
        .any(|diff| diff.kind == "moved_item_aligned"
            && diff.expected_name.as_deref() == Some("Prayer")));
}

#[test]
fn aligned_compare_of_identical_items_is_empty() {
    let items = vec![
        playlist_item("Prelude", "Libraries/Default/Prelude.pro"),
        playlist_item("Prelude", "Libraries/Default/Prelude.pro"),
        playlist_item("Prayer", "Libraries/Default/Prayer.pro"),
    ];
    assert!(compare_playlist_items_aligned(&items, &items).is_empty());
}

#[test]
fn aligned_compare_keys_ignore_case_escapes_and_dot_slash() {
    let expected = vec![playlist_item("Song", "./Libraries/Default/My%20Song.pro")];
    let actual = vec![playlist_item("Song", "libraries\\default\\MY SONG.PRO")];
    assert!(compare_playlist_items_aligned(&expected, &actual).is_empty());
}

#[test]
fn aligned_compare_reports_extra_name_and_arrangement_changes_in_order() {
    let mut renamed = playlist_item("Prayer (new)", "Libraries/Default/Prayer.pro");
    renamed.arrangement_uuid = Some("ABC".to_string());
    let mut original = playlist_item("Prayer", "Libraries/Default/Prayer.pro");
    original.arrangement_uuid = Some("def".to_string());
    let expected = vec![original];
    let actual = vec![
        playlist_item("Bonus", "Libraries/Default/Bonus.pro"),
        renamed,
    ];

    let diffs = compare_playlist_items_aligned(&expected, &actual);

    assert_eq!(diffs.len(), 3);
    assert_eq!(diffs[0].kind, "extra_item_aligned");
    assert_eq!(diffs[0].expected_index, None);
    assert_eq!(diffs[0].actual_index, Some(0));
    assert_eq!(diffs[0].key, "path:libraries/default/bonus.pro");
    assert_eq!(diffs[0].message, "extra item 'Bonus'");
    assert_eq!(diffs[1].kind, "item_arrangement_mismatch_aligned");
    assert_eq!(
        diffs[1].message,
        "expected arrangement Some(\"def\"), found Some(\"ABC\")"
    );
    assert_eq!(diffs[2].kind, "item_name_mismatch_aligned");
    assert_eq!(
        diffs[2].message,
        "expected item name 'Prayer', found 'Prayer (new)'"
    );
    assert_eq!(diffs[2].expected_index, Some(0));
    assert_eq!(diffs[2].actual_index, Some(1));
}

#[test]
fn aligned_compare_arrangement_case_is_ignored() {
    let mut a = playlist_item("Song", "Libraries/Default/Song.pro");
    a.arrangement_uuid = Some("AbC".to_string());
    let mut b = playlist_item("Song", "Libraries/Default/Song.pro");
    b.arrangement_uuid = Some("abc".to_string());
    assert!(compare_playlist_items_aligned(&[a], &[b]).is_empty());
}

#[test]
fn aligned_compare_move_message_names_both_indices() {
    let expected = vec![
        playlist_item("A", "a.pro"),
        playlist_item("B", "b.pro"),
    ];
    let actual = vec![playlist_item("B", "b.pro"), playlist_item("A", "a.pro")];
    let diffs = compare_playlist_items_aligned(&expected, &actual);
    assert_eq!(diffs.len(), 2);
    assert_eq!(diffs[0].message, "item 'A' moved from index 0 to 1");
    assert_eq!(diffs[1].message, "item 'B' moved from index 1 to 0");
}

#[test]
fn aligned_compare_without_locator_keys_by_name() {
    let mut item = playlist_item("Announcements", "x");
    item.local_relative_path = None;
    let diffs = compare_playlist_items_aligned(&[item], &[]);
    assert_eq!(diffs.len(), 1);
    assert_eq!(diffs[0].key, "name:announcements");
    assert_eq!(diffs[0].message, "missing item 'Announcements'");
}

use proflow::document::PlaylistDocument;
use proflow::package::PlaylistItemSummary;
use proflow::package_compare::{
    compare_archive_shape, compare_inferred_archive_shapes, compare_items, PlaylistPackageIssue,
};
use proflow::package_model::{package_file_summary, PackageFileSummary, PlaylistPackage};

fn item(name: &str, path: &str) -> PlaylistItemSummary {
    PlaylistItemSummary {
        item_uuid: Some("u".to_string()),
        name: name.to_string(),
        item_tags: vec!["ABC".to_string()],
        is_hidden: false,
        document_platform: Some(1),
        absolute_string: Some(format!("file:///Users/a/ProPresenter/{path}")),
        storage_relative_path: None,
        local_relative_path: Some(path.to_string()),
        local_root: Some(10),
        external_relative_path: None,
        arrangement_uuid: Some("Arr".to_string()),
        content_destination: 0,
        user_music_key: Some((3, 1)),
        arrangement_name: "Default".to_string(),
    }
}

fn kinds(issues: &[PlaylistPackageIssue]) -> Vec<&str> {
    issues.iter().map(|i| i.kind.as_str()).collect()
}

#[test]
fn identical_items_have_no_issues() {
    let items = vec![item("A", "Libraries/Default/A.pro"), item("B", "Libraries/Default/B.pro")];
    let mut issues = Vec::new();
    compare_items(&items, &items, &mut issues);
    assert!(issues.is_empty());
}

#[test]
fn every_item_field_difference_is_reported_in_order() {
    let expected = vec![item("A", "Libraries/Default/A.pro")];
    let mut changed = item("A2", "Libraries/Other/A.pro");
    changed.item_uuid = None;
    changed.item_tags = vec!["abd".to_string()];
    changed.is_hidden = true;
    changed.document_platform = None;
    changed.storage_relative_path = Some("x".to_string());
    changed.local_root = Some(-1);
    changed.external_relative_path = Some("ext".to_string());
    changed.absolute_string = Some(r"C:\Users\b\Libraries\Default\A.pro".to_string());
    changed.arrangement_uuid = Some("ARR".to_string());
    changed.content_destination = -2;
    changed.user_music_key = None;
    changed.arrangement_name = "Other \"x\"".to_string();
    let mut issues = Vec::new();
    compare_items(&expected, &[changed], &mut issues);
    assert_eq!(
        kinds(&issues),
        vec![
            "item_uuid_presence_mismatch",
            "item_name_mismatch",
            "item_tags_mismatch",
            "item_hidden_mismatch",
            "item_document_platform_mismatch",
            "item_relative_path_mismatch",
            "item_storage_relative_path_mismatch",
            "item_local_root_mismatch",
            "item_external_relative_path_mismatch",
            "item_content_destination_mismatch",
            "item_music_key_mismatch",
            "item_arrangement_name_mismatch",
        ]
    );
    assert_eq!(issues[0].message, "expected UUID presence true, found false");
    assert_eq!(issues[1].message, "expected 'A', found 'A2'");
    assert_eq!(issues[2].message, "expected item tags [\"ABC\"], found [\"abd\"]");
    assert_eq!(issues[3].message, "expected hidden=false, found hidden=true");
    assert_eq!(issues[4].message, "expected document platform Some(1), found None");
    assert_eq!(
        issues[5].message,
        "expected Some(\"Libraries/Default/A.pro\"), found Some(\"Libraries/Other/A.pro\")"
    );
    assert_eq!(issues[6].message, "expected None, found Some(\"x\")");
    assert_eq!(issues[7].message, "expected local root Some(10), found Some(-1)");
    assert_eq!(issues[8].message, "expected external path None, found Some(\"ext\")");
    assert_eq!(issues[9].message, "expected content destination 0, found -2");
    assert_eq!(issues[10].message, "expected music key Some((3, 1)), found None");
    assert_eq!(
        issues[11].message,
        "expected arrangement name \"Default\", found \"Other \\\"x\\\"\""
    );
    assert!(issues.iter().all(|i| i.index == Some(0)));
}

#[test]
fn count_missing_and_extra_items() {
    let expected = vec![item("A", "a.pro"), item("B", "b.pro")];
    let actual = vec![item("A", "a.pro")];
    let mut issues = Vec::new();
    compare_items(&expected, &actual, &mut issues);
    assert_eq!(
        issues,
        vec![
            PlaylistPackageIssue {
                kind: "item_count_mismatch".to_string(),
                index: None,
                message: "expected 2 items, found 1".to_string(),
            },
            PlaylistPackageIssue {
                kind: "missing_item".to_string(),
                index: Some(1),
                message: "missing item 'B'".to_string(),
            },
        ]
    );
    let mut issues = Vec::new();
    compare_items(&actual, &expected, &mut issues);
    assert_eq!(issues[1].kind, "extra_item");
    assert_eq!(issues[1].message, "extra item 'B'");
}

#[test]
fn absolute_paths_compare_after_normalization() {
    let a = item("A", "Libraries/Default/A.pro");
    let mut b = item("A", "Libraries/Default/A.pro");
    b.absolute_string = Some(r"D:\Other\Libraries\Default\A.pro".to_string());
    let mut issues = Vec::new();
    compare_items(&[a], &[b], &mut issues);
    assert!(issues.is_empty());
}

fn entry(name: &str, comment: &str) -> (PackageFileSummary, Vec<u8>) {
    (
        package_file_summary(
            name,
            1,
            2,
            "Deflated".to_string(),
            false,
            (3, 20),
            Some(0o644),
            &[0x75, 0x78, 0x00, 0x00],
            comment.to_string(),
        ),
        Vec::new(),
    )
}

fn package(entries: Vec<(PackageFileSummary, Vec<u8>)>, comment: &[u8]) -> PlaylistPackage {
    PlaylistPackage::new(PlaylistDocument { application_info: None, document_type: 0, root_node: None, live_video_playlist: None, downloads_playlist: None }, &[], entries, comment.to_vec())
        .expect("package")
}

#[test]
fn identical_archives_have_no_shape_issues() {
    let a = package(vec![entry("data", ""), entry("A.pro", "")], b"");
    let b = package(vec![entry("data", ""), entry("A.pro", "")], b"");
    let mut issues = Vec::new();
    compare_inferred_archive_shapes(&a, &b, &mut issues);
    compare_archive_shape(&a, &b, &mut issues);
    assert!(issues.is_empty());
}

#[test]
fn archive_differences_are_reported_in_order() {
    let a = package(
        vec![entry("data", ""), entry("B.pro", ""), entry("A.pro", "x")],
        b"one",
    );
    let b = package(
        vec![entry("data", ""), entry("media/c.jpg", ""), entry("A.pro", "y"), entry("Z.pro", "")],
        b"two",
    );
    let mut issues = Vec::new();
    compare_inferred_archive_shapes(&a, &b, &mut issues);
    assert_eq!(issues[0].message, "expected PresentationsOnly, found ContainsMedia");
    let mut issues = Vec::new();
    compare_archive_shape(&a, &b, &mut issues);
    let kinds = issues.iter().map(|i| i.kind.as_str()).collect::<Vec<_>>();
    assert_eq!(
        kinds,
        vec![
            "archive_entry_count_mismatch",
            "missing_archive_entry",
            "extra_archive_entry",
            "extra_archive_entry",
            "archive_entry_order_mismatch",
            "archive_entry_metadata_mismatch",
            "archive_comment_mismatch",
        ]
    );
    assert_eq!(issues[0].message, "expected 3 archive entries, found 4");
    assert_eq!(issues[1].message, "missing archive entry 'B.pro'");
    assert_eq!(issues[2].message, "extra archive entry 'Z.pro'");
    assert_eq!(issues[3].message, "extra archive entry 'media/c.jpg'");
    assert_eq!(
        issues[4].message,
        "expected archive order [\"data\", \"B.pro\", \"A.pro\"], found [\"data\", \"media/c.jpg\", \"A.pro\", \"Z.pro\"]"
    );
    assert_eq!(issues[5].index, Some(2));
    assert_eq!(
        issues[5].message,
        "archive entry \"A.pro\" metadata differs: expected (\"Deflated\", false, (3, 20), Some(420), [30837], \"x\"), found (\"Deflated\", false, (3, 20), Some(420), [30837], \"y\")"
    );
    assert_eq!(issues[6].message, "ZIP archive comments differ");
}

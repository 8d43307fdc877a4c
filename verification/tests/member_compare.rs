use proflow::document::PlaylistDocument;
use proflow::member_compare::{compare_embedded_presentations, compare_media_assets};
use proflow::package_model::{package_file_summary, PackageFileSummary, PlaylistPackage};

fn member(archive_path: &str, data: &[u8], crc32: u32) -> (PackageFileSummary, Vec<u8>) {
    (
        package_file_summary(
            archive_path,
            data.len() as u64,
            crc32,
            "Stored".to_string(),
            false,
            (0, 0),
            None,
            &[],
            String::new(),
        ),
        data.to_vec(),
    )
}

fn package(files: &[(&str, &str, u32)]) -> PlaylistPackage {
    let mut members = vec![member("data", b"", 0)];
    for (archive_path, notes, crc32) in files {
        members.push(member(archive_path, notes.as_bytes(), *crc32));
    }
    PlaylistPackage::new(
        PlaylistDocument {
            application_info: None,
            document_type: 0,
            root_node: None,
            live_video_playlist: None,
            downloads_playlist: None,
        },
        &[],
        members,
        Vec::new(),
    )
    .expect("package")
}

#[test]
fn same_basename_presentations_are_fingerprinted_by_full_archive_path() {
    let expected = package(&[("first/Shared.pro", "A", 0x1111_1111), ("second/Shared.pro", "B", 0x2222_2222)]);
    let actual = package(&[("first/Shared.pro", "B", 0x2222_2222), ("second/Shared.pro", "A", 0x1111_1111)]);
    let mut issues = Vec::new();

    compare_embedded_presentations(&expected, &actual, &mut issues);

    assert_eq!(
        issues.iter().filter(|issue| issue.kind == "embedded_presentation_crc_mismatch").count(),
        2
    );
    assert!(issues.iter().any(|issue| {
        issue.message.contains("first/Shared.pro") && !issue.message.contains("second/Shared.pro")
    }));
}

#[test]
fn fingerprint_messages_list_sorted_fingerprints() {
    let expected = package(&[("Song.pro", "AB", 7)]);
    let actual = package(&[("Song.pro", "AB", 9)]);
    let mut issues = Vec::new();
    compare_embedded_presentations(&expected, &actual, &mut issues);
    assert_eq!(issues.len(), 1);
    assert_eq!(
        issues[0].message,
        "presentation archive member 'Song.pro' fingerprints differ: expected [FileFingerprint { size: 2, crc32: 7 }], found [FileFingerprint { size: 2, crc32: 9 }]"
    );
}

#[test]
fn missing_and_extra_members_are_reported_in_path_order() {
    let expected = package(&[("B.pro", "x", 1), ("media/a.jpg", "x", 1)]);
    let actual = package(&[("A.pro", "x", 1), ("media/b.jpg", "x", 1)]);
    let mut issues = Vec::new();
    compare_embedded_presentations(&expected, &actual, &mut issues);
    compare_media_assets(&expected, &actual, &mut issues);
    let kinds: Vec<&str> = issues.iter().map(|i| i.kind.as_str()).collect();
    assert_eq!(
        kinds,
        vec!["extra_embedded_presentation", "missing_embedded_presentation", "missing_media_asset", "extra_media_asset"]
    );
    assert_eq!(issues[0].message, "extra embedded presentation 'A.pro'");
    assert_eq!(issues[2].message, "missing media asset 'media/a.jpg'");
}

#[test]
fn identical_members_compare_clean() {
    let a = package(&[("Song.pro", "x", 5), ("media/a.jpg", "yy", 6)]);
    let b = package(&[("Song.pro", "x", 5), ("media/a.jpg", "yy", 6)]);
    let mut issues = Vec::new();
    compare_embedded_presentations(&a, &b, &mut issues);
    compare_media_assets(&a, &b, &mut issues);
    assert!(issues.is_empty());
}

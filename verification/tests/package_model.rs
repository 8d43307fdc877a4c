use proflow::document::PlaylistDocument;
use proflow::package_model::{
    infer_archive_shape, nonvolatile_extra_field_ids, package_file_summary, PackageError,
    PackageFileSummary, PlaylistArchiveShape, PlaylistPackage,
};

fn summary(name: &str) -> PackageFileSummary {
    package_file_summary(
        name,
        3,
        7,
        "Stored".to_string(),
        false,
        (3, 20),
        None,
        &[],
        String::new(),
    )
}

fn member(name: &str, bytes: &[u8]) -> (PackageFileSummary, Vec<u8>) {
    (summary(name), bytes.to_vec())
}

fn document() -> PlaylistDocument {
    PlaylistDocument { application_info: None, document_type: 0, root_node: None, live_video_playlist: None, downloads_playlist: None }
}

#[test]
fn extra_fields_skip_extended_timestamps_and_stop_at_truncation() {
    let data = [
        0x55, 0x54, 0x01, 0x00, 0xAA, // extended timestamp, one byte
        0x75, 0x78, 0x02, 0x00, 0x01, 0x02, // 0x7875, two bytes
        0x01, 0x00, 0x05, 0x00, 0x00, // truncated block
    ];
    assert_eq!(nonvolatile_extra_field_ids(&data), vec![0x7875]);
    assert_eq!(nonvolatile_extra_field_ids(&[0x01, 0x00, 0x00]), Vec::<u16>::new());
}

#[test]
fn member_summary_reads_basename_and_presentation_extension() {
    let s = summary("media/Song.PRO");
    assert_eq!(s.basename, "Song.PRO");
    assert!(s.is_presentation);
    let s = summary("data");
    assert_eq!(s.basename, "data");
    assert!(!s.is_presentation);
    assert!(!summary(".pro").is_presentation);
}

#[test]
fn package_keeps_members_in_archive_order() {
    let package = PlaylistPackage::new(
        document(),
        b"doc",
        vec![
            member("Song.pro", b"song"),
            member("data", b"doc"),
            member("media/bg.jpg", b"jpg"),
        ],
        b"comment".to_vec(),
    )
    .expect("package");
    assert_eq!(package.document_data(), b"doc");
    assert_eq!(package.embedded_files(), vec!["Song.pro", "media/bg.jpg"]);
    assert_eq!(package.embedded_file_count(), 2);
    assert_eq!(package.embedded_file("Song.pro"), Some(&b"song"[..]));
    assert_eq!(package.embedded_file("data"), None);
    assert!(package.has_embedded_file("media/bg.jpg"));
    assert!(!package.has_embedded_file("bg.jpg"));
    assert_eq!(package.archive_entries().len(), 3);
    assert_eq!(package.archive_comment(), b"comment");
    assert_eq!(package.embedded_file_details().len(), 2);
    assert_eq!(infer_archive_shape(&package), PlaylistArchiveShape::ContainsMedia);
    assert_eq!(package.into_document(), document());
}

#[test]
fn presentations_only_package_shape() {
    let package = PlaylistPackage::new(
        document(),
        b"",
        vec![member("data", b""), member("A.pro", b"a"), member("B.Pro", b"b")],
        Vec::new(),
    )
    .expect("package");
    assert_eq!(
        infer_archive_shape(&package),
        PlaylistArchiveShape::PresentationsOnly
    );
    assert_eq!(package.document(), &document());
}

#[test]
fn duplicate_members_and_missing_data_are_errors() {
    assert_eq!(
        PlaylistPackage::new(
            document(),
            b"",
            vec![member("A.pro", b"a"), member("data", b""), member("A.pro", b"b")],
            Vec::new(),
        )
        .err(),
        Some(PackageError::DuplicateArchiveEntry("A.pro".to_string()))
    );
    assert_eq!(
        PlaylistPackage::new(document(), b"", vec![member("A.pro", b"a")], Vec::new()).err(),
        Some(PackageError::MissingData)
    );
}

#[test]
fn round_trip_is_exact_only_when_the_reencoding_matches_data() {
    let exact = PlaylistPackage::new(document(), b"doc", vec![member("data", b"doc")], Vec::new()).expect("package");
    assert!(exact.document_round_trip_is_exact());
    let lossy = PlaylistPackage::new(document(), b"do", vec![member("data", b"doc")], Vec::new()).expect("package");
    assert!(!lossy.document_round_trip_is_exact());
}

use proflow::comparison::compare_playlist_packages;
use proflow::document::{ApplicationInfo, PlaylistDocument};
use proflow::package_model::{package_file_summary, PackageFileSummary, PlaylistArchiveShape, PlaylistPackage};
use proflow::playlist::{build_playlist, PlaylistEntry, PlaylistMetadata};

fn member(archive_path: &str, data: &[u8]) -> (PackageFileSummary, Vec<u8>) {
    (
        package_file_summary(
            archive_path,
            data.len() as u64,
            crc32fast::hash(data),
            "Stored".to_string(),
            false,
            (0, 0),
            None,
            &[],
            String::new(),
        ),
        data.to_vec(),
    )
}

fn metadata() -> PlaylistMetadata {
    PlaylistMetadata::from_document(&PlaylistDocument {
        application_info: Some(ApplicationInfo {
            platform: 1,
            platform_version: None,
            application: 1,
            application_version: None,
        }),
        document_type: 0,
        root_node: None,
        live_video_playlist: None,
        downloads_playlist: None,
    })
    .expect("metadata")
}

fn native_package() -> PlaylistPackage {
    let entries: Vec<PlaylistEntry> = ["Call to Worship", "Amazing Grace", "Benediction"]
        .iter()
        .map(|name| {
            PlaylistEntry::embedded(name, &format!("/Libraries/Default/{name}.pro"), name.as_bytes().to_vec(), None)
                .expect("entry")
        })
        .collect();
    let document = build_playlist("Sunday", &entries, &metadata());
    let mut members = vec![member("data", b"document")];
    for name in ["Call to Worship", "Amazing Grace", "Benediction"] {
        members.push(member(&format!("{name}.pro"), name.as_bytes()));
    }
    PlaylistPackage::new(document, b"document", members, Vec::new()).expect("package")
}

#[test]
fn compare_identical_package_is_compatible() {
    let package = native_package();

    let comparison = compare_playlist_packages(&package, &package, "fixture", "fixture");

    assert!(comparison.compatible);
    assert!(comparison.issues.is_empty());
    assert_eq!(comparison.expected_item_count, 3);
    assert_eq!(comparison.actual_item_count, 3);
    assert_eq!(comparison.expected_embedded_file_count, 3);
    assert_eq!(comparison.expected_shape, PlaylistArchiveShape::PresentationsOnly);
}

#[test]
fn schema_round_trip_loss_is_reported_per_side() {
    let exact = native_package();
    let lossy = native_package().with_document_round_trip(false);
    let comparison = compare_playlist_packages(&exact, &lossy, "a", "b");
    assert!(!comparison.compatible);
    assert!(comparison
        .issues
        .iter()
        .any(|issue| issue.kind == "actual_playlist_schema_round_trip_loss"));
    assert!(!comparison
        .issues
        .iter()
        .any(|issue| issue.kind == "expected_playlist_schema_round_trip_loss"));
}

use proflow::document::{ApplicationInfo, PlaylistDocument, Version};
use proflow::package_model::{package_file_summary, PackageFileSummary, PlaylistPackage};
use proflow::package_plan::{PackageMemberKind, PlaylistPackagePlan};
use proflow::playlist::{
    build_playlist, PackageReadbackField, PlaylistEntry, PlaylistError, PlaylistMetadata,
    ReviewedPlaylistMediaAsset,
};

fn version(major: u32, minor: u32, build: &str) -> Version {
    Version { major_version: major, minor_version: minor, patch_version: 0, build: build.to_string() }
}

fn metadata() -> PlaylistMetadata {
    PlaylistMetadata::from_document(&PlaylistDocument {
        application_info: Some(ApplicationInfo {
            platform: 1,
            platform_version: Some(version(26, 6, "")),
            application: 1,
            application_version: Some(version(21, 3, "352518178")),
        }),
        document_type: 0,
        root_node: None,
        live_video_playlist: None,
        downloads_playlist: None,
    })
    .expect("native metadata")
}

fn song(bytes: &[u8]) -> PlaylistEntry {
    PlaylistEntry::embedded("Song", "/Libraries/Default/Song.pro", bytes.to_vec(), None)
        .expect("valid entry")
}

fn summary(name: &str, size: u64) -> PackageFileSummary {
    package_file_summary(name, size, 7, "Stored".to_string(), false, (3, 20), None, &[], String::new())
}

/// A package holding `members` and the `data` member, in sorted order.
fn package(
    document: PlaylistDocument,
    document_bytes: &[u8],
    members: Vec<(String, Vec<u8>)>,
    comment: &[u8],
) -> PlaylistPackage {
    let mut all = members;
    all.push(("data".to_string(), document_bytes.to_vec()));
    all.sort_by(|a, b| a.0.cmp(&b.0));
    let members = all
        .into_iter()
        .map(|(name, data)| (summary(&name, data.len() as u64), data))
        .collect();
    PlaylistPackage::new(document, document_bytes, members, comment.to_vec()).expect("package")
}

fn planned_members(plan: &PlaylistPackagePlan) -> Vec<(String, Vec<u8>)> {
    plan.members().iter().map(|m| (m.path.clone(), m.data.clone())).collect()
}

fn readback_field(error: PlaylistError) -> PackageReadbackField {
    match error {
        PlaylistError::PackageReadbackMismatch { field, .. } => field,
        other => panic!("unexpected error {other:?}"),
    }
}

#[test]
fn independent_readback_rejects_a_different_reviewed_document() {
    let entries = vec![song(b"Song")];
    let expected_document = build_playlist("Expected", &entries, &metadata());
    let actual_document = build_playlist("Actual", &entries, &metadata());
    let actual_plan = PlaylistPackagePlan::new(&actual_document, b"actual-data", &entries, true, &[])
        .expect("actual plan");
    let actual_package = package(
        actual_document,
        b"actual-data",
        planned_members(&actual_plan),
        b"",
    );
    assert!(actual_plan.verify_readback(&actual_package).is_ok());

    let error = PlaylistPackagePlan::new(&expected_document, b"expected-data", &entries, true, &[])
        .expect("expected plan")
        .verify_readback(&actual_package)
        .expect_err("different document must fail");
    assert_eq!(readback_field(error), PackageReadbackField::Document);
}

#[test]
fn independent_readback_rejects_changed_presentation_bytes() {
    let expected_entries = vec![song(b"Expected Song")];
    let actual_entries = vec![song(b"Changed Song")];
    let document = build_playlist("Service", &expected_entries, &metadata());
    let expected_plan = PlaylistPackagePlan::new(&document, b"doc", &expected_entries, true, &[])
        .expect("expected plan");
    let actual_plan = PlaylistPackagePlan::new(&document, b"doc", &actual_entries, true, &[])
        .expect("actual plan");
    let actual_package = package(document, b"doc", planned_members(&actual_plan), b"");
    assert!(actual_plan.verify_readback(&actual_package).is_ok());

    let error = expected_plan
        .verify_readback(&actual_package)
        .expect_err("changed presentation must fail");
    match error {
        PlaylistError::PackageReadbackMismatch { field, details } => {
            assert_eq!(field, PackageReadbackField::MemberBytes);
            assert_eq!(details, "presentation member \"Song.pro\" changed or is missing");
        }
        other => panic!("unexpected error {other:?}"),
    }
}

#[test]
fn plan_lists_presentations_then_media() {
    let entries = vec![song(b"Song")];
    let document = build_playlist("Service", &entries, &metadata());
    let media = [ReviewedPlaylistMediaAsset { archive_path: "media/bg.jpg".to_string(), data: b"jpg".to_vec() }];
    let plan = PlaylistPackagePlan::new(&document, b"doc", &entries, true, &media).expect("plan");
    let members = plan.members();
    assert_eq!(members.len(), 2);
    assert_eq!(members[0].path, "Song.pro");
    assert_eq!(members[0].kind, PackageMemberKind::Presentation);
    assert_eq!(members[0].data, b"Song".to_vec());
    assert_eq!(members[1].path, "media/bg.jpg");
    assert_eq!(members[1].kind, PackageMemberKind::Media);
}

#[test]
fn plan_refuses_media_that_collides_or_names_a_presentation() {
    let entries = vec![song(b"Song")];
    let document = build_playlist("Service", &entries, &metadata());
    let data_clash = [ReviewedPlaylistMediaAsset { archive_path: "DATA".to_string(), data: vec![1] }];
    assert!(matches!(
        PlaylistPackagePlan::new(&document, b"doc", &entries, true, &data_clash),
        Err(PlaylistError::DuplicateArchiveEntry(path)) if path == "DATA"
    ));
    let presentation = [ReviewedPlaylistMediaAsset { archive_path: "media/x.PRO".to_string(), data: vec![1] }];
    assert!(matches!(
        PlaylistPackagePlan::new(&document, b"doc", &entries, true, &presentation),
        Err(PlaylistError::InvalidArchivePath(path)) if path == "media/x.PRO"
    ));
}

#[test]
fn readback_checks_order_and_comment() {
    let entries = vec![song(b"Song")];
    let commented_document = build_playlist("Service", &entries, &metadata());
    let plan = PlaylistPackagePlan::new(&commented_document, b"doc", &entries, true, &[]).expect("plan");
    let commented = package(commented_document, b"doc", planned_members(&plan), b"note");
    let error = plan.verify_readback(&commented).expect_err("comment must fail");
    assert_eq!(readback_field(error), PackageReadbackField::ArchiveComment);

    let extra_document = build_playlist("Service", &entries, &metadata());
    let plan = PlaylistPackagePlan::new(&extra_document, b"doc", &entries, true, &[]).expect("plan");
    let extra = package(
        extra_document,
        b"doc",
        vec![("Song.pro".to_string(), b"Song".to_vec()), ("extra.jpg".to_string(), vec![1])],
        b"",
    );
    match plan.verify_readback(&extra).expect_err("extra member must fail") {
        PlaylistError::PackageReadbackMismatch { field, details } => {
            assert_eq!(field, PackageReadbackField::ArchiveOrder);
            assert_eq!(details, "expected [\"Song.pro\", \"data\"], found [\"Song.pro\", \"data\", \"extra.jpg\"]");
        }
        other => panic!("unexpected error {other:?}"),
    }
}

#[test]
fn readback_checks_presentation_items() {
    let entries = vec![song(b"Song")];
    let document = build_playlist("Service", &entries, &metadata());
    let plan = PlaylistPackagePlan::new(&document, b"doc", &entries, true, &[]).expect("plan");
    let empty = build_playlist("Service", &[], &metadata());
    let changed = package(empty, b"doc", planned_members(&plan), b"");
    let error = plan.verify_readback(&changed).expect_err("items must fail");
    assert_eq!(readback_field(error), PackageReadbackField::Items);
}

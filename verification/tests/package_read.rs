use proflow::document::PlaylistDocument;
use proflow::native_zip::Entry;
use proflow::package_model::{PackageError, PlaylistPackage};
use proflow::package_read::package_members_from_archive;

fn archive() -> Vec<u8> {
    proflow::native_zip::write(
        0,
        vec![
            Entry::borrowed("data".to_string(), b"doc"),
            Entry::borrowed("Song.pro".to_string(), b"song"),
            Entry::borrowed("media/bg.jpg".to_string(), b"jpg"),
        ],
    )
    .expect("write archive")
}

#[test]
fn archive_members_read_back_in_physical_order_with_metadata() {
    let (members, comment) = package_members_from_archive(&archive()).expect("members");
    assert!(comment.is_empty());
    let names: Vec<&str> = members.iter().map(|(s, _)| s.name.as_str()).collect();
    assert_eq!(names, vec!["Song.pro", "data", "media/bg.jpg"]);
    let (song, bytes) = &members[0];
    assert_eq!(bytes, &b"song".to_vec());
    assert_eq!(song.basename, "Song.pro");
    assert!(song.is_presentation);
    assert_eq!(song.size, 4);
    assert_eq!(song.crc32, crc32fast::hash(b"song"));
    assert_eq!(song.compression_method, "Stored");
    assert!(!song.is_directory);
    let (media, _) = &members[2];
    assert_eq!(media.basename, "bg.jpg");
    assert!(!media.is_presentation);
}

#[test]
fn read_members_assemble_a_package() {
    let (members, comment) = package_members_from_archive(&archive()).expect("members");
    let document = PlaylistDocument { application_info: None, document_type: 0, root_node: None, live_video_playlist: None, downloads_playlist: None };
    let package = PlaylistPackage::new(document, b"doc", members, comment).expect("package");
    assert_eq!(package.document_data(), b"doc");
    assert_eq!(package.embedded_file("media/bg.jpg"), Some(&b"jpg"[..]));
    assert!(package.document_round_trip_is_exact());
}

#[test]
fn a_non_archive_is_a_zip_error() {
    assert!(matches!(package_members_from_archive(b"not a zip archive"), Err(PackageError::Zip(_))));
}

use proflow::document::{
    Playlist, PlaylistChildren, PlaylistDocument, PlaylistItem, PlaylistItemType,
    PlaylistPresentationItem, Url, UrlStorage, CONTENT_DESTINATION_GLOBAL, PLATFORM_MACOS,
};
use proflow::document_compare::compare_playlist_documents;
use proflow::package_compare::PlaylistPackageIssue;

const FIRST_UUID: &str = "6f14f866-67aa-4c54-b46f-693e55420f96";
const SECOND_UUID: &str = "36fbe956-99f3-4fa0-8476-8401a8d11b08";
const THIRD_UUID: &str = "ad111534-6bf4-40fe-bf83-3b7743ceced6";

fn node(uuid: Option<&str>, children: Vec<Playlist>, children_type: Option<PlaylistChildren>) -> Playlist {
    Playlist { uuid: uuid.map(str::to_string), name: String::new(), children, children_type }
}

fn document_of(root: Playlist) -> PlaylistDocument {
    PlaylistDocument {
        application_info: None,
        document_type: 0,
        root_node: Some(root),
        live_video_playlist: None,
        downloads_playlist: None,
    }
}

fn document(root_uuid: &str, child_uuid: Option<&str>) -> PlaylistDocument {
    document_of(node(
        Some(root_uuid),
        child_uuid.map(|uuid| node(Some(uuid), Vec::new(), None)).into_iter().collect(),
        None,
    ))
}

fn item(uuid: &str, absolute: &str, arrangement: Option<&str>) -> PlaylistItem {
    PlaylistItem {
        uuid: Some(uuid.to_string()),
        name: "Song".to_string(),
        tags: Vec::new(),
        is_hidden: false,
        item_type: Some(PlaylistItemType::Presentation(PlaylistPresentationItem {
            document_path: Some(Url {
                platform: PLATFORM_MACOS,
                storage: Some(UrlStorage::AbsoluteString(absolute.to_string())),
                relative_file_path: None,
            }),
            arrangement: arrangement.map(str::to_string),
            content_destination: CONTENT_DESTINATION_GLOBAL,
            user_music_key: None,
            arrangement_name: String::new(),
        })),
    }
}

fn compare(expected: &PlaylistDocument, actual: &PlaylistDocument) -> Vec<PlaylistPackageIssue> {
    let mut issues = Vec::new();
    compare_playlist_documents(expected, actual, &mut issues);
    issues
}

#[test]
fn regenerated_unique_identity_uuids_compare_equal() {
    let expected = document(FIRST_UUID, Some(SECOND_UUID));
    let actual = document(SECOND_UUID, Some(THIRD_UUID));
    let mut issues = Vec::new();

    compare_playlist_documents(&expected, &actual, &mut issues);

    assert!(issues.is_empty(), "{issues:?}");
}

#[test]
fn malformed_identity_does_not_normalize_equal_to_valid_identity() {
    let expected = document("not-a-uuid", None);
    let actual = document(FIRST_UUID, None);
    let mut issues = Vec::new();

    compare_playlist_documents(&expected, &actual, &mut issues);

    assert!(issues.iter().any(|issue| issue.kind == "expected_playlist_identity_uuid_invalid"));
}

#[test]
fn duplicate_identity_does_not_normalize_equal_to_unique_identities() {
    let expected = document(FIRST_UUID, Some(FIRST_UUID));
    let actual = document(SECOND_UUID, Some(THIRD_UUID));
    let mut issues = Vec::new();

    compare_playlist_documents(&expected, &actual, &mut issues);

    assert!(issues.iter().any(|issue| issue.kind == "expected_playlist_identity_uuid_duplicate"));
    assert!(issues.iter().any(|issue| issue.kind == "playlist_root_mismatch"));
}

#[test]
fn missing_identities_are_reported_with_their_path() {
    let expected = document_of(node(None, Vec::new(), None));
    let issues = compare(&expected, &expected);
    assert_eq!(issues.len(), 2);
    assert_eq!(issues[0].kind, "expected_playlist_identity_uuid_missing");
    assert_eq!(issues[0].message, "expected playlist identity at root_node.uuid is missing");
    assert_eq!(issues[1].kind, "actual_playlist_identity_uuid_missing");
}

#[test]
fn duplicate_message_names_both_paths() {
    let expected = document(FIRST_UUID, Some(FIRST_UUID));
    let issues = compare(&expected, &document(FIRST_UUID, Some(SECOND_UUID)));
    assert_eq!(
        issues[0].message,
        format!(
            "expected playlist identity {FIRST_UUID:?} at root_node.children[0].uuid duplicates root_node.uuid"
        )
    );
}

#[test]
fn identity_case_and_machine_prefixes_are_not_semantic() {
    let items = |uuid: &str, prefix: &str, arrangement: &str| {
        document_of(node(
            Some(uuid),
            Vec::new(),
            Some(PlaylistChildren::Items(vec![item(
                THIRD_UUID,
                &format!("file://{prefix}/Libraries/Default/Song.pro"),
                Some(arrangement),
            )])),
        ))
    };
    let expected = items(FIRST_UUID, "/Users/a/Documents/ProPresenter", "ABC-DEF");
    let actual = items(&SECOND_UUID.to_uppercase(), "/Users/b/ProPresenter", "abc-def");
    assert!(compare(&expected, &actual).is_empty());

    let moved = document_of(node(
        Some(FIRST_UUID),
        Vec::new(),
        Some(PlaylistChildren::Items(vec![item(
            THIRD_UUID,
            "file:///Users/a/Documents/ProPresenter/Libraries/Other/Song.pro",
            Some("abc-def"),
        )])),
    ));
    let issues = compare(&expected, &moved);
    assert_eq!(issues.len(), 1);
    assert_eq!(issues[0].kind, "playlist_root_mismatch");
}

#[test]
fn differing_names_and_document_types_are_reported_in_field_order() {
    let expected = document(FIRST_UUID, None);
    let mut actual = document(FIRST_UUID, None);
    actual.document_type = 1;
    actual.root_node.as_mut().expect("root").name = "Renamed".to_string();
    let kinds: Vec<String> = compare(&expected, &actual).into_iter().map(|i| i.kind).collect();
    assert_eq!(kinds, vec!["playlist_document_type_mismatch", "playlist_root_mismatch"]);
}

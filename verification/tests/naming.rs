use proflow::naming::{linked_presentation_filename, presentation_filename};
use proflow::naming::{
    canonical_presentation_name, playlist_output_path, sanitize_filename,
    CanonicalPresentationNameError,
};
use proflow::native_url::file_url;
use proflow::SlideType;

#[test]
fn scripture_strips_prefix_and_converts_colons() {
    assert_eq!(
        sanitize_filename(
            "Scripture - 1 Kings 18:18-21 (Connie)",
            SlideType::Scripture
        ),
        "1 Kings 18v18-21"
    );
    assert_eq!(
        sanitize_filename("Scripture: 1 Kings 18:18-21", SlideType::Scripture),
        "1 Kings 18v18-21"
    );
    assert_eq!(
        sanitize_filename("Reading - John 3:16", SlideType::Scripture),
        "John 3v16"
    );
}

#[test]
fn scripture_bare_reference() {
    assert_eq!(
        sanitize_filename("Matthew 6:1-2", SlideType::Scripture),
        "Matthew 6v1-2"
    );
    assert_eq!(
        sanitize_filename("Psalm 119:105-106", SlideType::Scripture),
        "Psalm 119v105-106"
    );
}

#[test]
fn scripture_strips_speaker_parens() {
    assert_eq!(
        sanitize_filename("Scripture (Robert)", SlideType::Scripture),
        ""
    );
    assert_eq!(
        sanitize_filename("Scripture - John 3:16 (Robert)", SlideType::Scripture),
        "John 3v16"
    );
}

#[test]
fn song_keeps_parens() {
    assert_eq!(
        sanitize_filename("Firm Foundation (He Won't)", SlideType::Lyrics),
        "Firm Foundation (He Won't)"
    );
    assert_eq!(
        sanitize_filename("Morning By Morning (I Will Trust)", SlideType::Lyrics),
        "Morning By Morning (I Will Trust)"
    );
    assert_eq!(
        sanitize_filename("Oceans (Where Feet May Fail)", SlideType::Lyrics),
        "Oceans (Where Feet May Fail)"
    );
}

#[test]
fn song_strips_unsafe_chars() {
    assert_eq!(sanitize_filename("What?", SlideType::Lyrics), "What");
}

#[test]
fn general_strips_speaker_parens() {
    assert_eq!(
        sanitize_filename("Welcome (Robert)", SlideType::Graphic),
        "Welcome"
    );
    assert_eq!(
        sanitize_filename("Children's Message (Connie)", SlideType::Title),
        "Children's Message"
    );
    assert_eq!(
        sanitize_filename("Benediction (Robert)", SlideType::Text),
        "Benediction"
    );
}

#[test]
fn general_colon_to_dash() {
    assert_eq!(
        sanitize_filename("Prelude: Truro Procession", SlideType::Text),
        "Prelude - Truro Procession"
    );
    assert_eq!(
        sanitize_filename("Sermon: Showdown (Robert)", SlideType::Title),
        "Sermon - Showdown"
    );
}

#[test]
fn general_unsafe_chars_are_stripped() {
    assert_eq!(
        sanitize_filename("He said \"hello\"", SlideType::Text),
        "He said hello"
    );
}

#[test]
fn general_name_passes_through() {
    assert_eq!(
        sanitize_filename("Amazing Grace", SlideType::Text),
        "Amazing Grace"
    );
}

#[test]
fn file_urls_encode_reserved_filename_characters() {
    assert_eq!(
        file_url("/Libraries/Default/[Hymn] A&B #1.pro"),
        "file:///Libraries/Default/%5BHymn%5D%20A%26B%20%231.pro"
    );
    assert_eq!(
        file_url("file:///Libraries/Default/Already%20Encoded.pro"),
        "file:///Libraries/Default/Already%20Encoded.pro"
    );
}

#[test]
fn canonical_name_replaces_colon_with_v() {
    assert_eq!(
        canonical_presentation_name("Matthew 3:16-17", SlideType::Scripture),
        Ok("Matthew 3v16-17".to_string())
    );
}

#[test]
fn canonical_name_rejects_empty_normalized_output() {
    assert_eq!(
        canonical_presentation_name("(Prayer)", SlideType::Title),
        Err(CanonicalPresentationNameError::Empty)
    );
}

#[test]
fn output_path_requires_and_uses_the_explicit_directory() {
    let directory = "/reviewed/playlist-output";
    assert_eq!(
        playlist_output_path(directory, "Sunday: Service"),
        "/reviewed/playlist-output/Sunday_ Service.proplaylist"
    );
}

#[test]
fn white_space_runs_collapse_and_nested_parens_are_removed() {
    assert_eq!(
        sanitize_filename("  A \t  B  ", SlideType::Lyrics),
        "A B"
    );
    assert_eq!(
        sanitize_filename("Talk (by (guest)) now) end", SlideType::Text),
        "Talk now end"
    );
    assert_eq!(
        sanitize_filename("A:: B", SlideType::Text),
        "A - - B"
    );
    assert_eq!(SlideType::Scripture.name(), "Scripture");
    assert_eq!(SlideType::default(), SlideType::Text);
}

fn linked_item(
    local: Option<&str>,
    storage: Option<&str>,
    absolute: Option<&str>,
) -> proflow::package::PlaylistItemSummary {
    proflow::package::PlaylistItemSummary {
        item_uuid: None,
        name: "Item".to_string(),
        item_tags: Vec::new(),
        is_hidden: false,
        document_platform: None,
        absolute_string: absolute.map(str::to_string),
        storage_relative_path: storage.map(str::to_string),
        local_relative_path: local.map(str::to_string),
        local_root: None,
        external_relative_path: None,
        arrangement_uuid: None,
        content_destination: 0,
        user_music_key: None,
        arrangement_name: String::new(),
    }
}

#[test]
fn linked_filename_decodes_the_last_segment_of_the_first_locator() {
    let item = linked_item(Some("Libraries/Default/My%20Song.PRO"), Some("x.pro"), None);
    assert_eq!(linked_presentation_filename(&item).as_deref(), Some("My Song.PRO"));
    let item = linked_item(None, Some(" Libraries\\Default\\Hymn.pro/ "), None);
    assert_eq!(linked_presentation_filename(&item).as_deref(), Some("Hymn.pro"));
}

#[test]
fn linked_filename_falls_back_to_the_absolute_url() {
    let item = linked_item(
        Some("Libraries/Default/notes.txt"),
        None,
        Some("file:///Users/op/Libraries/Default/Anthem.pro"),
    );
    assert_eq!(linked_presentation_filename(&item).as_deref(), Some("Anthem.pro"));
    let item = linked_item(None, None, Some("file:///Users/op/Bad%ZZ.pro"));
    assert_eq!(linked_presentation_filename(&item), None);
    let item = linked_item(None, None, None);
    assert_eq!(linked_presentation_filename(&item), None);
}

#[test]
fn presentation_filename_requires_a_pro_extension() {
    assert_eq!(presentation_filename(".pro"), None);
    assert_eq!(presentation_filename("a.b.Pro").as_deref(), Some("a.b.Pro"));
    assert_eq!(presentation_filename("song"), None);
    assert_eq!(presentation_filename("   "), None);
    assert_eq!(presentation_filename("dir/sub%2Fsong.pro").as_deref(), Some("sub/song.pro"));
}

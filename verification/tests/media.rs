use proflow::document::{
    Action, ActionData, BaseSlide, Cue, DataLink, LocalRelativePath, Media, MediaFile,
    MediaMarker, MediaTypeProperties, Presentation, PresentationSlide, PropSlide,
    RelativeFilePath, SlideElement, SlideKind, Timeline, TimelineCue, Url, UrlStorage,
    PLATFORM_MACOS, PLATFORM_UNKNOWN, ROOT_SHOW,
};
use proflow::media::{
    presentation_media_dependencies, presentation_slide_media_dependencies, MediaDependency,
    MediaDependencyResolution,
};
use proflow::native_url::file_url;

fn source_url(source: &str) -> Url {
    Url {
        platform: PLATFORM_UNKNOWN,
        storage: Some(UrlStorage::AbsoluteString(source.to_string())),
        relative_file_path: None,
    }
}

fn dependency_from_source(source: &str) -> Option<MediaDependency> {
    if source.trim().is_empty() {
        return None;
    }
    MediaDependency::from_url(&source_url(source))
}

fn media_action(media: Media) -> Action {
    Action {
        data: Some(ActionData::Media { element: Some(media), markers: Vec::new() }),
        ..Action::default()
    }
}

fn image_media(path: &str) -> Media {
    let url = Url {
        platform: PLATFORM_MACOS,
        storage: Some(UrlStorage::AbsoluteString(file_url(path))),
        relative_file_path: None,
    };
    Media {
        url: Some(source_url(&file_url(path))),
        type_properties: Some(MediaTypeProperties::Image {
            file: Some(MediaFile { local_url: Some(url) }),
        }),
    }
}

fn slide_action(slide: SlideKind) -> Action {
    Action { data: Some(ActionData::Slide { slide: Some(slide) }), ..Action::default() }
}

fn feed_element(link: DataLink) -> SlideElement {
    SlideElement { element: None, data_links: vec![link] }
}

#[test]
fn finds_action_media_dependencies() {
    let media_path = "/tmp/proflow-media-test/default.jpg";
    let presentation = Presentation {
        cues: vec![Cue { actions: vec![media_action(image_media(media_path))], ..Cue::default() }],
        ..Presentation::default()
    };

    let dependencies = presentation_media_dependencies(&presentation);

    assert_eq!(dependencies.len(), 1);
    assert_eq!(dependencies[0].stored_absolute_path().as_deref(), Some(media_path));
    assert_eq!(dependencies[0].basename(), Some("default.jpg"));
}

#[test]
fn local_missing_and_remote_unresolved_dependencies_remain_distinct() {
    let local = dependency_from_source("file:///missing/background.png").expect("local dependency");
    let remote =
        dependency_from_source("https://example.com/background.png").expect("remote dependency");

    assert_eq!(
        local.resolve(None, &Vec::new()),
        MediaDependencyResolution::Missing("/missing/background.png".to_string())
    );
    assert_eq!(remote.resolve(None, &Vec::new()), MediaDependencyResolution::Unresolved);
}

#[test]
fn decoded_file_url_dependency_keeps_source_path_and_basename() {
    let source = "file:///Users/jimmy/Media/Home.%20lyrics%20slide%20background.png";
    let dependency = dependency_from_source(source).expect("dependency");

    assert_eq!(dependency.source(), source);
    assert_eq!(
        dependency.stored_absolute_path().as_deref(),
        Some("/Users/jimmy/Media/Home. lyrics slide background.png")
    );
    assert_eq!(dependency.basename(), Some("Home. lyrics slide background.png"));
}

#[test]
fn existing_candidate_resolves_as_available() {
    let local = dependency_from_source("file:///media/a.png").expect("local dependency");
    assert_eq!(
        local.resolve(None, &vec!["/media/a.png".to_string()]),
        MediaDependencyResolution::Available("/media/a.png".to_string())
    );
}

#[test]
fn show_relative_locator_is_preferred_over_stale_absolute_path() {
    let url = Url {
        platform: PLATFORM_MACOS,
        storage: Some(UrlStorage::AbsoluteString("file:///old/Media/a.png".to_string())),
        relative_file_path: Some(RelativeFilePath::Local(LocalRelativePath {
            root: ROOT_SHOW,
            path: "Media/a.png".to_string(),
        })),
    };
    let dependency = MediaDependency::from_url(&url).expect("dependency");
    assert_eq!(dependency.stored_absolute_path().as_deref(), Some("/old/Media/a.png"));
    assert_eq!(
        dependency.resolve(Some("/show"), &vec!["/show/Media/a.png".to_string()]),
        MediaDependencyResolution::Available("/show/Media/a.png".to_string())
    );
    assert_eq!(
        dependency.resolve(Some("/show"), &Vec::new()),
        MediaDependencyResolution::Missing("/show/Media/a.png".to_string())
    );
}

#[test]
fn repeated_references_are_listed_once_in_first_occurrence_order() {
    let presentation = Presentation {
        chord_chart: Some(source_url("file:///charts/song.prochord")),
        cues: vec![
            Cue { actions: vec![media_action(image_media("/media/b.png"))], ..Cue::default() },
            Cue {
                actions: vec![
                    media_action(image_media("/media/a.png")),
                    media_action(image_media("/media/b.png")),
                ],
                ..Cue::default()
            },
        ],
        ..Presentation::default()
    };

    let dependencies = presentation_media_dependencies(&presentation);
    let paths: Vec<Option<String>> =
        dependencies.iter().map(|d| d.stored_absolute_path()).collect();
    assert_eq!(
        paths,
        vec![
            Some("/charts/song.prochord".to_string()),
            Some("/media/b.png".to_string()),
            Some("/media/a.png".to_string()),
        ]
    );
}

#[test]
fn remote_feeds_are_dropped_but_remote_media_is_kept() {
    let slide = PresentationSlide {
        base_slide: Some(BaseSlide {
            size: None,
            elements: vec![
                feed_element(DataLink::FileFeed(Some(source_url("https://example.com/feed.txt")))),
                feed_element(DataLink::RssFeed(Some(source_url("file:///feeds/news.xml")))),
            ],
        }),
        chord_chart: None,
        notes_attributes: None,
    };
    let presentation = Presentation {
        chord_chart: Some(source_url("https://example.com/chart.prochord")),
        cues: vec![Cue {
            actions: vec![
                media_action(Media {
                    url: None,
                    type_properties: Some(MediaTypeProperties::WebContent {
                        url: Some(source_url("https://example.com/live")),
                    }),
                }),
                slide_action(SlideKind::Presentation(slide)),
            ],
            ..Cue::default()
        }],
        ..Presentation::default()
    };

    let dependencies = presentation_media_dependencies(&presentation);
    let sources: Vec<&str> = dependencies.iter().map(|d| d.source()).collect();
    assert_eq!(sources, vec!["https://example.com/chart.prochord", "file:///feeds/news.xml"]);
    assert_eq!(dependencies[0].resolve(None, &Vec::new()), MediaDependencyResolution::Unresolved);
}

#[test]
fn markers_prop_slides_and_timeline_actions_are_followed() {
    let marker_action = media_action(image_media("/media/marker.png"));
    let prop = slide_action(SlideKind::Prop(PropSlide {
        base_slide: Some(BaseSlide {
            size: None,
            elements: vec![feed_element(DataLink::TickerFile(Some(source_url(
                "file:///feeds/ticker.txt",
            ))))],
        }),
    }));
    let presentation = Presentation {
        cues: vec![Cue {
            actions: vec![
                Action {
                    data: Some(ActionData::Media {
                        element: None,
                        markers: vec![MediaMarker { actions: vec![marker_action] }],
                    }),
                    ..Action::default()
                },
                prop,
            ],
            ..Cue::default()
        }],
        timeline: Some(Timeline {
            audio_action: Some(media_action(image_media("/media/audio.m4a"))),
            cues: vec![TimelineCue { action: None }],
            cues_v2: vec![TimelineCue {
                action: Some(Action {
                    data: Some(ActionData::ExternalPresentation {
                        url: Some(source_url("file:///shows/other.pro")),
                    }),
                    ..Action::default()
                }),
            }],
        }),
        ..Presentation::default()
    };

    let dependencies = presentation_media_dependencies(&presentation);
    let basenames: Vec<Option<&str>> = dependencies.iter().map(|d| d.basename()).collect();
    assert_eq!(
        basenames,
        vec![Some("marker.png"), Some("ticker.txt"), Some("audio.m4a"), Some("other.pro")]
    );
}

#[test]
fn slide_dependencies_include_its_chord_chart() {
    let slide = PresentationSlide {
        base_slide: None,
        chord_chart: Some(source_url("file:///charts/a.prochord")),
        notes_attributes: None,
    };
    let dependencies = presentation_slide_media_dependencies(&slide);
    assert_eq!(dependencies.len(), 1);
    assert_eq!(dependencies[0].basename(), Some("a.prochord"));
}

#[test]
fn blank_sources_give_no_dependency() {
    assert!(MediaDependency::from_url(&source_url("   ")).is_none());
    assert!(presentation_media_dependencies(&Presentation::default()).is_empty());
}

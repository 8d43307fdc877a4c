//! The parts of the native `ProPresenter` document schema that the library
//! reads and writes, held as plain values.
//!
//! Enumerations keep the raw protobuf integer values the schema stores. A
//! floating-point canvas dimension is held as the positive integral value it
//! denotes, or `None` when it is not one.
use vstd::prelude::*;

verus! {

/// `URL.Platform` value when no platform is recorded.
pub const PLATFORM_UNKNOWN: i32 = 0;

/// `URL.Platform` value for macOS.
pub const PLATFORM_MACOS: i32 = 1;

/// `URL.Platform` value for Windows.
pub const PLATFORM_WIN32: i32 = 2;

/// `URL.LocalRelativePath.Root` value for the active show directory.
pub const ROOT_SHOW: i32 = 10;

/// Storage oneof of a native URL.
#[derive(Debug, PartialEq, Eq)]
pub enum UrlStorage {
    /// Absolute string, usually a `file://` URL.
    AbsoluteString(String),
    /// Relative path string.
    RelativePath(String),
}

/// Show-relative (or other root-relative) file path.
#[derive(Debug, PartialEq, Eq)]
pub struct LocalRelativePath {
    /// Root enumeration value.
    pub root: i32,
    /// Path below the root.
    pub path: String,
}

/// Path on an external volume.
#[derive(Debug, PartialEq, Eq)]
pub struct ExternalRelativePath {
    /// Path on the volume.
    pub path: String,
}

/// Relative-file-path oneof of a native URL.
#[derive(Debug, PartialEq, Eq)]
pub enum RelativeFilePath {
    /// Path relative to a local root.
    Local(LocalRelativePath),
    /// Path on an external volume.
    External(ExternalRelativePath),
}

/// One native file reference.
#[derive(Debug, PartialEq, Eq)]
pub struct Url {
    /// Platform enumeration value.
    pub platform: i32,
    /// Serialized storage string.
    pub storage: Option<UrlStorage>,
    /// Root-relative locator.
    pub relative_file_path: Option<RelativeFilePath>,
}

impl Url {
    /// An empty URL (every field at its protobuf default).
    pub fn empty() -> (u: Url)
        ensures
            u.platform == PLATFORM_UNKNOWN,
            u.storage is None,
            u.relative_file_path is None,
    {
        Url { platform: PLATFORM_UNKNOWN, storage: None, relative_file_path: None }
    }
}

/// `Action.ActionType` value of a macro action.
pub const ACTION_TYPE_MACRO: i32 = 23;

/// `Action.ActionType` value of a presentation-slide action.
pub const ACTION_TYPE_PRESENTATION_SLIDE: i32 = 11;

/// Identification of one element of a native collection (a macro, a look).
#[derive(Debug, PartialEq, Eq)]
pub struct CollectionElementType {
    /// Element identity.
    pub parameter_uuid: Option<String>,
    /// Element name.
    pub parameter_name: String,
    /// Collection holding the element.
    pub parent_collection: Option<Box<CollectionElementType>>,
}

impl Clone for CollectionElementType {
    fn clone(&self) -> (r: Self)
        ensures
            r == *self,
        decreases self,
    {
        let parent = match &self.parent_collection {
            Some(p) => Some(Box::new((&**p).clone())),
            None => None,
        };
        CollectionElementType {
            parameter_uuid: match &self.parameter_uuid {
                Some(u) => Some(u.clone()),
                None => None,
            },
            parameter_name: self.parameter_name.clone(),
            parent_collection: parent,
        }
    }
}

/// A native canvas size: each dimension as the positive integral value the
/// stored number denotes, or `None` when it is non-finite, not positive,
/// fractional, or above `u32::MAX`.
#[derive(Debug, Clone, Copy, PartialEq, Eq)]
pub struct CanvasSize {
    /// Width.
    pub width: Option<u32>,
    /// Height.
    pub height: Option<u32>,
}

/// A media file carrier.
#[derive(Debug, PartialEq, Eq)]
pub struct MediaFile {
    /// The file's local URL.
    pub local_url: Option<Url>,
}

/// The type-specific properties of a media element.
#[derive(Debug, PartialEq, Eq)]
pub enum MediaTypeProperties {
    /// Audio media.
    Audio {
        /// The audio file.
        file: Option<MediaFile>,
    },
    /// Image media.
    Image {
        /// The image file.
        file: Option<MediaFile>,
    },
    /// Video media.
    Video {
        /// The video file.
        file: Option<MediaFile>,
    },
    /// Web content.
    WebContent {
        /// The page URL.
        url: Option<Url>,
    },
    /// Live video.
    LiveVideo,
}

/// A media element.
#[derive(Debug, PartialEq, Eq)]
pub struct Media {
    /// The media URL.
    pub url: Option<Url>,
    /// Type-specific properties.
    pub type_properties: Option<MediaTypeProperties>,
}

/// A media fill of text.
#[derive(Debug, PartialEq, Eq)]
pub struct MediaFill {
    /// The media shown through the text.
    pub media: Option<Media>,
}

/// One custom text attribute: its media fill, or `None` for any other kind.
#[derive(Debug, PartialEq, Eq)]
pub struct CustomAttribute {
    /// The attribute's media fill.
    pub media_fill: Option<MediaFill>,
}

/// The attributes of a text.
#[derive(Debug, PartialEq, Eq)]
pub struct TextAttributes {
    /// The text fill, when it is a media fill.
    pub media_fill: Option<MediaFill>,
    /// Custom attributes, in order.
    pub custom_attributes: Vec<CustomAttribute>,
}

/// The text payload of a graphics element.
#[derive(Debug, PartialEq, Eq)]
pub struct GraphicsText {
    /// The RTF document bytes.
    pub rtf_data: Vec<u8>,
    /// The text's attributes.
    pub attributes: Option<TextAttributes>,
}

/// The fill of a graphics element: its media, or `None` for any other fill.
#[derive(Debug, PartialEq, Eq)]
pub struct GraphicsFill {
    /// The fill media.
    pub media: Option<Media>,
}

/// A graphics element of a slide.
#[derive(Debug, PartialEq, Eq)]
pub struct GraphicsElement {
    /// The element's name.
    pub name: String,
    /// Its fill.
    pub fill: Option<GraphicsFill>,
    /// Its text, when it is a text element.
    pub text: Option<GraphicsText>,
}

/// A data link of a slide element.
#[derive(Debug, PartialEq, Eq)]
pub enum DataLink {
    /// A file feed.
    FileFeed(Option<Url>),
    /// An RSS feed.
    RssFeed(Option<Url>),
    /// A ticker fed by a file.
    TickerFile(Option<Url>),
    /// A ticker fed by an RSS feed.
    TickerRss(Option<Url>),
    /// Any other data link.
    Other,
}

/// One element of a slide.
#[derive(Debug, PartialEq, Eq)]
pub struct SlideElement {
    /// The graphics element.
    pub element: Option<GraphicsElement>,
    /// Its data links.
    pub data_links: Vec<DataLink>,
}

/// The base slide of a presentation slide.
#[derive(Debug, PartialEq, Eq)]
pub struct BaseSlide {
    /// Canvas size.
    pub size: Option<CanvasSize>,
    /// Elements in stacking order.
    pub elements: Vec<SlideElement>,
}

/// A native presentation slide.
#[derive(Debug, PartialEq, Eq)]
pub struct PresentationSlide {
    /// The slide's base.
    pub base_slide: Option<BaseSlide>,
    /// The slide's chord chart.
    pub chord_chart: Option<Url>,
    /// The attributes of the slide's notes.
    pub notes_attributes: Option<TextAttributes>,
}

/// A native prop slide.
#[derive(Debug, PartialEq, Eq)]
pub struct PropSlide {
    /// The slide's base.
    pub base_slide: Option<BaseSlide>,
}

/// The slide oneof of a slide action.
#[derive(Debug, PartialEq, Eq)]
pub enum SlideKind {
    /// A presentation slide.
    Presentation(PresentationSlide),
    /// A prop slide.
    Prop(PropSlide),
}

/// A marker of a media action.
#[derive(Debug, PartialEq, Eq)]
pub struct MediaMarker {
    /// Actions triggered at the marker.
    pub actions: Vec<Action>,
}

/// Typed payload of an action.
#[derive(Debug, PartialEq, Eq)]
pub enum ActionData {
    /// A macro trigger.
    Macro {
        /// The macro's identification.
        identification: Option<CollectionElementType>,
    },
    /// A slide.
    Slide {
        /// The slide.
        slide: Option<SlideKind>,
    },
    /// A media element.
    Media {
        /// The media.
        element: Option<Media>,
        /// Its markers.
        markers: Vec<MediaMarker>,
    },
    /// An external presentation.
    ExternalPresentation {
        /// The presentation's URL.
        url: Option<Url>,
    },
    /// Any other payload, by its oneof field number.
    Other(u32),
}

/// One native action.
#[derive(Debug, PartialEq, Eq)]
pub struct Action {
    /// Action identity.
    pub uuid: Option<String>,
    /// Action name.
    pub name: String,
    /// Declared `ActionType` value.
    pub action_type: i32,
    /// Whether the action is enabled.
    pub is_enabled: bool,
    /// Typed payload.
    pub data: Option<ActionData>,
}

impl Default for Action {
    fn default() -> (a: Action)
        ensures
            a.uuid is None,
            a.name@ == Seq::<char>::empty(),
            a.action_type == 0,
            !a.is_enabled,
            a.data is None,
    {
        Action { uuid: None, name: String::new(), action_type: 0, is_enabled: false, data: None }
    }
}

/// One native cue.
#[derive(Debug, PartialEq, Eq)]
pub struct Cue {
    /// Cue identity.
    pub uuid: Option<String>,
    /// Cue name.
    pub name: String,
    /// Actions in execution order.
    pub actions: Vec<Action>,
}

impl Default for Cue {
    fn default() -> (c: Cue)
        ensures
            c.uuid is None,
            c.name@ == Seq::<char>::empty(),
            c.actions@ == Seq::<Action>::empty(),
    {
        Cue { uuid: None, name: String::new(), actions: Vec::new() }
    }
}

/// A native cue group's metadata.
#[derive(Debug, PartialEq, Eq)]
pub struct Group {
    /// Group identity.
    pub uuid: Option<String>,
    /// Display name.
    pub name: String,
}

/// A cue group: metadata and the identities of its cues.
#[derive(Debug, PartialEq, Eq)]
pub struct CueGroup {
    /// Group metadata.
    pub group: Option<Group>,
    /// Member cue identities, in order.
    pub cue_identifiers: Vec<String>,
}

/// A native arrangement.
#[derive(Debug, PartialEq, Eq)]
pub struct Arrangement {
    /// Arrangement identity.
    pub uuid: Option<String>,
    /// Display name.
    pub name: String,
    /// Group identities in traversal order.
    pub group_identifiers: Vec<String>,
}

/// A native presentation document.
#[derive(Debug, PartialEq, Eq)]
pub struct Presentation {
    /// Presentation identity.
    pub uuid: Option<String>,
    /// Presentation name.
    pub name: String,
    /// Cues in document order.
    pub cues: Vec<Cue>,
    /// Cue groups.
    pub cue_groups: Vec<CueGroup>,
    /// Arrangements.
    pub arrangements: Vec<Arrangement>,
    /// Selected arrangement identity.
    pub selected_arrangement: Option<String>,
    /// The presentation's chord chart.
    pub chord_chart: Option<Url>,
    /// The presentation's timeline.
    pub timeline: Option<Timeline>,
}

/// A cue of a presentation timeline: its action trigger, or `None` for any
/// other trigger.
#[derive(Debug, PartialEq, Eq)]
pub struct TimelineCue {
    /// The triggered action.
    pub action: Option<Action>,
}

/// A presentation timeline.
#[derive(Debug, PartialEq, Eq)]
pub struct Timeline {
    /// The audio action.
    pub audio_action: Option<Action>,
    /// Cues.
    pub cues: Vec<TimelineCue>,
    /// Second-generation cues.
    pub cues_v2: Vec<TimelineCue>,
}

impl Default for Presentation {
    fn default() -> (p: Presentation)
        ensures
            p.uuid is None,
            p.name@ == Seq::<char>::empty(),
            p.cues@ == Seq::<Cue>::empty(),
            p.cue_groups@ == Seq::<CueGroup>::empty(),
            p.arrangements@ == Seq::<Arrangement>::empty(),
            p.selected_arrangement is None,
            p.chord_chart is None,
            p.timeline is None,
    {
        Presentation {
            uuid: None,
            name: String::new(),
            cues: Vec::new(),
            cue_groups: Vec::new(),
            arrangements: Vec::new(),
            selected_arrangement: None,
            chord_chart: None,
            timeline: None,
        }
    }
}


/// The music key and scale chosen for a playlist item.
#[derive(Debug, Clone, Copy, PartialEq, Eq)]
pub struct MusicKeyScale {
    /// `MusicKey` value.
    pub music_key: i32,
    /// `MusicScale` value.
    pub music_scale: i32,
}

/// The presentation payload of a playlist item.
#[derive(Debug, PartialEq, Eq)]
pub struct PlaylistPresentationItem {
    /// Where the presentation document lives.
    pub document_path: Option<Url>,
    /// Selected arrangement identity.
    pub arrangement: Option<String>,
    /// Content destination value.
    pub content_destination: i32,
    /// User-selected music key.
    pub user_music_key: Option<MusicKeyScale>,
    /// Serialized arrangement display name.
    pub arrangement_name: String,
}

/// The payload oneof of a playlist item.
#[derive(Debug, PartialEq, Eq)]
pub enum PlaylistItemType {
    /// A presentation.
    Presentation(PlaylistPresentationItem),
    /// Any other payload, by its oneof field number.
    Other(u32),
}

/// One item of a playlist.
#[derive(Debug, PartialEq, Eq)]
pub struct PlaylistItem {
    /// Item identity.
    pub uuid: Option<String>,
    /// Display name.
    pub name: String,
    /// Tag identities, in serialized order.
    pub tags: Vec<String>,
    /// Whether the item is hidden.
    pub is_hidden: bool,
    /// Typed payload.
    pub item_type: Option<PlaylistItemType>,
}

/// The children oneof of a playlist node.
#[derive(Debug, PartialEq, Eq)]
pub enum PlaylistChildren {
    /// Nested playlists.
    Playlists(Vec<Playlist>),
    /// Items.
    Items(Vec<PlaylistItem>),
}

/// A playlist node.
#[derive(Debug, PartialEq, Eq)]
pub struct Playlist {
    /// Node identity.
    pub uuid: Option<String>,
    /// Display name.
    pub name: String,
    /// Legacy nested playlists.
    pub children: Vec<Playlist>,
    /// The node's children.
    pub children_type: Option<PlaylistChildren>,
}

/// A producer version.
#[derive(Debug, PartialEq, Eq)]
pub struct Version {
    /// Major version.
    pub major_version: u32,
    /// Minor version.
    pub minor_version: u32,
    /// Patch version.
    pub patch_version: u32,
    /// Build identifier.
    pub build: String,
}

impl Clone for Version {
    fn clone(&self) -> (r: Self)
        ensures
            r == *self,
    {
        Version {
            major_version: self.major_version,
            minor_version: self.minor_version,
            patch_version: self.patch_version,
            build: self.build.clone(),
        }
    }
}

/// `ApplicationInfo.Platform` value for macOS.
pub const APPLICATION_PLATFORM_MACOS: i32 = 1;

/// `ApplicationInfo.Application` value for ProPresenter.
pub const APPLICATION_PROPRESENTER: i32 = 1;

/// `PlaylistDocument.Type` value of a presentation playlist document.
pub const PLAYLIST_DOCUMENT_TYPE_PRESENTATION: i32 = 1;

/// `Action.ContentDestination` value of the global layer.
pub const CONTENT_DESTINATION_GLOBAL: i32 = 0;

/// The application that produced a document.
#[derive(Debug, PartialEq, Eq)]
pub struct ApplicationInfo {
    /// Platform enumeration value.
    pub platform: i32,
    /// Platform version.
    pub platform_version: Option<Version>,
    /// Application enumeration value.
    pub application: i32,
    /// Application version.
    pub application_version: Option<Version>,
}

impl Clone for ApplicationInfo {
    fn clone(&self) -> (r: Self)
        ensures
            r == *self,
    {
        ApplicationInfo {
            platform: self.platform,
            platform_version: match &self.platform_version {
                Some(v) => Some(v.clone()),
                None => None,
            },
            application: self.application,
            application_version: match &self.application_version {
                Some(v) => Some(v.clone()),
                None => None,
            },
        }
    }
}

/// A native playlist document.
#[derive(Debug, PartialEq, Eq)]
pub struct PlaylistDocument {
    /// The producing application.
    pub application_info: Option<ApplicationInfo>,
    /// Document type value.
    pub document_type: i32,
    /// The root node.
    pub root_node: Option<Playlist>,
    /// The live-video playlist.
    pub live_video_playlist: Option<Playlist>,
    /// The downloads playlist.
    pub downloads_playlist: Option<Playlist>,
}

} // verus!
